use justifier::transform;
use justifier::Error;

#[test]
fn simple() {
    let test_cases = [
        ("", 5, ""),
        ("test", 5, "test "),
        ("Lorem ipsum dolor sit amet consectetur adipiscing elit sed do eiusmod tempor incididunt ut labore et dolore magna aliqua", 12,
         "Lorem  ipsum\ndolor    sit\namet        \nconsectetur \nadipiscing  \nelit  sed do\neiusmod     \ntempor      \nincididunt  \nut labore et\ndolore magna\naliqua      "),
        ("Lorem     ipsum    dolor", 17, "Lorem ipsum dolor"),
        ("象 形 字", 8, "象   形  字"),
    ];

    for &(input, line_width, expected) in &test_cases {
        println!("input: '{}'", input);

        let transformed = transform(input, line_width).unwrap();

        assert_eq!(transformed, expected);
    }
}

#[test]
fn empty_input_gives_empty_output() {
    assert_eq!(transform("", 1).unwrap(), "");
    assert_eq!(transform("", 80).unwrap(), "");
    assert_eq!(transform("   ", 4).unwrap(), "");
}

#[test]
fn single_word_gets_one_trailing_space_at_width_plus_one() {
    assert_eq!(transform("abcd", 5).unwrap(), "abcd ");
    assert_eq!(transform("x", 2).unwrap(), "x ");
}

#[test]
fn word_as_long_as_width_is_refused() {
    assert_eq!(transform("hello", 5), Err(Error::WordTooLong));
    assert_eq!(transform("hello!", 5), Err(Error::WordTooLong));
    assert_eq!(transform("ok toolong", 7), Err(Error::WordTooLong));
    assert_eq!(transform("a", 1), Err(Error::WordTooLong));
    assert_eq!(transform("a", 0), Err(Error::WordTooLong));
}

#[test]
fn zero_width_accepts_only_empty_input() {
    assert_eq!(transform("", 0).unwrap(), "");
    assert_eq!(transform("a", 0), Err(Error::WordTooLong));
}

#[test]
fn even_slack_spreads_equally() {
    // Three one-letter words, width 7: slack 4 over 2 gaps, 2 spaces each.
    assert_eq!(transform("a b c", 7).unwrap(), "a  b  c");
}

#[test]
fn remainder_goes_to_leftmost_gap() {
    // Width 8: slack 5 over 2 gaps, so 3 spaces left of the middle word.
    assert_eq!(transform("a b c", 8).unwrap(), "a   b  c");
}

#[test]
fn lines_join_with_single_break_none_trailing() {
    // "aa bb" fills the first line exactly; "cc" is padded on its own line.
    assert_eq!(transform("aa bb cc", 5).unwrap(), "aa bb\ncc   ");
}

#[test]
fn words_keep_their_order_and_characters() {
    let out = transform("one two three four", 9).unwrap();
    assert_eq!(out, "one   two\nthree    \nfour     ");
    let rejoined: Vec<&str> = out.split(['\n', ' ']).filter(|w| !w.is_empty()).collect();
    assert_eq!(rejoined, vec!["one", "two", "three", "four"]);
}

#[test]
fn retransforming_a_line_reproduces_it() {
    // Spacing is recomputed from word lengths, so a justified line maps to
    // itself when transformed again at the same width.
    let line = transform("a b c", 8).unwrap();
    assert_eq!(transform(&line, 8).unwrap(), line);
}

#[test]
fn scalar_values_measure_width_not_bytes() {
    // Multi-byte glyphs count one unit each.
    assert_eq!(transform("象", 2).unwrap(), "象 ");
    assert_eq!(transform("象   形", 5).unwrap(), "象   形");
}
