//! The mathematical model of justification: what the words of a text are,
//! how they are packed greedily into lines, and what a justified line and a
//! justified text look like, all as functions on sequences of characters.

use vstd::prelude::*;

verus! {

// ---------------------------------------------------------------------------
// Tokenization
// ---------------------------------------------------------------------------

/// The words still to be produced from `s`, after the characters of `cur`
/// (the currently open, possibly empty word) have just been read: a space
/// closes the open word, any other character extends it.
pub open spec fn words_from(s: Seq<char>, cur: Seq<char>) -> Seq<Seq<char>>
    decreases s.len(),
{
    if s.len() == 0 {
        if cur.len() == 0 {
            seq![]
        } else {
            seq![cur]
        }
    } else if s[0] == ' ' {
        if cur.len() == 0 {
            words_from(s.drop_first(), cur)
        } else {
            seq![cur] + words_from(s.drop_first(), Seq::empty())
        }
    } else {
        words_from(s.drop_first(), cur.push(s[0]))
    }
}

/// The words of `s`: its maximal runs of non-space characters, in order.
/// Runs of spaces separate words and are otherwise discarded, so leading,
/// trailing and repeated spaces produce no empty words.
pub open spec fn words(s: Seq<char>) -> Seq<Seq<char>> {
    words_from(s, Seq::empty())
}

/// No character of `w` is a space.
pub open spec fn space_free(w: Seq<char>) -> bool {
    forall|i: int| 0 <= i < w.len() ==> w[i] != ' '
}

/// A word as the tokenizer produces it: non-empty and without spaces.
pub open spec fn wf_word(w: Seq<char>) -> bool {
    &&& w.len() >= 1
    &&& space_free(w)
}

/// Every word of `ws` is strictly shorter than `width`, so each fits on a
/// line of that width with room for at least one space of padding.
pub open spec fn all_words_fit(ws: Seq<Seq<char>>, width: int) -> bool {
    forall|i: int| 0 <= i < ws.len() ==> (#[trigger] ws[i]).len() < width
}

// ---------------------------------------------------------------------------
// Line packing
// ---------------------------------------------------------------------------

/// The total length of the words of a line.
pub open spec fn word_sum(line: Seq<Seq<char>>) -> int
    decreases line.len(),
{
    if line.len() == 0 {
        0
    } else {
        line[0].len() + word_sum(line.drop_first())
    }
}

/// The least width a line can occupy: its words joined by single spaces.
pub open spec fn min_width(line: Seq<Seq<char>>) -> int {
    word_sum(line) + line.len() - 1
}

/// Greedy packing of the words `ws` into lines at most `width` wide,
/// continuing a line that already holds the words `cur`: a word joins the
/// open line while that line, joined by single spaces, still fits; otherwise
/// the open line is emitted and the word opens a new one.
pub open spec fn pack_from(ws: Seq<Seq<char>>, cur: Seq<Seq<char>>, width: int) -> Seq<
    Seq<Seq<char>>,
>
    decreases ws.len(),
{
    if ws.len() == 0 {
        if cur.len() == 0 {
            seq![]
        } else {
            seq![cur]
        }
    } else if cur.len() == 0 {
        pack_from(ws.drop_first(), seq![ws[0]], width)
    } else if min_width(cur) + 1 + ws[0].len() <= width {
        pack_from(ws.drop_first(), cur.push(ws[0]), width)
    } else {
        seq![cur] + pack_from(ws.drop_first(), seq![ws[0]], width)
    }
}

/// The lines of the justified text: the words packed greedily, first word
/// first, every line as full as single spacing allows.
pub open spec fn pack(ws: Seq<Seq<char>>, width: int) -> Seq<Seq<Seq<char>>> {
    pack_from(ws, seq![], width)
}

/// A line as the packing step emits it, for words that fit `width`: it holds
/// at least one word, every word is non-empty, space-free and shorter than
/// `width`, and single-spaced it does not exceed `width`.
pub open spec fn wf_line(line: Seq<Seq<char>>, width: int) -> bool {
    &&& line.len() >= 1
    &&& min_width(line) <= width
    &&& forall|i: int| 0 <= i < line.len() ==> wf_word(#[trigger] line[i])
    &&& all_words_fit(line, width)
}

// ---------------------------------------------------------------------------
// Justification
// ---------------------------------------------------------------------------

/// `n` spaces (none if `n` is negative).
pub open spec fn spaces(n: int) -> Seq<char> {
    Seq::new(
        if n >= 0 {
            n as nat
        } else {
            0
        },
        |i: int| ' ',
    )
}

/// The number of spaces every gap of the line receives: the slack divided
/// evenly over the gaps, rounded down.
pub open spec fn even_gap(line: Seq<Seq<char>>, width: int) -> int {
    (width - word_sum(line)) / (line.len() - 1)
}

/// How many of the leftmost gaps receive one extra space: the remainder of
/// dividing the slack evenly.
pub open spec fn extra_gaps(line: Seq<Seq<char>>, width: int) -> int {
    (width - word_sum(line)) % (line.len() - 1)
}

/// The width of gap `i` of a line of two or more words: the even share,
/// plus one more space for the leftmost `extra_gaps` gaps.
pub open spec fn gap_width(line: Seq<Seq<char>>, width: int, i: int) -> int {
    even_gap(line, width) + if i < extra_gaps(line, width) {
        1int
    } else {
        0int
    }
}

/// The tail of a justified line from word `i` on: the words in order, each
/// gap between two words filled with its share of the slack, nothing after
/// the last word.
pub open spec fn justify_from(line: Seq<Seq<char>>, width: int, i: int) -> Seq<char>
    decreases line.len() - i,
{
    if i < 0 || i >= line.len() {
        seq![]
    } else if i == line.len() - 1 {
        line[i]
    } else {
        line[i] + spaces(gap_width(line, width, i)) + justify_from(line, width, i + 1)
    }
}

/// A justified line of exactly `width` characters: a single word is padded
/// with trailing spaces; two or more words are spread by widening the gaps.
pub open spec fn justify_line(line: Seq<Seq<char>>, width: int) -> Seq<char> {
    if line.len() == 1 {
        line[0] + spaces(width - line[0].len())
    } else {
        justify_from(line, width, 0)
    }
}

/// The justified lines joined by single line breaks, none trailing.
pub open spec fn join_lines(lines: Seq<Seq<Seq<char>>>, width: int) -> Seq<char>
    decreases lines.len(),
{
    if lines.len() == 0 {
        seq![]
    } else if lines.len() == 1 {
        justify_line(lines[0], width)
    } else {
        justify_line(lines[0], width) + seq!['\n'] + join_lines(lines.drop_first(), width)
    }
}

/// What a successful `transform` returns: the words of `s`, packed greedily
/// into lines of exactly `width` characters, joined by line breaks.
pub open spec fn transform_spec(s: Seq<char>, width: int) -> Seq<char> {
    join_lines(pack(words(s), width), width)
}

// ---------------------------------------------------------------------------
// Views of the executable representations
// ---------------------------------------------------------------------------

/// The character sequences of a vector of words.
pub open spec fn word_views(ws: Seq<Vec<char>>) -> Seq<Seq<char>> {
    Seq::new(ws.len(), |i: int| ws[i]@)
}

/// The word sequences of a vector of lines.
pub open spec fn line_views(lines: Seq<Vec<Vec<char>>>) -> Seq<Seq<Seq<char>>> {
    Seq::new(lines.len(), |i: int| word_views(lines[i]@))
}

// ---------------------------------------------------------------------------
// Basic facts about the model
// ---------------------------------------------------------------------------

/// A line's words never have negative total length.
pub proof fn lemma_word_sum_nonneg(line: Seq<Seq<char>>)
    ensures
        word_sum(line) >= 0,
    decreases line.len(),
{
    if line.len() > 0 {
        lemma_word_sum_nonneg(line.drop_first());
    }
}

/// Appending a word to a line adds exactly that word's length to the sum.
pub proof fn lemma_word_sum_push(line: Seq<Seq<char>>, w: Seq<char>)
    ensures
        word_sum(line.push(w)) == word_sum(line) + w.len(),
    decreases line.len(),
{
    if line.len() == 0 {
        assert(line.push(w).drop_first() =~= Seq::<Seq<char>>::empty());
        assert(word_sum(Seq::<Seq<char>>::empty()) == 0);
        assert(line.push(w)[0] == w);
        assert(word_sum(line.push(w)) == w.len() + word_sum(line.push(w).drop_first()));
    } else {
        assert(line.push(w).drop_first() =~= line.drop_first().push(w));
        lemma_word_sum_push(line.drop_first(), w);
        assert(line.push(w)[0] == line[0]);
        assert(word_sum(line.push(w)) == line.push(w)[0].len() + word_sum(
            line.push(w).drop_first(),
        ));
    }
}

/// Every word the tokenizer produces is non-empty and space-free, as long
/// as the word currently open is space-free.
pub proof fn lemma_words_from_wf(s: Seq<char>, cur: Seq<char>)
    requires
        space_free(cur),
    ensures
        forall|i: int|
            0 <= i < words_from(s, cur).len() ==> wf_word(#[trigger] words_from(s, cur)[i]),
    decreases s.len(),
{
    if s.len() == 0 {
        if cur.len() != 0 {
            assert(words_from(s, cur) == seq![cur]);
            assert(words_from(s, cur)[0] == cur);
        }
    } else if s[0] == ' ' {
        if cur.len() == 0 {
            lemma_words_from_wf(s.drop_first(), cur);
            assert(words_from(s, cur) == words_from(s.drop_first(), cur));
        } else {
            lemma_words_from_wf(s.drop_first(), Seq::empty());
            let rest = words_from(s.drop_first(), Seq::empty());
            assert(words_from(s, cur) == seq![cur] + rest);
            assert((seq![cur] + rest)[0] == cur);
            assert(forall|i: int| 1 <= i < rest.len() + 1 ==> (seq![cur] + rest)[i] == rest[i - 1]);
        }
    } else {
        assert(space_free(cur.push(s[0])));
        lemma_words_from_wf(s.drop_first(), cur.push(s[0]));
        assert(words_from(s, cur) == words_from(s.drop_first(), cur.push(s[0])));
    }
}

/// A line of one word that fits the width is well formed.
pub proof fn lemma_singleton_line(w: Seq<char>, width: int)
    requires
        wf_word(w),
        w.len() < width,
    ensures
        wf_line(seq![w], width),
        word_sum(seq![w]) == w.len(),
{
    assert(seq![w].drop_first() =~= Seq::<Seq<char>>::empty());
    assert(word_sum(seq![w]) == w.len() + word_sum(seq![w].drop_first()));
    assert(forall|i: int| 0 <= i < 1 ==> seq![w][i] == w);
}

/// Every line the greedy packing emits is well formed: non-empty, made of
/// well-formed words shorter than `width`, and no wider than `width` when
/// single-spaced.
pub proof fn lemma_pack_from_wf(ws: Seq<Seq<char>>, cur: Seq<Seq<char>>, width: int)
    requires
        all_words_fit(ws, width),
        forall|i: int| 0 <= i < ws.len() ==> wf_word(#[trigger] ws[i]),
        cur.len() >= 1 ==> wf_line(cur, width),
    ensures
        forall|i: int|
            0 <= i < pack_from(ws, cur, width).len() ==> wf_line(
                #[trigger] pack_from(ws, cur, width)[i],
                width,
            ),
    decreases ws.len(),
{
    if ws.len() == 0 {
        if cur.len() != 0 {
            assert(pack_from(ws, cur, width) == seq![cur]);
            assert(pack_from(ws, cur, width)[0] == cur);
        }
    } else if cur.len() == 0 {
        lemma_singleton_line(ws[0], width);
        lemma_pack_from_wf(ws.drop_first(), seq![ws[0]], width);
        assert(pack_from(ws, cur, width) == pack_from(ws.drop_first(), seq![ws[0]], width));
    } else if min_width(cur) + 1 + ws[0].len() <= width {
        assert(wf_line(cur.push(ws[0]), width)) by {
            lemma_word_sum_push(cur, ws[0]);
            assert(forall|i: int| 0 <= i < cur.len() ==> #[trigger] cur.push(ws[0])[i] == cur[i]);
            assert(cur.push(ws[0])[cur.len() as int] == ws[0]);
        }
        lemma_pack_from_wf(ws.drop_first(), cur.push(ws[0]), width);
        assert(pack_from(ws, cur, width) == pack_from(ws.drop_first(), cur.push(ws[0]), width));
    } else {
        lemma_singleton_line(ws[0], width);
        lemma_pack_from_wf(ws.drop_first(), seq![ws[0]], width);
        let rest = pack_from(ws.drop_first(), seq![ws[0]], width);
        assert(pack_from(ws, cur, width) == seq![cur] + rest);
        assert((seq![cur] + rest)[0] == cur);
        assert(forall|i: int| 1 <= i < rest.len() + 1 ==> (seq![cur] + rest)[i] == rest[i - 1]);
    }
}

} // verus!
