//! The general laws of the justifier, proved over the model in
//! `crate::model`: exact line widths, preservation of the words, recovery
//! of the word structure from the output, near-even gap distribution, and
//! flush-left padding of one-word lines.

use vstd::prelude::*;

use vstd::arithmetic::div_mod::lemma_div_by_self;
use vstd::arithmetic::div_mod::lemma_div_is_ordered;
use vstd::arithmetic::div_mod::lemma_fundamental_div_mod;
use vstd::arithmetic::div_mod::lemma_mod_bound;

use crate::model::all_words_fit;
use crate::model::even_gap;
use crate::model::extra_gaps;
use crate::model::gap_width;
use crate::model::justify_from;
use crate::model::justify_line;
use crate::model::lemma_pack_from_wf;
use crate::model::lemma_words_from_wf;
use crate::model::min_width;
use crate::model::pack;
use crate::model::pack_from;
use crate::model::space_free;
use crate::model::spaces;
use crate::model::transform_spec;
use crate::model::wf_line;
use crate::model::word_sum;
use crate::model::words;
use crate::model::words_from;

verus! {

// ---------------------------------------------------------------------------
// Gap distribution
// ---------------------------------------------------------------------------

/// On a line of two or more words the slack is spread almost evenly: every
/// gap holds the even share (at least one space), any two gaps differ by at
/// most one space, and the wider gaps are exactly the leftmost
/// `extra_gaps` ones.
pub proof fn lemma_gap_distribution(line: Seq<Seq<char>>, width: int)
    requires
        line.len() >= 2,
        min_width(line) <= width,
    ensures
        0 <= extra_gaps(line, width) < line.len() - 1,
        even_gap(line, width) >= 1,
        forall|i: int|
            0 <= i < line.len() - 1 ==> gap_width(line, width, i) == even_gap(line, width) + if i
                < extra_gaps(line, width) {
                1int
            } else {
                0int
            },
        forall|i: int, j: int|
            0 <= i <= j < line.len() - 1 ==> 0 <= #[trigger] gap_width(line, width, i)
                - #[trigger] gap_width(line, width, j) <= 1,
        forall|i: int|
            0 <= i < line.len() - 1 ==> (gap_width(line, width, i) == even_gap(line, width) + 1
                <==> i < extra_gaps(line, width)),
{
    let slack = width - word_sum(line);
    let gaps = line.len() - 1;
    lemma_mod_bound(slack, gaps);
    lemma_div_is_ordered(gaps, slack, gaps);
    lemma_div_by_self(gaps);
}

// ---------------------------------------------------------------------------
// Exact line width
// ---------------------------------------------------------------------------

/// The length of the tail of a justified line: the remaining words, the
/// even share for each remaining gap, and the extra spaces not yet placed.
proof fn lemma_justify_from_len(line: Seq<Seq<char>>, width: int, i: int)
    requires
        line.len() >= 2,
        min_width(line) <= width,
        0 <= i < line.len(),
    ensures
        justify_from(line, width, i).len() == word_sum(line.skip(i)) + (line.len() - 1 - i)
            * even_gap(line, width) + if extra_gaps(line, width) > i {
            extra_gaps(line, width) - i
        } else {
            0int
        },
    decreases line.len() - i,
{
    let k = line.len() as int;
    let even = even_gap(line, width);
    let extra = extra_gaps(line, width);
    let slack = width - word_sum(line);
    let gaps = k - 1;
    lemma_mod_bound(slack, gaps);
    lemma_div_is_ordered(gaps, slack, gaps);
    lemma_div_by_self(gaps);
    assert(line.skip(i).drop_first() =~= line.skip(i + 1));
    assert(line.skip(i)[0] == line[i]);
    assert(word_sum(line.skip(i)) == line[i].len() + word_sum(line.skip(i + 1)));
    if i == k - 1 {
        assert(line.skip(i + 1) =~= Seq::<Seq<char>>::empty());
        assert(word_sum(line.skip(i + 1)) == 0);
        assert(justify_from(line, width, i) == line[i]);
        assert(0 * even == 0) by (nonlinear_arith);
        assert((k - 1 - i) * even == 0 * even);
    } else {
        lemma_justify_from_len(line, width, i + 1);
        assert((k - 1 - i) * even == (k - 2 - i) * even + even) by (nonlinear_arith);
        let gsz = gap_width(line, width, i);
        assert(spaces(gsz).len() == gsz);
        assert(justify_from(line, width, i) == line[i] + spaces(gsz) + justify_from(
            line,
            width,
            i + 1,
        ));
    }
}

/// A well-formed line justifies to exactly `width` characters.
pub proof fn lemma_justified_line_len(line: Seq<Seq<char>>, width: int)
    requires
        line.len() >= 1,
        min_width(line) <= width,
        all_words_fit(line, width),
    ensures
        justify_line(line, width).len() == width,
{
    if line.len() == 1 {
        assert(line.drop_first() =~= Seq::<Seq<char>>::empty());
        assert(word_sum(line) == line[0].len() + word_sum(line.drop_first()));
        assert(line[0].len() <= width);
    } else {
        lemma_justify_from_len(line, width, 0);
        assert(line.skip(0) =~= line);
        let slack = width - word_sum(line);
        let gaps = line.len() - 1;
        lemma_fundamental_div_mod(slack, gaps);
        lemma_mod_bound(slack, gaps);
    }
}

/// Every line of a successful output is exactly `width` characters long,
/// the last line included: the packing of the input's words yields only
/// well-formed lines, and each justifies to the exact width.
pub proof fn lemma_output_lines_exact(s: Seq<char>, width: int)
    requires
        all_words_fit(words(s), width),
    ensures
        forall|j: int|
            0 <= j < pack(words(s), width).len() ==> (#[trigger] justify_line(
                pack(words(s), width)[j],
                width,
            )).len() == width,
{
    lemma_words_from_wf(s, Seq::empty());
    lemma_pack_from_wf(words(s), Seq::empty(), width);
    assert(pack(words(s), width) == pack_from(words(s), Seq::empty(), width));
    assert forall|j: int| 0 <= j < pack(words(s), width).len() implies (#[trigger] justify_line(
        pack(words(s), width)[j],
        width,
    )).len() == width by {
        assert(wf_line(pack_from(words(s), Seq::empty(), width)[j], width));
        lemma_justified_line_len(pack(words(s), width)[j], width);
    }
}

// ---------------------------------------------------------------------------
// Word preservation
// ---------------------------------------------------------------------------

/// Packing loses, invents and reorders nothing: the emitted lines,
/// concatenated, are the open line followed by the remaining words.
proof fn lemma_pack_from_flatten(ws: Seq<Seq<char>>, cur: Seq<Seq<char>>, width: int)
    ensures
        pack_from(ws, cur, width).flatten() == cur + ws,
    decreases ws.len(),
{
    if ws.len() == 0 {
        if cur.len() == 0 {
            assert(pack_from(ws, cur, width).flatten() =~= cur + ws);
        } else {
            let one = pack_from(ws, cur, width);
            assert(one == seq![cur]);
            assert(one.drop_first() =~= Seq::<Seq<Seq<char>>>::empty());
            assert(one.flatten() == cur + one.drop_first().flatten());
            assert(one.flatten() =~= cur + ws);
        }
    } else if cur.len() == 0 {
        lemma_pack_from_flatten(ws.drop_first(), seq![ws[0]], width);
        assert(pack_from(ws, cur, width) == pack_from(ws.drop_first(), seq![ws[0]], width));
        assert(seq![ws[0]] + ws.drop_first() =~= cur + ws);
    } else if min_width(cur) + 1 + ws[0].len() <= width {
        lemma_pack_from_flatten(ws.drop_first(), cur.push(ws[0]), width);
        assert(pack_from(ws, cur, width) == pack_from(ws.drop_first(), cur.push(ws[0]), width));
        assert(cur.push(ws[0]) + ws.drop_first() =~= cur + ws);
    } else {
        lemma_pack_from_flatten(ws.drop_first(), seq![ws[0]], width);
        let rest = pack_from(ws.drop_first(), seq![ws[0]], width);
        assert(pack_from(ws, cur, width) == seq![cur] + rest);
        assert((seq![cur] + rest)[0] == cur);
        assert((seq![cur] + rest).drop_first() =~= rest);
        assert((seq![cur] + rest).flatten() == cur + rest.flatten());
        assert(cur + (seq![ws[0]] + ws.drop_first()) =~= cur + ws);
    }
}

/// The words of the input appear in the output in the same order,
/// unmodified: the packed lines, concatenated, are exactly the words of
/// the input.
pub proof fn lemma_words_preserved(s: Seq<char>, width: int)
    ensures
        pack(words(s), width).flatten() == words(s),
{
    lemma_pack_from_flatten(words(s), Seq::empty(), width);
    assert(pack(words(s), width) == pack_from(words(s), Seq::empty(), width));
    assert(Seq::<Seq<char>>::empty() + words(s) =~= words(s));
}

// ---------------------------------------------------------------------------
// Re-tokenizing the output
// ---------------------------------------------------------------------------

/// Reading a space-free run moves it into the open word.
proof fn lemma_words_from_word(w: Seq<char>, t: Seq<char>, cur: Seq<char>)
    requires
        space_free(w),
    ensures
        words_from(w + t, cur) == words_from(t, cur + w),
    decreases w.len(),
{
    if w.len() == 0 {
        assert(w + t =~= t);
        assert(cur + w =~= cur);
    } else {
        assert((w + t)[0] == w[0]);
        assert(w[0] != ' ');
        assert((w + t).drop_first() =~= w.drop_first() + t);
        assert(space_free(w.drop_first()));
        lemma_words_from_word(w.drop_first(), t, cur.push(w[0]));
        assert(words_from(w + t, cur) == words_from(w.drop_first() + t, cur.push(w[0])));
        assert(cur.push(w[0]) + w.drop_first() =~= cur + w);
    }
}

/// Reading one or more spaces closes the open word (if any) and discards
/// the spaces.
proof fn lemma_words_from_spaces(n: int, t: Seq<char>, cur: Seq<char>)
    requires
        n >= 1,
    ensures
        words_from(spaces(n) + t, cur) == (if cur.len() == 0 {
            Seq::<Seq<char>>::empty()
        } else {
            seq![cur]
        }) + words_from(t, Seq::empty()),
    decreases n,
{
    assert((spaces(n) + t)[0] == ' ');
    assert((spaces(n) + t).drop_first() =~= spaces(n - 1) + t);
    if n == 1 {
        assert(spaces(0) + t =~= t);
        if cur.len() == 0 {
            assert(words_from(spaces(n) + t, cur) == words_from(t, cur));
            assert(cur =~= Seq::<char>::empty());
            assert(Seq::<Seq<char>>::empty() + words_from(t, Seq::empty()) =~= words_from(
                t,
                Seq::empty(),
            ));
        } else {
            assert(words_from(spaces(n) + t, cur) == seq![cur] + words_from(t, Seq::empty()));
        }
    } else {
        if cur.len() == 0 {
            lemma_words_from_spaces(n - 1, t, cur);
            assert(words_from(spaces(n) + t, cur) == words_from(spaces(n - 1) + t, cur));
            assert(Seq::<Seq<char>>::empty() + words_from(t, Seq::empty()) =~= words_from(
                t,
                Seq::empty(),
            ));
        } else {
            lemma_words_from_spaces(n - 1, t, Seq::empty());
            assert(words_from(spaces(n) + t, cur) == seq![cur] + words_from(
                spaces(n - 1) + t,
                Seq::empty(),
            ));
            assert(Seq::<Seq<char>>::empty() + words_from(t, Seq::empty()) =~= words_from(
                t,
                Seq::empty(),
            ));
        }
    }
}

/// Re-tokenizing the tail of a justified line yields the remaining words.
proof fn lemma_words_of_justify_from(line: Seq<Seq<char>>, width: int, i: int)
    requires
        line.len() >= 2,
        min_width(line) <= width,
        forall|m: int|
            0 <= m < line.len() ==> (#[trigger] line[m]).len() >= 1 && space_free(line[m]),
        0 <= i < line.len(),
    ensures
        words_from(justify_from(line, width, i), Seq::empty()) == line.skip(i),
    decreases line.len() - i,
{
    let k = line.len() as int;
    if i == k - 1 {
        assert(justify_from(line, width, i) == line[i]);
        lemma_words_from_word(line[i], Seq::empty(), Seq::empty());
        assert(line[i] + Seq::<char>::empty() =~= line[i]);
        assert(Seq::<char>::empty() + line[i] =~= line[i]);
        assert(words_from(Seq::empty(), line[i]) == seq![line[i]]);
        assert(line.skip(i) =~= seq![line[i]]);
    } else {
        let g = gap_width(line, width, i);
        assert(g >= 1) by {
            lemma_gap_distribution(line, width);
        }
        let rest = justify_from(line, width, i + 1);
        assert(justify_from(line, width, i) == line[i] + spaces(g) + rest);
        assert((line[i] + spaces(g)) + rest =~= line[i] + (spaces(g) + rest));
        lemma_words_from_word(line[i], spaces(g) + rest, Seq::empty());
        assert(Seq::<char>::empty() + line[i] =~= line[i]);
        lemma_words_from_spaces(g, rest, line[i]);
        lemma_words_of_justify_from(line, width, i + 1);
        assert(seq![line[i]] + line.skip(i + 1) =~= line.skip(i));
    }
}

/// Spacing is recomputed from word lengths, never preserved literally:
/// re-tokenizing a justified line (which collapses its stretched gaps and
/// trailing padding) yields exactly the line's words again.
pub proof fn lemma_retokenize_line(line: Seq<Seq<char>>, width: int)
    requires
        wf_line(line, width),
    ensures
        words(justify_line(line, width)) == line,
{
    if line.len() == 1 {
        let w = line[0];
        let pad = width - w.len();
        assert(w.len() < width);
        assert(justify_line(line, width) == w + spaces(pad));
        lemma_words_from_word(w, spaces(pad), Seq::empty());
        assert(Seq::<char>::empty() + w =~= w);
        lemma_words_from_spaces(pad, Seq::empty(), w);
        assert(spaces(pad) + Seq::<char>::empty() =~= spaces(pad));
        assert(words_from(Seq::empty(), Seq::<char>::empty()) == Seq::<Seq<char>>::empty());
        assert(seq![w] + Seq::<Seq<char>>::empty() =~= seq![w]);
        assert(line =~= seq![w]);
    } else {
        lemma_words_of_justify_from(line, width, 0);
        assert(line.skip(0) =~= line);
    }
}

/// Transforming the output again reproduces the word structure: the lines
/// of a successful output, each re-tokenized and the results concatenated,
/// are exactly the words of the input.
pub proof fn lemma_output_retokenizes(s: Seq<char>, width: int)
    requires
        all_words_fit(words(s), width),
    ensures
        pack(words(s), width).map_values(
            |l: Seq<Seq<char>>| words(justify_line(l, width)),
        ).flatten() == words(s),
{
    lemma_words_from_wf(s, Seq::empty());
    lemma_pack_from_wf(words(s), Seq::empty(), width);
    lemma_words_preserved(s, width);
    let p = pack(words(s), width);
    assert(p == pack_from(words(s), Seq::empty(), width));
    let m = p.map_values(|l: Seq<Seq<char>>| words(justify_line(l, width)));
    assert forall|j: int| 0 <= j < p.len() implies m[j] == p[j] by {
        assert(wf_line(pack_from(words(s), Seq::empty(), width)[j], width));
        lemma_retokenize_line(p[j], width);
    }
    assert(m =~= p);
}

/// The words of a concatenation measure as the two parts together.
proof fn lemma_word_sum_concat(a: Seq<Seq<char>>, b: Seq<Seq<char>>)
    ensures
        word_sum(a + b) == word_sum(a) + word_sum(b),
    decreases a.len(),
{
    if a.len() == 0 {
        assert(a + b =~= b);
    } else {
        assert((a + b)[0] == a[0]);
        assert((a + b).drop_first() =~= a.drop_first() + b);
        lemma_word_sum_concat(a.drop_first(), b);
    }
}

/// Non-empty words make the sum at least the count.
proof fn lemma_word_sum_lower(ws: Seq<Seq<char>>)
    requires
        forall|m: int| 0 <= m < ws.len() ==> (#[trigger] ws[m]).len() >= 1,
    ensures
        word_sum(ws) >= ws.len(),
    decreases ws.len(),
{
    if ws.len() > 0 {
        lemma_word_sum_lower(ws.drop_first());
    }
}

/// Words that already fit one line stay one line: the greedy packing
/// extends the open line with every remaining word whenever the whole,
/// single-spaced, fits the width.
proof fn lemma_pack_from_single(ws: Seq<Seq<char>>, cur: Seq<Seq<char>>, width: int)
    requires
        cur.len() >= 1,
        min_width(cur + ws) <= width,
        forall|m: int| 0 <= m < ws.len() ==> (#[trigger] ws[m]).len() >= 1,
    ensures
        pack_from(ws, cur, width) == seq![cur + ws],
    decreases ws.len(),
{
    if ws.len() == 0 {
        assert(cur + ws =~= cur);
    } else {
        assert(min_width(cur) + 1 + ws[0].len() <= width) by {
            lemma_word_sum_concat(cur, ws);
            assert(word_sum(ws) == ws[0].len() + word_sum(ws.drop_first()));
            assert(ws.drop_first().len() == ws.len() - 1);
            assert(forall|m: int|
                0 <= m < ws.drop_first().len() ==> (#[trigger] ws.drop_first()[m]).len() >= 1);
            lemma_word_sum_lower(ws.drop_first());
        }
        assert(cur.push(ws[0]) + ws.drop_first() =~= cur + ws);
        lemma_pack_from_single(ws.drop_first(), cur.push(ws[0]), width);
        assert(pack_from(ws, cur, width) == pack_from(ws.drop_first(), cur.push(ws[0]), width));
    }
}

/// Re-running the transformation on one line of its own output leaves the
/// line unchanged: tokenizing collapses the stretched spacing back to the
/// words, packing keeps those words on one line, and justification
/// recomputes exactly the same spacing.
pub proof fn lemma_line_roundtrip(line: Seq<Seq<char>>, width: int)
    requires
        wf_line(line, width),
    ensures
        transform_spec(justify_line(line, width), width) == justify_line(line, width),
{
    lemma_retokenize_line(line, width);
    let packed = pack(line, width);
    assert(packed == seq![line]) by {
        assert(packed == pack_from(line.drop_first(), seq![line[0]], width));
        assert(seq![line[0]] + line.drop_first() =~= line);
        lemma_pack_from_single(line.drop_first(), seq![line[0]], width);
    }
    assert(packed.len() == 1 && packed[0] == line);
}

/// Every line of a successful output is a fixed point of the
/// transformation at the same width.
pub proof fn lemma_output_lines_fixed_point(s: Seq<char>, width: int)
    requires
        all_words_fit(words(s), width),
    ensures
        forall|j: int|
            0 <= j < pack(words(s), width).len() ==> transform_spec(
                justify_line(#[trigger] pack(words(s), width)[j], width),
                width,
            ) == justify_line(pack(words(s), width)[j], width),
{
    lemma_words_from_wf(s, Seq::empty());
    lemma_pack_from_wf(words(s), Seq::empty(), width);
    assert(pack(words(s), width) == pack_from(words(s), Seq::empty(), width));
    assert forall|j: int| 0 <= j < pack(words(s), width).len() implies transform_spec(
        justify_line(#[trigger] pack(words(s), width)[j], width),
        width,
    ) == justify_line(pack(words(s), width)[j], width) by {
        assert(wf_line(pack_from(words(s), Seq::empty(), width)[j], width));
        lemma_line_roundtrip(pack(words(s), width)[j], width);
    }
}

// ---------------------------------------------------------------------------
// One-word lines
// ---------------------------------------------------------------------------

/// A one-word line is flush left: the word's characters come first,
/// unchanged, and all padding is trailing spaces.
pub proof fn lemma_single_word_flush_left(line: Seq<Seq<char>>, width: int)
    requires
        line.len() == 1,
        line[0].len() <= width,
    ensures
        justify_line(line, width).len() == width,
        forall|i: int| 0 <= i < line[0].len() ==> justify_line(line, width)[i] == line[0][i],
        forall|i: int| line[0].len() <= i < width ==> justify_line(line, width)[i] == ' ',
{
    assert(justify_line(line, width) == line[0] + spaces(width - line[0].len()));
}

} // verus!
