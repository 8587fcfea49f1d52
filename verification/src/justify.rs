//! The executable justifier: tokenize the input, pack the words greedily,
//! stretch every line to the exact width, and join the lines, all verified
//! against the model in `crate::model`.

use vstd::prelude::*;
use vstd::string::StrSliceExecFns;

use crate::model::all_words_fit;
use crate::model::even_gap;
use crate::model::extra_gaps;
use crate::model::gap_width;
use crate::model::join_lines;
use crate::model::justify_from;
use crate::model::justify_line;
use crate::model::lemma_pack_from_wf;
use crate::model::lemma_word_sum_nonneg;
use crate::model::lemma_word_sum_push;
use crate::model::lemma_words_from_wf;
use crate::model::line_views;
use crate::model::min_width;
use crate::model::pack;
use crate::model::pack_from;
use crate::model::spaces;
use crate::model::transform_spec;
use crate::model::wf_line;
use crate::model::word_sum;
use crate::model::word_views;
use crate::model::words;
use crate::model::words_from;

verus! {

/// Why `transform` refused its input.
#[derive(Clone, Copy, Debug, PartialEq, Eq, Structural)]
pub enum Error {
    /// The requested line width cannot be represented as the platform's
    /// size type.
    InvalidWidth,
    /// Some word of the input is at least as long as the requested line
    /// width, so it cannot fit on a line with room for any padding.
    WordTooLong,
}

/// The characters of `s`, in order, as a vector.
fn chars_of(s: &str) -> (v: Vec<char>)
    ensures
        v@ == s@,
{
    let n = s.unicode_len();
    let mut v: Vec<char> = Vec::new();
    let mut i: usize = 0;
    while i < n
        invariant
            i <= n,
            n == s@.len(),
            v@ == s@.take(i as int),
        decreases n - i,
    {
        let c = s.get_char(i);
        v.push(c);
        proof {
            assert(s@.take(i as int).push(s@[i as int]) =~= s@.take(i as int + 1));
        }
        i += 1;
    }
    proof {
        assert(s@.take(n as int) =~= s@);
    }
    v
}

/// The words of `v`: each maximal run of non-space characters, in order,
/// copied out as its own vector.
fn tokenize(v: &Vec<char>) -> (ws: Vec<Vec<char>>)
    ensures
        word_views(ws@) == words(v@),
{
    let mut ws: Vec<Vec<char>> = Vec::new();
    let mut cur: Vec<char> = Vec::new();
    let mut i: usize = 0;
    proof {
        assert(v@.skip(0) =~= v@);
        assert(cur@ =~= Seq::<char>::empty());
        assert(word_views(ws@) + words_from(v@, cur@) =~= words(v@));
    }
    while i < v.len()
        invariant
            i <= v.len(),
            words(v@) == word_views(ws@) + words_from(v@.skip(i as int), cur@),
        decreases v.len() - i,
    {
        let ghost tail = v@.skip(i as int);
        proof {
            assert(tail.len() == v@.len() - i);
            assert(tail[0] == v@[i as int]);
            assert(tail.drop_first() =~= v@.skip(i as int + 1));
        }
        if v[i] == ' ' {
            if cur.len() > 0 {
                proof {
                    assert(words_from(tail, cur@) == seq![cur@] + words_from(
                        tail.drop_first(),
                        Seq::empty(),
                    ));
                }
                let ghost old_ws = ws@;
                ws.push(cur);
                cur = Vec::new();
                proof {
                    assert(word_views(ws@) =~= word_views(old_ws) + seq![ws@[old_ws.len() as int]@]);
                }
            } else {
                proof {
                    assert(words_from(tail, cur@) == words_from(tail.drop_first(), cur@));
                }
            }
        } else {
            proof {
                assert(words_from(tail, cur@) == words_from(tail.drop_first(), cur@.push(tail[0])));
            }
            cur.push(v[i]);
        }
        i += 1;
    }
    proof {
        assert(v@.skip(v@.len() as int) =~= Seq::<char>::empty());
    }
    if cur.len() > 0 {
        let ghost old_ws = ws@;
        ws.push(cur);
        proof {
            assert(word_views(ws@) =~= word_views(old_ws) + seq![ws@[old_ws.len() as int]@]);
        }
    }
    proof {
        assert(word_views(ws@) =~= words(v@));
    }
    ws
}

/// Greedy packing: each word joins the open line while that line, joined by
/// single spaces, still fits in `width`; otherwise the open line is emitted
/// and the word opens a new line.
fn pack_words(ws: Vec<Vec<char>>, width: usize) -> (lines: Vec<Vec<Vec<char>>>)
    requires
        all_words_fit(word_views(ws@), width as int),
    ensures
        line_views(lines@) == pack(word_views(ws@), width as int),
{
    let ghost all = word_views(ws@);
    let mut rest = ws;
    let mut lines: Vec<Vec<Vec<char>>> = Vec::new();
    let mut cur: Vec<Vec<char>> = Vec::new();
    let mut cur_min: usize = 0;
    proof {
        assert(line_views(lines@) =~= Seq::<Seq<Seq<char>>>::empty());
        assert(word_views(cur@) =~= Seq::<Seq<char>>::empty());
        assert(line_views(lines@) + pack_from(all, word_views(cur@), width as int) =~= pack(
            all,
            width as int,
        ));
    }
    while rest.len() > 0
        invariant
            all_words_fit(word_views(rest@), width as int),
            cur@.len() == 0 ==> cur_min == 0,
            cur@.len() > 0 ==> cur_min == min_width(word_views(cur@)),
            cur_min <= width,
            pack(all, width as int) == line_views(lines@) + pack_from(
                word_views(rest@),
                word_views(cur@),
                width as int,
            ),
        decreases rest.len(),
    {
        let ghost rem = word_views(rest@);
        let w = rest.remove(0);
        proof {
            assert(word_views(rest@) =~= rem.drop_first());
            assert(rem[0] == w@);
            assert(w@.len() < width);
        }
        if cur.len() == 0 {
            proof {
                assert(pack_from(rem, word_views(cur@), width as int) == pack_from(
                    rem.drop_first(),
                    seq![rem[0]],
                    width as int,
                ));
            }
            cur.push(w);
            cur_min = cur[0].len();
            proof {
                assert(word_views(cur@) =~= seq![w@]);
                assert(seq![w@].drop_first() =~= Seq::<Seq<char>>::empty());
                assert(word_sum(seq![w@]) == w@.len() + word_sum(seq![w@].drop_first()));
                assert(min_width(seq![w@]) == w@.len());
            }
        } else {
            let ghost cvs = word_views(cur@);
            if w.len() + 1 <= width - cur_min {
                proof {
                    assert(min_width(cvs) + 1 + rem[0].len() <= width);
                    assert(pack_from(rem, cvs, width as int) == pack_from(
                        rem.drop_first(),
                        cvs.push(rem[0]),
                        width as int,
                    ));
                    lemma_word_sum_push(cvs, w@);
                }
                let w_len = w.len();
                cur.push(w);
                cur_min = cur_min + w_len + 1;
                proof {
                    assert(word_views(cur@) =~= cvs.push(w@));
                }
            } else {
                proof {
                    assert(!(min_width(cvs) + 1 + rem[0].len() <= width));
                    assert(pack_from(rem, cvs, width as int) == seq![cvs] + pack_from(
                        rem.drop_first(),
                        seq![rem[0]],
                        width as int,
                    ));
                }
                let ghost old_lines = line_views(lines@);
                lines.push(cur);
                proof {
                    assert(line_views(lines@) =~= old_lines + seq![cvs]);
                }
                cur = Vec::new();
                cur.push(w);
                cur_min = cur[0].len();
                proof {
                    assert(word_views(cur@) =~= seq![w@]);
                    assert(seq![w@].drop_first() =~= Seq::<Seq<char>>::empty());
                    assert(word_sum(seq![w@]) == w@.len() + word_sum(seq![w@].drop_first()));
                    assert(min_width(seq![w@]) == w@.len());
                }
            }
        }
    }
    proof {
        assert(word_views(rest@) =~= Seq::<Seq<char>>::empty());
    }
    if cur.len() > 0 {
        let ghost old_lines = line_views(lines@);
        let ghost cvs = word_views(cur@);
        lines.push(cur);
        proof {
            assert(line_views(lines@) =~= old_lines + seq![cvs]);
        }
    }
    proof {
        assert(line_views(lines@) =~= pack(all, width as int));
    }
    lines
}

/// One justified line of exactly `width` characters: a single word is
/// padded with trailing spaces; between two or more words every gap gets
/// the even share of the slack, and the leftmost gaps one extra space.
fn justify_one(line: &Vec<Vec<char>>, width: usize) -> (out: Vec<char>)
    requires
        line@.len() >= 1,
        min_width(word_views(line@)) <= width as int,
    ensures
        out@ == justify_line(word_views(line@), width as int),
{
    let ghost lv = word_views(line@);
    let k = line.len();
    let mut out: Vec<char> = Vec::new();
    if k == 1 {
        let word = &line[0];
        proof {
            assert(lv.drop_first() =~= Seq::<Seq<char>>::empty());
            assert(word_sum(lv) == lv[0].len() + word_sum(lv.drop_first()));
        }
        let mut j: usize = 0;
        while j < word.len()
            invariant
                j <= word@.len(),
                out@ == word@.take(j as int),
                word@ == lv[0],
            decreases word@.len() - j,
        {
            out.push(word[j]);
            proof {
                assert(word@.take(j as int).push(word@[j as int]) =~= word@.take(j as int + 1));
            }
            j += 1;
        }
        proof {
            assert(word@.take(word@.len() as int) =~= word@);
        }
        let pad = width - word.len();
        let mut p: usize = 0;
        while p < pad
            invariant
                p <= pad,
                out@ == lv[0] + spaces(p as int),
            decreases pad - p,
        {
            out.push(' ');
            proof {
                assert((lv[0] + spaces(p as int)).push(' ') =~= lv[0] + spaces(p as int + 1));
            }
            p += 1;
        }
        proof {
            assert(out@ =~= justify_line(lv, width as int));
        }
    } else {
        // Total width of the words alone.
        let mut s_sum: usize = 0;
        let mut i: usize = 0;
        proof {
            assert(lv.skip(0) =~= lv);
            lemma_word_sum_nonneg(lv);
        }
        while i < k
            invariant
                i <= k,
                k == line@.len(),
                k >= 2,
                lv == word_views(line@),
                min_width(lv) <= width as int,
                s_sum + word_sum(lv.skip(i as int)) == word_sum(lv),
                s_sum <= width,
            decreases k - i,
        {
            proof {
                assert(lv.skip(i as int).drop_first() =~= lv.skip(i as int + 1));
                assert(lv.skip(i as int)[0] == lv[i as int]);
                assert(word_sum(lv.skip(i as int)) == lv[i as int].len() + word_sum(
                    lv.skip(i as int + 1),
                ));
                lemma_word_sum_nonneg(lv.skip(i as int + 1));
            }
            s_sum = s_sum + line[i].len();
            i += 1;
        }
        proof {
            assert(lv.skip(k as int) =~= Seq::<Seq<char>>::empty());
            assert(s_sum == word_sum(lv));
        }
        let slack = width - s_sum;
        let gaps = k - 1;
        let even = slack / gaps;
        let extra = slack % gaps;
        proof {
            assert(even == even_gap(lv, width as int));
            assert(extra == extra_gaps(lv, width as int));
        }
        let mut i2: usize = 0;
        proof {
            assert(Seq::<char>::empty() + justify_from(lv, width as int, 0) =~= justify_from(
                lv,
                width as int,
                0,
            ));
        }
        while i2 < k
            invariant
                i2 <= k,
                k == line@.len(),
                k >= 2,
                lv == word_views(line@),
                even == even_gap(lv, width as int),
                extra == extra_gaps(lv, width as int),
                justify_from(lv, width as int, 0) == out@ + justify_from(
                    lv,
                    width as int,
                    i2 as int,
                ),
            decreases k - i2,
        {
            let ghost entry = out@;
            let word = &line[i2];
            let mut j: usize = 0;
            while j < word.len()
                invariant
                    j <= word@.len(),
                    out@ == entry + word@.take(j as int),
                    word@ == lv[i2 as int],
                    i2 < k,
                    k == line@.len(),
                    lv == word_views(line@),
                decreases word@.len() - j,
            {
                out.push(word[j]);
                proof {
                    assert((entry + word@.take(j as int)).push(word@[j as int]) =~= entry
                        + word@.take(j as int + 1));
                }
                j += 1;
            }
            proof {
                assert(word@.take(word@.len() as int) =~= word@);
            }
            if i2 + 1 < k {
                let ghost mid = out@;
                let mut p: usize = 0;
                while p < even
                    invariant
                        p <= even,
                        out@ == mid + spaces(p as int),
                    decreases even - p,
                {
                    out.push(' ');
                    proof {
                        assert((mid + spaces(p as int)).push(' ') =~= mid + spaces(p as int + 1));
                    }
                    p += 1;
                }
                if i2 < extra {
                    out.push(' ');
                    proof {
                        assert((mid + spaces(even as int)).push(' ') =~= mid + spaces(
                            even as int + 1,
                        ));
                    }
                }
                proof {
                    assert(out@ == mid + spaces(gap_width(lv, width as int, i2 as int)));
                    assert(justify_from(lv, width as int, i2 as int) == lv[i2 as int] + spaces(
                        gap_width(lv, width as int, i2 as int),
                    ) + justify_from(lv, width as int, i2 as int + 1));
                    assert(entry + justify_from(lv, width as int, i2 as int) =~= out@
                        + justify_from(lv, width as int, i2 as int + 1));
                }
            } else {
                proof {
                    assert(justify_from(lv, width as int, i2 as int) == lv[i2 as int]);
                    assert(justify_from(lv, width as int, i2 as int + 1) =~= Seq::<char>::empty());
                    assert(entry + justify_from(lv, width as int, i2 as int) =~= out@
                        + justify_from(lv, width as int, i2 as int + 1));
                }
            }
            i2 += 1;
        }
        proof {
            assert(justify_from(lv, width as int, k as int) =~= Seq::<char>::empty());
            assert(out@ + justify_from(lv, width as int, k as int) =~= out@);
            assert(out@ =~= justify_line(lv, width as int));
        }
    }
    out
}

/// The justified lines joined by single line breaks, none trailing.
fn render_lines(lines: &Vec<Vec<Vec<char>>>, width: usize) -> (out: Vec<char>)
    requires
        forall|j: int|
            0 <= j < lines@.len() ==> {
                let l = #[trigger] line_views(lines@)[j];
                l.len() >= 1 && min_width(l) <= width as int
            },
    ensures
        out@ == join_lines(line_views(lines@), width as int),
{
    let ghost lsv = line_views(lines@);
    let mut out: Vec<char> = Vec::new();
    let n = lines.len();
    let mut j: usize = 0;
    proof {
        assert(lsv.skip(0) =~= lsv);
        assert(Seq::<char>::empty() + join_lines(lsv, width as int) =~= join_lines(
            lsv,
            width as int,
        ));
    }
    while j < n
        invariant
            j <= n,
            n == lines@.len(),
            lsv == line_views(lines@),
            forall|m: int|
                0 <= m < lines@.len() ==> {
                    let l = #[trigger] line_views(lines@)[m];
                    l.len() >= 1 && min_width(l) <= width as int
                },
            join_lines(lsv, width as int) == out@ + join_lines(lsv.skip(j as int), width as int),
        decreases n - j,
    {
        let part = justify_one(&lines[j], width);
        let ghost entry = out@;
        let mut t: usize = 0;
        while t < part.len()
            invariant
                t <= part@.len(),
                out@ == entry + part@.take(t as int),
            decreases part@.len() - t,
        {
            out.push(part[t]);
            proof {
                assert((entry + part@.take(t as int)).push(part@[t as int]) =~= entry + part@.take(
                    t as int + 1,
                ));
            }
            t += 1;
        }
        proof {
            assert(part@.take(part@.len() as int) =~= part@);
        }
        let ghost tail = lsv.skip(j as int);
        proof {
            assert(tail[0] == lsv[j as int]);
            assert(tail.drop_first() =~= lsv.skip(j as int + 1));
            assert(part@ == justify_line(lsv[j as int], width as int));
        }
        if j + 1 < n {
            out.push('\n');
            proof {
                assert(tail.len() >= 2);
                assert(join_lines(tail, width as int) == justify_line(tail[0], width as int)
                    + seq!['\n'] + join_lines(tail.drop_first(), width as int));
                assert(entry + join_lines(tail, width as int) =~= out@ + join_lines(
                    lsv.skip(j as int + 1),
                    width as int,
                ));
            }
        } else {
            proof {
                assert(tail.len() == 1);
                assert(join_lines(tail, width as int) == justify_line(tail[0], width as int));
                assert(lsv.skip(j as int + 1) =~= Seq::<Seq<Seq<char>>>::empty());
                assert(join_lines(lsv.skip(j as int + 1), width as int) =~= Seq::<char>::empty());
                assert(entry + join_lines(tail, width as int) =~= out@ + join_lines(
                    lsv.skip(j as int + 1),
                    width as int,
                ));
            }
        }
        j += 1;
    }
    proof {
        assert(lsv.skip(n as int) =~= Seq::<Seq<Seq<char>>>::empty());
        assert(join_lines(lsv.skip(n as int), width as int) =~= Seq::<char>::empty());
        assert(out@ =~= join_lines(lsv, width as int));
    }
    out
}

/// Relies on std's `FromIterator` for `String`: collecting characters
/// builds the string of exactly those characters, in order.
#[verifier::external_body]
fn string_of(v: &Vec<char>) -> (s: String)
    ensures
        s@ == v@,
{
    v.iter().collect()
}

/// Justify `input` into a block of lines of exactly `line_width` characters
/// each (counted in Unicode scalar values), joined by single line breaks
/// with none trailing: the words of `input` are packed greedily in order,
/// and each line's slack is spread over its gaps, leftmost gaps first.
///
/// Fails with `Error::WordTooLong` exactly when some word of the input is
/// at least `line_width` long. `Error::InvalidWidth` is reserved for a
/// width that does not fit the platform's size type, which cannot happen
/// for a 32-bit width on the platforms this library models.
pub fn transform(input: &str, line_width: u32) -> (r: Result<String, Error>)
    ensures
        match r {
            Ok(out) => all_words_fit(words(input@), line_width as int) && out@ == transform_spec(
                input@,
                line_width as int,
            ),
            Err(e) => e == Error::WordTooLong && !all_words_fit(words(input@), line_width as int),
        },
{
    let width: usize = line_width as usize;
    let chars = chars_of(input);
    let ws = tokenize(&chars);
    let ghost wsv = word_views(ws@);
    let mut i: usize = 0;
    while i < ws.len()
        invariant
            i <= ws@.len(),
            wsv == word_views(ws@),
            wsv == words(input@),
            width == line_width as usize,
            forall|m: int| 0 <= m < i ==> (#[trigger] wsv[m]).len() < width,
        decreases ws@.len() - i,
    {
        if ws[i].len() >= width {
            proof {
                assert(wsv[i as int].len() >= line_width as int);
            }
            return Err(Error::WordTooLong);
        }
        i += 1;
    }
    proof {
        assert(all_words_fit(wsv, width as int));
        lemma_words_from_wf(input@, Seq::empty());
        lemma_pack_from_wf(wsv, Seq::empty(), width as int);
        assert(pack(wsv, width as int) == pack_from(wsv, Seq::empty(), width as int));
    }
    let lines = pack_words(ws, width);
    proof {
        assert(line_views(lines@) == pack(wsv, width as int));
        assert(forall|j: int|
            0 <= j < lines@.len() ==> {
                let l = #[trigger] line_views(lines@)[j];
                l.len() >= 1 && min_width(l) <= width as int
            }) by {
            assert(forall|j: int|
                0 <= j < pack_from(wsv, Seq::empty(), width as int).len() ==> wf_line(
                    #[trigger] pack_from(wsv, Seq::empty(), width as int)[j],
                    width as int,
                ));
        }
    }
    let out = render_lines(&lines, width);
    proof {
        assert(out@ == transform_spec(input@, line_width as int));
    }
    Ok(string_of(&out))
}

} // verus!
