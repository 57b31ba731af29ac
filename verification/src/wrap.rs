//! Word-aware wrapping of a text buffer into a `width x height` grid.
//!
//! The layout is a pure function of the text and the target size: logical
//! lines are processed in order, tokens are placed left to right on a pending
//! physical line, tokens wider than the grid are hard-split into `width`-sized
//! chunks, and once only one physical line remains the first token that does
//! not fit forces a visible truncation at `width` characters instead of
//! further wrapping.

use vstd::prelude::*;
use vstd::string::StrSliceExecFns;

use crate::lines::spec_split_lines;
use crate::lines::split_lines;
use crate::lines::str_views;
use crate::tokens::spec_tokenize;
use crate::tokens::lemma_tokenize_wf;
use crate::tokens::tok_ranges;
use crate::tokens::tokenize_ascii;
use crate::tokens::toks_wf;

verus! {

/// The views of the elements of a list of owned lines.
pub open spec fn views_of(v: Seq<String>) -> Seq<Seq<char>> {
    v.map_values(|x: String| x@)
}

pub proof fn lemma_views_of_push(v: Seq<String>, x: String)
    ensures
        views_of(v.push(x)) =~= views_of(v).push(x@),
{
}

/// Hard-splitting of the over-wide token `[pos, end)` into `width`-sized
/// pieces: every full piece becomes a physical line of its own, at most
/// `avail` of them; a short final remainder becomes the new pending span.
pub open spec fn chunks_of(line: Seq<char>, pos: int, end: int, w: int, avail: int) -> (Seq<
    Seq<char>,
>, Option<(int, int)>)
    decreases end - pos,
{
    if avail <= 0 || w <= 0 || pos >= end {
        (Seq::empty(), None)
    } else if pos + w <= end {
        let r = chunks_of(line, pos + w, end, w, avail - 1);
        (seq![line.subrange(pos, pos + w)] + r.0, r.1)
    } else {
        (Seq::empty(), Some((pos, end)))
    }
}

/// The physical lines contributed by the tokens of one logical line from
/// token `i` on, given the pending span `pend`, with `n` physical lines
/// already produced overall and at most `h` allowed in total.
pub open spec fn wrap_toks(
    line: Seq<char>,
    toks: Seq<(int, int)>,
    i: int,
    pend: Option<(int, int)>,
    n: int,
    w: int,
    h: int,
) -> Seq<Seq<char>>
    decreases toks.len() - i,
{
    if n >= h || i < 0 {
        Seq::empty()
    } else if i >= toks.len() {
        // end of the logical line: flush the pending span
        match pend {
            Some(p) => seq![line.subrange(p.0, p.1)],
            None => Seq::empty(),
        }
    } else {
        let t = toks[i];
        let tlen = t.1 - t.0;
        let plen = match pend {
            Some(p) => p.1 - p.0,
            None => 0,
        };
        let fits = plen + tlen <= w;
        if n == h - 1 && !fits {
            // last allowed physical line: truncate at w instead of wrapping
            let ls = match pend {
                Some(p) => p.0,
                None => t.0,
            };
            let cut = if t.1 - ls > w {
                ls + w
            } else {
                t.1
            };
            seq![line.subrange(ls, cut)]
        } else if tlen > w {
            // over-wide token: flush, then hard-split into chunks
            let flushed = match pend {
                Some(p) => seq![line.subrange(p.0, p.1)],
                None => Seq::<Seq<char>>::empty(),
            };
            let n1 = n + flushed.len();
            if n1 >= h {
                flushed
            } else {
                let c = chunks_of(line, t.0, t.1, w, h - n1);
                flushed + c.0 + wrap_toks(line, toks, i + 1, c.1, n1 + c.0.len(), w, h)
            }
        } else if fits {
            // token joins the pending physical line
            let ls = match pend {
                Some(p) => p.0,
                None => t.0,
            };
            wrap_toks(line, toks, i + 1, Some((ls, t.1)), n, w, h)
        } else {
            // token opens a new pending physical line
            let flushed = match pend {
                Some(p) => seq![line.subrange(p.0, p.1)],
                None => Seq::<Seq<char>>::empty(),
            };
            flushed + wrap_toks(line, toks, i + 1, Some((t.0, t.1)), n + flushed.len(), w, h)
        }
    }
}

/// The physical lines contributed by the logical lines from `j` on, with `n`
/// physical lines already produced and at most `h` allowed in total.
pub open spec fn wrap_lines(lls: Seq<Seq<char>>, j: int, n: int, w: int, h: int) -> Seq<Seq<char>>
    decreases lls.len() - j,
{
    if j < 0 || j >= lls.len() || n >= h {
        Seq::empty()
    } else {
        let a = wrap_toks(lls[j], spec_tokenize(lls[j]), 0, None, n, w, h);
        a + wrap_lines(lls, j + 1, n + a.len(), w, h)
    }
}

/// The layout of `text` in a `w x h` grid: the ordered list of physical
/// lines, at most `h` of them, each at most `w` characters wide.
pub open spec fn spec_wrap(text: Seq<char>, w: int, h: int) -> Seq<Seq<char>> {
    if w <= 0 || h <= 0 {
        Seq::empty()
    } else {
        wrap_lines(spec_split_lines(text), 0, 0, w, h)
    }
}

/// Concatenation of a list of physical lines.
pub open spec fn concat_lines(ls: Seq<Seq<char>>) -> Seq<char>
    decreases ls.len(),
{
    if ls.len() == 0 {
        Seq::empty()
    } else {
        ls[0] + concat_lines(ls.drop_first())
    }
}

pub proof fn lemma_concat_app(a: Seq<Seq<char>>, b: Seq<Seq<char>>)
    ensures
        concat_lines(a + b) =~= concat_lines(a) + concat_lines(b),
    decreases a.len(),
{
    if a.len() == 0 {
        assert(a + b =~= b);
    } else {
        lemma_concat_app(a.drop_first(), b);
        assert((a + b).drop_first() =~= a.drop_first() + b);
        assert(concat_lines(a + b) =~= (a + b)[0] + concat_lines((a + b).drop_first()));
    }
}

pub proof fn lemma_concat_single(x: Seq<char>)
    ensures
        concat_lines(seq![x]) =~= x,
{
    assert(concat_lines(seq![x].drop_first()) =~= Seq::<char>::empty());
}

/// Well-formedness of a pending span before token `i`: nonempty, in bounds,
/// no wider than `w`, and ending exactly where token `i` starts.
pub open spec fn pend_wf(
    line: Seq<char>,
    toks: Seq<(int, int)>,
    i: int,
    pend: Option<(int, int)>,
    w: int,
) -> bool {
    match pend {
        Some(p) => 0 <= p.0 < p.1 <= line.len() && p.1 - p.0 <= w && (i < toks.len() ==> p.1
            == toks[i].0),
        None => true,
    }
}

/// The anchor of the output of `wrap_toks`: the index in the logical line at
/// which its first produced character sits.
pub open spec fn wrap_anchor(
    line: Seq<char>,
    toks: Seq<(int, int)>,
    i: int,
    pend: Option<(int, int)>,
) -> int {
    match pend {
        Some(p) => p.0,
        None => if 0 <= i < toks.len() {
            toks[i].0
        } else {
            line.len() as int
        },
    }
}

/// The lines `r` concatenate exactly to the span `[from, c)` of the logical
/// line.
pub open spec fn covers_to(line: Seq<char>, from: int, r: Seq<Seq<char>>, c: int) -> bool {
    from <= c <= line.len() && concat_lines(r) =~= line.subrange(from, c)
}

/// Chunking bounds: at most `avail` chunks, each between 1 and `w` wide;
/// their concatenation covers the token from `pos` up to the remainder (or is
/// a prefix of it when the budget runs out), and a remainder is nonempty,
/// narrower than `w`, and ends at `end`.
pub proof fn lemma_chunks_props(line: Seq<char>, pos: int, end: int, w: int, avail: int)
    requires
        0 <= pos <= end <= line.len(),
        w >= 1,
    ensures
        ({
            let c = chunks_of(line, pos, end, w, avail);
            &&& c.0.len() <= (if avail >= 0 {
                avail
            } else {
                0
            })
            &&& forall|k: int| 0 <= k < c.0.len() ==> 1 <= (#[trigger] c.0[k]).len() <= w
            &&& match c.1 {
                Some(p) => {
                    &&& concat_lines(c.0) =~= line.subrange(pos, p.0)
                    &&& pos <= p.0 < p.1 == end
                    &&& p.1 - p.0 < w
                },
                None => exists|m: int| #[trigger] covers_to(line, pos, c.0, m),
            }
            &&& (c.0.len() < avail && c.1 is None ==> concat_lines(c.0) =~= line.subrange(
                pos,
                end,
            ))
        }),
    decreases end - pos,
{
    let c = chunks_of(line, pos, end, w, avail);
    if avail <= 0 || pos >= end {
        assert(concat_lines(c.0) =~= line.subrange(pos, pos));
        assert(covers_to(line, pos, c.0, pos));
    } else if pos + w <= end {
        lemma_chunks_props(line, pos + w, end, w, avail - 1);
        let r = chunks_of(line, pos + w, end, w, avail - 1);
        lemma_concat_app(seq![line.subrange(pos, pos + w)], r.0);
        lemma_concat_single(line.subrange(pos, pos + w));
        match r.1 {
            Some(p) => {
                assert(concat_lines(c.0) =~= line.subrange(pos, p.0));
            },
            None => {
                let m = choose|m: int| #[trigger] covers_to(line, pos + w, r.0, m);
                assert(concat_lines(c.0) =~= line.subrange(pos, m));
                assert(covers_to(line, pos, c.0, m));
                if c.0.len() < avail && r.1 is None {
                    assert(concat_lines(r.0) =~= line.subrange(pos + w, end));
                    assert(concat_lines(c.0) =~= line.subrange(pos, end));
                }
            },
        }
    } else {
        assert(concat_lines(c.0) =~= line.subrange(pos, pos));
        assert(covers_to(line, pos, c.0, pos));
    }
}

/// Correctness bounds for one logical line: the physical lines produced from
/// token `i` on stay within the height budget, are each between 1 and `w`
/// wide, and concatenate to a contiguous span of the logical line starting at
/// the anchor.
#[verifier::rlimit(100)]
pub proof fn lemma_wrap_toks_props(
    line: Seq<char>,
    toks: Seq<(int, int)>,
    i: int,
    pend: Option<(int, int)>,
    n: int,
    w: int,
    h: int,
)
    requires
        toks_wf(line, toks),
        0 <= i,
        0 <= n <= h,
        w >= 1,
        pend_wf(line, toks, i, pend, w),
    ensures
        ({
            let r = wrap_toks(line, toks, i, pend, n, w, h);
            &&& n + r.len() <= h
            &&& forall|k: int| 0 <= k < r.len() ==> 1 <= (#[trigger] r[k]).len() <= w
            &&& exists|c: int|
                #[trigger] covers_to(line, wrap_anchor(line, toks, i, pend), r, c)
        }),
    decreases toks.len() - i, 1int,
{
    let r = wrap_toks(line, toks, i, pend, n, w, h);
    let a = wrap_anchor(line, toks, i, pend);
    if n >= h {
        assert(concat_lines(r) =~= line.subrange(a, a));
        assert(covers_to(line, a, r, a));
    } else if i >= toks.len() {
        match pend {
            Some(p) => {
                lemma_concat_single(line.subrange(p.0, p.1));
                assert(concat_lines(r) =~= line.subrange(a, p.1));
                assert(covers_to(line, a, r, p.1));
            },
            None => {
                assert(concat_lines(r) =~= line.subrange(a, a));
                assert(covers_to(line, a, r, a));
            },
        }
    } else {
        let t = toks[i];
        let tlen = t.1 - t.0;
        let plen = match pend {
            Some(p) => p.1 - p.0,
            None => 0,
        };
        let fits = plen + tlen <= w;
        if n == h - 1 && !fits {
            let ls = match pend {
                Some(p) => p.0,
                None => t.0,
            };
            let cut = if t.1 - ls > w {
                ls + w
            } else {
                t.1
            };
            lemma_concat_single(line.subrange(ls, cut));
            assert(concat_lines(r) =~= line.subrange(a, cut));
            assert(covers_to(line, a, r, cut));
        } else if tlen > w {
            lemma_wrap_toks_props_wide(line, toks, i, pend, n, w, h);
        } else if fits {
            let ls = match pend {
                Some(p) => p.0,
                None => t.0,
            };
            assert(pend_wf(line, toks, i + 1, Some((ls, t.1)), w));
            lemma_wrap_toks_props(line, toks, i + 1, Some((ls, t.1)), n, w, h);
        } else {
            let flushed = match pend {
                Some(p) => seq![line.subrange(p.0, p.1)],
                None => Seq::<Seq<char>>::empty(),
            };
            assert(pend is Some);
            let p = pend->Some_0;
            lemma_concat_single(line.subrange(p.0, p.1));
            assert(pend_wf(line, toks, i + 1, Some((t.0, t.1)), w));
            lemma_wrap_toks_props(line, toks, i + 1, Some((t.0, t.1)), n + 1, w, h);
            let tail = wrap_toks(line, toks, i + 1, Some((t.0, t.1)), n + 1, w, h);
            lemma_concat_app(flushed, tail);
            let ce = choose|ce: int| #[trigger] covers_to(line, t.0, tail, ce);
            assert(concat_lines(r) =~= line.subrange(a, ce));
            assert(covers_to(line, a, r, ce));
        }
    }
}

/// The over-wide-token case of `lemma_wrap_toks_props`: flush, hard-split
/// into chunks, and continue with the remainder as the pending span.
#[verifier::rlimit(100)]
pub proof fn lemma_wrap_toks_props_wide(
    line: Seq<char>,
    toks: Seq<(int, int)>,
    i: int,
    pend: Option<(int, int)>,
    n: int,
    w: int,
    h: int,
)
    requires
        toks_wf(line, toks),
        0 <= i < toks.len(),
        0 <= n < h,
        n != h - 1,
        w >= 1,
        pend_wf(line, toks, i, pend, w),
        toks[i].1 - toks[i].0 > w,
    ensures
        ({
            let r = wrap_toks(line, toks, i, pend, n, w, h);
            &&& n + r.len() <= h
            &&& forall|k: int| 0 <= k < r.len() ==> 1 <= (#[trigger] r[k]).len() <= w
            &&& exists|c: int|
                #[trigger] covers_to(line, wrap_anchor(line, toks, i, pend), r, c)
        }),
    decreases toks.len() - i, 0int,
{
    let r = wrap_toks(line, toks, i, pend, n, w, h);
    let a = wrap_anchor(line, toks, i, pend);
    let t = toks[i];
    let flushed = match pend {
        Some(p) => seq![line.subrange(p.0, p.1)],
        None => Seq::<Seq<char>>::empty(),
    };
    let n1 = n + flushed.len();
    if pend is Some {
        lemma_concat_single(line.subrange(pend->Some_0.0, pend->Some_0.1));
    }
    if n1 >= h {
        match pend {
            Some(p) => {
                assert(concat_lines(r) =~= line.subrange(a, p.1));
                assert(covers_to(line, a, r, p.1));
            },
            None => {
                assert(concat_lines(r) =~= line.subrange(a, a));
                assert(covers_to(line, a, r, a));
            },
        }
    } else {
        let c = chunks_of(line, t.0, t.1, w, h - n1);
        lemma_chunks_props(line, t.0, t.1, w, h - n1);
        let tail = wrap_toks(line, toks, i + 1, c.1, n1 + c.0.len(), w, h);
        assert(pend_wf(line, toks, i + 1, c.1, w));
        lemma_wrap_toks_props(line, toks, i + 1, c.1, n1 + c.0.len(), w, h);
        lemma_concat_app(flushed + c.0, tail);
        lemma_concat_app(flushed, c.0);
        assert(r =~= (flushed + c.0) + tail);
        let a2 = wrap_anchor(line, toks, i + 1, c.1);
        let ce = choose|ce: int| #[trigger] covers_to(line, a2, tail, ce);
        match c.1 {
            Some(p) => {
                assert(concat_lines(flushed + c.0) =~= line.subrange(a, p.0));
                assert(concat_lines(r) =~= line.subrange(a, ce));
                assert(covers_to(line, a, r, ce));
            },
            None => {
                if c.0.len() < h - n1 {
                    // the whole token was split into full chunks
                    assert(concat_lines(flushed + c.0) =~= line.subrange(a, t.1));
                    if i + 1 < toks.len() {
                        assert(a2 == t.1);
                        assert(concat_lines(r) =~= line.subrange(a, ce));
                        assert(covers_to(line, a, r, ce));
                    } else {
                        assert(ce == line.len());
                        assert(concat_lines(tail) =~= Seq::<char>::empty());
                        assert(concat_lines(r) =~= line.subrange(a, t.1));
                        assert(covers_to(line, a, r, t.1));
                    }
                } else {
                    // the height budget ran out during chunking
                    assert(n1 + c.0.len() == h);
                    assert(tail =~= Seq::<Seq<char>>::empty());
                    let m = choose|m: int| #[trigger] covers_to(line, t.0, c.0, m);
                    assert(concat_lines(r) =~= line.subrange(a, m));
                    assert(covers_to(line, a, r, m));
                }
            },
        }
    }
}

/// Height and width bounds lifted over the logical lines.
pub proof fn lemma_wrap_lines_props(lls: Seq<Seq<char>>, j: int, n: int, w: int, h: int)
    requires
        0 <= j,
        0 <= n <= h,
        w >= 1,
    ensures
        ({
            let r = wrap_lines(lls, j, n, w, h);
            &&& n + r.len() <= h
            &&& forall|k: int| 0 <= k < r.len() ==> 1 <= (#[trigger] r[k]).len() <= w
        }),
    decreases lls.len() - j,
{
    if j < lls.len() && n < h {
        lemma_tokenize_wf(lls[j]);
        lemma_wrap_toks_props(lls[j], spec_tokenize(lls[j]), 0, None, n, w, h);
        let a = wrap_toks(lls[j], spec_tokenize(lls[j]), 0, None, n, w, h);
        lemma_wrap_lines_props(lls, j + 1, n + a.len(), w, h);
    }
}

/// The layout never has more than `h` physical lines.
pub proof fn lemma_wrap_height(text: Seq<char>, w: int, h: int)
    requires
        h >= 0,
    ensures
        spec_wrap(text, w, h).len() <= h,
{
    if w >= 1 && h >= 1 {
        lemma_wrap_lines_props(spec_split_lines(text), 0, 0, w, h);
    }
}

/// Every physical line of the layout is between 1 and `w` characters wide.
pub proof fn lemma_wrap_width(text: Seq<char>, w: int, h: int)
    ensures
        forall|k: int|
            0 <= k < spec_wrap(text, w, h).len() ==> 1 <= (#[trigger] spec_wrap(text, w, h)[k]).len()
                <= w,
{
    if w >= 1 && h >= 1 {
        lemma_wrap_lines_props(spec_split_lines(text), 0, 0, w, h);
    }
}

/// For a single logical line (no `'\n'` in the text), the concatenation of
/// the physical lines — whitespace included — reconstructs a prefix of the
/// text, cut short only by truncation or by the height budget.
pub proof fn lemma_wrap_concat_prefix(text: Seq<char>, w: int, h: int)
    requires
        forall|k: int| 0 <= k < text.len() ==> text[k] != '\n',
    ensures
        concat_lines(spec_wrap(text, w, h)).is_prefix_of(text),
{
    if w <= 0 || h <= 0 {
        assert(concat_lines(spec_wrap(text, w, h)) =~= Seq::<char>::empty());
        assert(concat_lines(spec_wrap(text, w, h)).is_prefix_of(text));
    } else {
        let lls = spec_split_lines(text);
        if text.len() == 0 {
            assert(lls =~= Seq::<Seq<char>>::empty());
            assert(concat_lines(spec_wrap(text, w, h)) =~= Seq::<char>::empty());
            assert(concat_lines(spec_wrap(text, w, h)).is_prefix_of(text));
        } else {
            crate::lines::lemma_first_nl_is(text, 0, text.len() as int);
            let l0 = crate::lines::segment(text, 0, text.len() as int);
            assert(l0 =~= text);
            assert(crate::lines::lines_from(text, text.len() as int + 1) =~= Seq::<
                Seq<char>,
            >::empty());
            assert(lls =~= seq![l0]);
            // the single logical line is itself a prefix of the text
            assert(l0.is_prefix_of(text));
            lemma_tokenize_wf(l0);
            lemma_wrap_toks_props(l0, spec_tokenize(l0), 0, None, 0, w, h);
            let a0 = wrap_toks(l0, spec_tokenize(l0), 0, None, 0, w, h);
            assert(wrap_lines(lls, 1, a0.len() as int, w, h) =~= Seq::<Seq<char>>::empty());
            assert(spec_wrap(text, w, h) =~= a0 + Seq::<Seq<char>>::empty());
            assert(spec_wrap(text, w, h) =~= a0);
            let anch = wrap_anchor(l0, spec_tokenize(l0), 0, None);
            assert(anch == 0 || anch == l0.len()) by {
                lemma_tokenize_wf(l0);
            }
            let c = choose|c: int| #[trigger] covers_to(l0, anch, a0, c);
            if anch == 0 {
                assert(concat_lines(a0) =~= l0.subrange(0, c));
                assert(concat_lines(a0).is_prefix_of(l0));
            } else {
                assert(concat_lines(a0) =~= l0.subrange(anch, c));
                assert(concat_lines(a0).len() == 0);
                assert(concat_lines(a0).is_prefix_of(l0));
            }
            assert(concat_lines(spec_wrap(text, w, h)).is_prefix_of(text));
        }
    }
}

/// The pending span as an option, from its executable representation.
pub open spec fn opt_span(has: bool, ls: int, le: int) -> Option<(int, int)> {
    if has {
        Some((ls, le))
    } else {
        None
    }
}

/// Appends the span `[a, b)` of `line` to `out` as an owned physical line.
fn push_sub(line: &str, out: &mut Vec<String>, a: usize, b: usize)
    requires
        line.is_ascii(),
        a <= b,
        b <= line@.len(),
    ensures
        final(out)@.len() == old(out)@.len() + 1,
        views_of(final(out)@) == views_of(old(out)@).push(line@.subrange(a as int, b as int)),
{
    let piece = line.substring_ascii(a, b).to_owned();
    let ghost before = out@;
    let ghost gp = piece;
    out.push(piece);
    proof {
        lemma_views_of_push(before, gp);
    }
}

/// Wraps the tokens of one logical line, appending the produced physical
/// lines to `out`, which already holds `old(out).len()` lines of the layout.
#[verifier::rlimit(100)]
fn wrap_one_line(line: &str, toks: &Vec<(usize, usize)>, out: &mut Vec<String>, width: usize, height: usize)
    requires
        line.is_ascii(),
        width >= 1,
        height >= 1,
        old(out)@.len() <= height,
        tok_ranges(toks@) == spec_tokenize(line@),
    ensures
        views_of(final(out)@) == views_of(old(out)@) + wrap_toks(
            line@,
            spec_tokenize(line@),
            0,
            None,
            old(out)@.len() as int,
            width as int,
            height as int,
        ),
        final(out)@.len() <= height,
{
    proof {
        lemma_tokenize_wf(line@);
    }
    let ghost ts = spec_tokenize(line@);
    let ghost w: int = width as int;
    let ghost hh: int = height as int;
    let ghost target = views_of(out@) + wrap_toks(line@, ts, 0, None, out@.len() as int, w, hh);
    let mut i: usize = 0;
    let mut ls: usize = 0;
    let mut le: usize = 0;
    let mut has: bool = false;
    while i < toks.len() && out.len() < height
        invariant
            i <= toks.len(),
            out@.len() <= height,
            pend_wf(line@, ts, i as int, opt_span(has, ls as int, le as int), w),
            target =~= views_of(out@) + wrap_toks(
                line@,
                ts,
                i as int,
                opt_span(has, ls as int, le as int),
                out@.len() as int,
                w,
                hh,
            ),
        decreases toks.len() - i,
    {
        let ghost i0: int = i as int;
        let ghost pend0 = opt_span(has, ls as int, le as int);
        let ghost n0: int = out@.len() as int;
        let t = toks[i];
        proof {
            assert(ts[i0] == (t.0 as int, t.1 as int));
        }
        let tlen = t.1 - t.0;
        let plen = if has {
            le - ls
        } else {
            0
        };
        let fits = tlen <= width && plen + tlen <= width;
        let last_line = out.len() == height - 1;
        if last_line && !fits {
            // final allowed physical line: truncate at width and stop
            let lsx = if has {
                ls
            } else {
                t.0
            };
            let cut = if t.1 - lsx > width {
                lsx + width
            } else {
                t.1
            };
            push_sub(line, out, lsx, cut);
            proof {
                assert(wrap_toks(line@, ts, i0, pend0, n0, w, hh) =~= seq![
                    line@.subrange(lsx as int, cut as int),
                ]);
                assert(views_of(out@) =~= target);
            }
            return;
        } else if tlen > width {
            // over-wide token: flush the pending line, then hard-split
            let ghost flushed = (match pend0 {
                Some(p) => seq![line@.subrange(p.0, p.1)],
                None => Seq::<Seq<char>>::empty(),
            });
            if has {
                push_sub(line, out, ls, le);
                has = false;
                proof {
                    assert(views_of(out@) =~= views_of(out@.subrange(0, out@.len() - 1)).push(
                        line@.subrange(ls as int, le as int),
                    ));
                }
            }
            let ghost n1: int = out@.len() as int;
            if out.len() < height {
                let ghost cinit = chunks_of(line@, t.0 as int, t.1 as int, w, hh - n1);
                let ghost ktail = wrap_toks(line@, ts, i0 + 1, cinit.1, n1 + cinit.0.len(), w, hh);
                proof {
                    assert(wrap_toks(line@, ts, i0, pend0, n0, w, hh) =~= flushed + cinit.0
                        + ktail);
                    assert(target =~= views_of(out@) + cinit.0 + ktail);
                }
                let mut pos = t.0;
                while t.1 - pos >= width && out.len() < height
                    invariant
                        t.0 <= pos <= t.1,
                        n1 <= out@.len() <= height,
                        has == false,
                        target =~= views_of(out@) + chunks_of(
                            line@,
                            pos as int,
                            t.1 as int,
                            w,
                            hh - out@.len(),
                        ).0 + ktail,
                        out@.len() < height ==> chunks_of(
                            line@,
                            pos as int,
                            t.1 as int,
                            w,
                            hh - out@.len(),
                        ).1 == cinit.1,
                        n1 + cinit.0.len() == out@.len() + chunks_of(
                            line@,
                            pos as int,
                            t.1 as int,
                            w,
                            hh - out@.len(),
                        ).0.len(),
                    decreases t.1 - pos,
                {
                    let ghost posg: int = pos as int;
                    let ghost avail: int = hh - out@.len();
                    proof {
                        assert(chunks_of(line@, posg, t.1 as int, w, avail).0 =~= seq![
                            line@.subrange(posg, posg + w),
                        ] + chunks_of(line@, posg + w, t.1 as int, w, avail - 1).0);
                    }
                    push_sub(line, out, pos, pos + width);
                    pos = pos + width;
                    proof {
                        assert(target =~= views_of(out@) + chunks_of(
                            line@,
                            pos as int,
                            t.1 as int,
                            w,
                            hh - out@.len(),
                        ).0 + ktail);
                    }
                }
                if out.len() < height {
                    if pos < t.1 {
                        // short remainder: it opens the new pending line
                        proof {
                            assert(chunks_of(line@, pos as int, t.1 as int, w, hh - out@.len())
                                =~= (Seq::<Seq<char>>::empty(), Some((pos as int, t.1 as int))));
                        }
                        ls = pos;
                        le = t.1;
                        has = true;
                    } else {
                        proof {
                            assert(chunks_of(line@, pos as int, t.1 as int, w, hh - out@.len())
                                =~= (Seq::<Seq<char>>::empty(), None::<(int, int)>));
                        }
                    }
                    proof {
                        assert(n1 + cinit.0.len() == out@.len());
                        assert(cinit.1 == opt_span(has, ls as int, le as int));
                        assert(target =~= views_of(out@) + wrap_toks(
                            line@,
                            ts,
                            i0 + 1,
                            opt_span(has, ls as int, le as int),
                            out@.len() as int,
                            w,
                            hh,
                        ));
                    }
                } else {
                    // the height budget ran out while chunking
                    proof {
                        assert(chunks_of(line@, pos as int, t.1 as int, w, 0).0 =~= Seq::<
                            Seq<char>,
                        >::empty());
                        assert(n1 + cinit.0.len() == out@.len());
                        assert(ktail =~= Seq::<Seq<char>>::empty());
                        assert(target =~= views_of(out@));
                        assert(target =~= views_of(out@) + wrap_toks(
                            line@,
                            ts,
                            i0 + 1,
                            opt_span(has, ls as int, le as int),
                            out@.len() as int,
                            w,
                            hh,
                        ));
                    }
                }
            } else {
                // flushing the pending line used up the last allowed line
                proof {
                    assert(wrap_toks(line@, ts, i0, pend0, n0, w, hh) =~= flushed);
                    assert(target =~= views_of(out@));
                    assert(target =~= views_of(out@) + wrap_toks(
                        line@,
                        ts,
                        i0 + 1,
                        opt_span(has, ls as int, le as int),
                        out@.len() as int,
                        w,
                        hh,
                    ));
                }
            }
            i += 1;
        } else if fits {
            // token joins the pending physical line
            if has == false {
                ls = t.0;
                has = true;
            }
            le = t.1;
            proof {
                assert(wrap_toks(line@, ts, i0, pend0, n0, w, hh) =~= wrap_toks(
                    line@,
                    ts,
                    i0 + 1,
                    opt_span(true, ls as int, le as int),
                    n0,
                    w,
                    hh,
                ));
            }
            i += 1;
        } else {
            // token does not fit: flush and open a new pending line with it
            assert(has);
            push_sub(line, out, ls, le);
            proof {
                assert(wrap_toks(line@, ts, i0, pend0, n0, w, hh) =~= seq![
                    line@.subrange(ls as int, le as int),
                ] + wrap_toks(line@, ts, i0 + 1, Some((t.0 as int, t.1 as int)), n0 + 1, w, hh));
                assert(target =~= views_of(out@) + wrap_toks(
                    line@,
                    ts,
                    i0 + 1,
                    Some((t.0 as int, t.1 as int)),
                    out@.len() as int,
                    w,
                    hh,
                ));
            }
            ls = t.0;
            le = t.1;
            has = true;
            i += 1;
        }
    }
    if out.len() < height {
        if has {
            push_sub(line, out, ls, le);
            proof {
                assert(views_of(out@) =~= target);
            }
        } else {
            proof {
                assert(views_of(out@) =~= target);
            }
        }
    } else {
        proof {
            assert(wrap_toks(
                line@,
                ts,
                i as int,
                opt_span(has, ls as int, le as int),
                out@.len() as int,
                w,
                hh,
            ) =~= Seq::<Seq<char>>::empty());
            assert(views_of(out@) =~= target);
        }
    }
}

/// Wraps `string` into physical lines for a `size.0 x size.1` grid: word
/// wrapping with hard-splitting of over-wide tokens and visible truncation on
/// the final allowed line.  The engine is defined over ASCII text only.
pub fn wrap_words(string: &str, size: (u16, u16)) -> (res: Vec<String>)
    requires
        string.is_ascii(),
    ensures
        views_of(res@) == spec_wrap(string@, size.0 as int, size.1 as int),
        res@.len() <= size.1,
        forall|k: int| 0 <= k < res@.len() ==> 1 <= (#[trigger] res@[k])@.len() <= size.0,
{
    let width = size.0 as usize;
    let height = size.1 as usize;
    let mut res: Vec<String> = Vec::new();
    if width == 0 || height == 0 {
        proof {
            assert(views_of(res@) =~= spec_wrap(string@, size.0 as int, size.1 as int));
        }
        return res;
    }
    let logical = split_lines(string);
    let ghost lls = spec_split_lines(string@);
    let ghost w: int = width as int;
    let ghost hh: int = height as int;
    let mut j: usize = 0;
    while j < logical.len() && res.len() < height
        invariant
            j <= logical@.len(),
            res@.len() <= height,
            spec_wrap(string@, w, hh) =~= views_of(res@) + wrap_lines(
                lls,
                j as int,
                res@.len() as int,
                w,
                hh,
            ),
        decreases logical@.len() - j,
    {
        let ghost n0: int = res@.len() as int;
        let line = logical[j];
        proof {
            assert(line@ == str_views(logical@)[j as int]);
            assert(line@ == lls[j as int]);
        }
        let toks = tokenize_ascii(line);
        wrap_one_line(line, &toks, &mut res, width, height);
        proof {
            let a = wrap_toks(lls[j as int], spec_tokenize(lls[j as int]), 0, None, n0, w, hh);
            assert(views_of(res@).len() == res@.len());
            assert(res@.len() as int == n0 + a.len());
            assert(wrap_lines(lls, j as int, n0, w, hh) =~= a + wrap_lines(
                lls,
                j + 1,
                n0 + a.len(),
                w,
                hh,
            ));
            assert(spec_wrap(string@, w, hh) =~= views_of(res@) + wrap_lines(
                lls,
                j + 1,
                res@.len() as int,
                w,
                hh,
            ));
        }
        j += 1;
    }
    proof {
        assert(wrap_lines(lls, j as int, res@.len() as int, w, hh) =~= Seq::<Seq<char>>::empty());
        assert(views_of(res@) =~= spec_wrap(string@, w, hh));
        lemma_wrap_height(string@, w, hh);
        lemma_wrap_width(string@, w, hh);
        assert(res@.len() == views_of(res@).len());
        assert forall|k: int| 0 <= k < res@.len() implies 1 <= (#[trigger] res@[k])@.len()
            <= size.0 by {
            assert(views_of(res@)[k] == res@[k]@);
            assert(1 <= spec_wrap(string@, w, hh)[k].len() <= w);
        }
    }
    res
}

} // verus!
