//! Splitting a text buffer into logical lines: segments delimited by `'\n'`,
//! with a carriage return at the end of a segment dropped and no empty
//! segment after a trailing newline.

use vstd::prelude::*;
use vstd::string::StrSliceExecFns;

verus! {

/// Index of the first `'\n'` at or after `i`, or the length of `s`.
pub open spec fn first_nl(s: Seq<char>, i: int) -> int
    decreases s.len() - i,
{
    if i < 0 || i >= s.len() {
        s.len() as int
    } else if s[i] == '\n' {
        i
    } else {
        first_nl(s, i + 1)
    }
}

pub proof fn lemma_first_nl(s: Seq<char>, i: int)
    requires
        0 <= i <= s.len(),
    ensures
        i <= first_nl(s, i) <= s.len(),
        forall|k: int| i <= k < first_nl(s, i) ==> s[k] != '\n',
        first_nl(s, i) < s.len() ==> s[first_nl(s, i)] == '\n',
    decreases s.len() - i,
{
    if i < s.len() && s[i] != '\n' {
        lemma_first_nl(s, i + 1);
    }
}

/// `first_nl` is characterized by its properties.
pub proof fn lemma_first_nl_is(s: Seq<char>, i: int, j: int)
    requires
        0 <= i <= j <= s.len(),
        forall|k: int| i <= k < j ==> s[k] != '\n',
        j < s.len() ==> s[j] == '\n',
    ensures
        first_nl(s, i) == j,
    decreases j - i,
{
    if i < j {
        lemma_first_nl_is(s, i + 1, j);
    }
}

/// Drops a single trailing carriage return, as the end of a `"\r\n"` line
/// terminator.
pub open spec fn strip_cr(l: Seq<char>) -> Seq<char> {
    if l.len() > 0 && l[l.len() - 1] == '\r' {
        l.drop_last()
    } else {
        l
    }
}

/// One logical line: the segment `[i, k)`, with a trailing `'\r'` dropped
/// only when the segment was ended by a `'\n'` at `k` (a `"\r\n"`
/// terminator); a carriage return at the very end of the text stays.
pub open spec fn segment(s: Seq<char>, i: int, k: int) -> Seq<char> {
    if k < s.len() {
        strip_cr(s.subrange(i, k))
    } else {
        s.subrange(i, k)
    }
}

/// The logical lines of `s` from index `i` on.
pub open spec fn lines_from(s: Seq<char>, i: int) -> Seq<Seq<char>>
    decreases s.len() + 1 - i,
{
    if i < 0 || i >= s.len() {
        Seq::empty()
    } else {
        proof {
            lemma_first_nl(s, i);
        }
        seq![segment(s, i, first_nl(s, i))] + lines_from(s, first_nl(s, i) + 1)
    }
}

/// The logical lines of a whole text buffer: segments delimited by `'\n'`,
/// each with the `'\r'` of a `"\r\n"` terminator dropped; a trailing newline
/// does not open an empty final line.
pub open spec fn spec_split_lines(s: Seq<char>) -> Seq<Seq<char>> {
    lines_from(s, 0)
}

/// Size bounds: a text of length `n` yields at most `n` logical lines, each
/// of length at most `n`, and each free of `'\n'`.
pub proof fn lemma_lines_from_bounds(s: Seq<char>, i: int)
    requires
        0 <= i <= s.len(),
    ensures
        lines_from(s, i).len() <= s.len() - i,
        forall|k: int|
            0 <= k < lines_from(s, i).len() ==> (#[trigger] lines_from(s, i)[k]).len() <= s.len()
                - i,
        forall|k: int, m: int|
            #![trigger lines_from(s, i)[k][m]]
            0 <= k < lines_from(s, i).len() && 0 <= m < lines_from(s, i)[k].len() ==> lines_from(
                s,
                i,
            )[k][m] != '\n',
    decreases s.len() - i,
{
    if i < s.len() {
        lemma_first_nl(s, i);
        if first_nl(s, i) + 1 <= s.len() {
            lemma_lines_from_bounds(s, first_nl(s, i) + 1);
        } else {
            assert(lines_from(s, first_nl(s, i) + 1) =~= Seq::<Seq<char>>::empty());
        }
    }
}

pub proof fn lemma_split_lines_bounds(s: Seq<char>)
    ensures
        spec_split_lines(s).len() <= s.len(),
        forall|k: int|
            0 <= k < spec_split_lines(s).len() ==> (#[trigger] spec_split_lines(s)[k]).len()
                <= s.len(),
{
    lemma_lines_from_bounds(s, 0);
}

/// The views of the elements of a list of borrowed line slices.
pub open spec fn str_views(v: Seq<&str>) -> Seq<Seq<char>> {
    v.map_values(|x: &str| x@)
}

pub proof fn lemma_str_views_push(v: Seq<&str>, x: &str)
    ensures
        str_views(v.push(x)) =~= str_views(v).push(x@),
{
}

/// Splits a text buffer into its logical lines, as `str::lines` does:
/// segments delimited by `'\n'`, a trailing `"\r"` of a segment dropped,
/// and no empty segment after a trailing newline.
pub fn split_lines<'a>(s: &'a str) -> (res: Vec<&'a str>)
    requires
        s.is_ascii(),
    ensures
        str_views(res@) == spec_split_lines(s@),
        forall|k: int| 0 <= k < res@.len() ==> (#[trigger] res@[k]).is_ascii(),
{
    let len = s.unicode_len();
    let mut res: Vec<&str> = Vec::new();
    let mut start: usize = 0;
    while start < len
        invariant
            start <= len,
            len == s@.len(),
            spec_split_lines(s@) =~= str_views(res@) + lines_from(s@, start as int),
            forall|k: int| 0 <= k < res@.len() ==> (#[trigger] res@[k]).is_ascii(),
        decreases len - start,
    {
        let mut k: usize = start;
        while k < len && s.get_char(k) != '\n'
            invariant
                start <= k <= len,
                forall|m: int| start <= m < k ==> s@[m] != '\n',
            decreases len - k,
        {
            k += 1;
        }
        proof {
            lemma_first_nl_is(s@, start as int, k as int);
        }
        let mut segend = k;
        if k < len && k > start && s.get_char(k - 1) == '\r' {
            segend = k - 1;
        }
        let piece = s.substring_ascii(start, segend);
        proof {
            assert(piece@ =~= segment(s@, start as int, k as int));
            lemma_str_views_push(res@, piece);
            assert(str_views(res@.push(piece)) + lines_from(s@, k + 1) =~= str_views(res@)
                + lines_from(s@, start as int));
        }
        res.push(piece);
        if k == len {
            proof {
                assert(lines_from(s@, k + 1) =~= Seq::<Seq<char>>::empty());
                assert(str_views(res@) =~= spec_split_lines(s@));
            }
            return res;
        }
        start = k + 1;
    }
    proof {
        assert(lines_from(s@, start as int) =~= Seq::<Seq<char>>::empty());
        assert(str_views(res@) =~= spec_split_lines(s@));
    }
    res
}

} // verus!
