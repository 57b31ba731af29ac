//! Tokenizer: splits one logical line of ASCII text into alternating maximal
//! runs of whitespace and of non-whitespace characters, each described by a
//! half-open index range.

use vstd::prelude::*;
use vstd::string::StrSliceExecFns;

verus! {

/// ASCII whitespace; agrees with `char::is_whitespace` on every ASCII character.
pub open spec fn is_space(c: char) -> bool {
    c == ' ' || c == '\t' || c == '\n' || c == '\u{b}' || c == '\u{c}' || c == '\r'
}

/// Exclusive end of the maximal run of same-class (whitespace or not)
/// characters that starts at index `i` of `s`.
pub open spec fn run_end(s: Seq<char>, i: int) -> int
    decreases s.len() - i,
{
    if i < 0 || i >= s.len() {
        i
    } else if i + 1 < s.len() && is_space(s[i + 1]) == is_space(s[i]) {
        run_end(s, i + 1)
    } else {
        i + 1
    }
}

/// Basic bounds and uniformity of a maximal run.
pub proof fn lemma_run_end(s: Seq<char>, i: int)
    requires
        0 <= i < s.len(),
    ensures
        i < run_end(s, i) <= s.len(),
        forall|k: int| i <= k < run_end(s, i) ==> is_space(s[k]) == is_space(s[i]),
        run_end(s, i) < s.len() ==> is_space(s[run_end(s, i)]) != is_space(s[i]),
    decreases s.len() - i,
{
    if i + 1 < s.len() && is_space(s[i + 1]) == is_space(s[i]) {
        lemma_run_end(s, i + 1);
    }
}

/// A maximal run is characterized by its properties: if `[i, j)` is uniform
/// and the class changes at `j` (or `j` is the end), then `run_end(s, i) == j`.
pub proof fn lemma_run_end_is(s: Seq<char>, i: int, j: int)
    requires
        0 <= i < j <= s.len(),
        forall|k: int| i <= k < j ==> is_space(s[k]) == is_space(s[i]),
        j < s.len() ==> is_space(s[j]) != is_space(s[i]),
    ensures
        run_end(s, i) == j,
    decreases j - i,
{
    if i + 1 < s.len() && is_space(s[i + 1]) == is_space(s[i]) {
        assert(i + 1 < j);
        lemma_run_end_is(s, i + 1, j);
    } else {
        assert(j == i + 1);
    }
}

/// The tokens of `s` from index `i` on: consecutive maximal runs, each a
/// half-open range, covering `[i, s.len())` exactly.
pub open spec fn tokens_from(s: Seq<char>, i: int) -> Seq<(int, int)>
    decreases s.len() - i,
{
    if i < 0 || i >= s.len() {
        Seq::empty()
    } else {
        proof {
            lemma_run_end(s, i);
        }
        seq![(i, run_end(s, i))] + tokens_from(s, run_end(s, i))
    }
}

/// The token list of a whole logical line.
pub open spec fn spec_tokenize(s: Seq<char>) -> Seq<(int, int)> {
    tokens_from(s, 0)
}

/// Well-formedness of a token list over a line: tokens are nonempty, in
/// bounds, contiguous, and the first one starts at the start of the line.
pub open spec fn toks_wf(s: Seq<char>, toks: Seq<(int, int)>) -> bool {
    &&& forall|k: int| 0 <= k < toks.len() ==> 0 <= (#[trigger] toks[k]).0 < toks[k].1 <= s.len()
    &&& forall|k: int| 0 <= k < toks.len() - 1 ==> (#[trigger] toks[k]).1 == toks[k + 1].0
    &&& toks.len() > 0 ==> toks[0].0 == 0
}

/// The tokens from `i` partition `[i, s.len())` into maximal runs: they are
/// contiguous, cover the range exactly, each is uniform in class, and the
/// class changes from each token to the next.
pub proof fn lemma_tokens_from_props(s: Seq<char>, i: int)
    requires
        0 <= i <= s.len(),
    ensures
        ({
            let ts = tokens_from(s, i);
            &&& (ts.len() == 0 <==> i == s.len())
            &&& ts.len() > 0 ==> ts[0].0 == i && ts[ts.len() - 1].1 == s.len()
            &&& forall|k: int| 0 <= k < ts.len() ==> i <= (#[trigger] ts[k]).0 < ts[k].1 <= s.len()
            &&& forall|k: int| 0 <= k < ts.len() - 1 ==> (#[trigger] ts[k]).1 == ts[k + 1].0
            &&& forall|k: int, m: int|
                #![trigger ts[k], s[m]]
                0 <= k < ts.len() && ts[k].0 <= m < ts[k].1 ==> is_space(s[m]) == is_space(
                    s[ts[k].0],
                )
            &&& forall|k: int|
                0 <= k < ts.len() - 1 ==> is_space(s[(#[trigger] ts[k + 1]).0]) != is_space(
                    s[ts[k].0],
                )
        }),
    decreases s.len() - i,
{
    if i < s.len() {
        lemma_run_end(s, i);
        lemma_tokens_from_props(s, run_end(s, i));
    }
}

/// The token list of a line is well formed and covers the whole line.
pub proof fn lemma_tokenize_wf(s: Seq<char>)
    ensures
        toks_wf(s, spec_tokenize(s)),
        spec_tokenize(s).len() == 0 <==> s.len() == 0,
        spec_tokenize(s).len() > 0 ==> spec_tokenize(s)[spec_tokenize(s).len() - 1].1 == s.len(),
{
    lemma_tokens_from_props(s, 0);
}

/// The token ranges of an executable token list, as mathematical integers.
pub open spec fn tok_ranges(ts: Seq<(usize, usize)>) -> Seq<(int, int)> {
    ts.map_values(|t: (usize, usize)| (t.0 as int, t.1 as int))
}

pub proof fn lemma_tok_ranges_push(ts: Seq<(usize, usize)>, t: (usize, usize))
    ensures
        tok_ranges(ts.push(t)) =~= tok_ranges(ts).push((t.0 as int, t.1 as int)),
{
}

/// Whether `c` is ASCII whitespace.
pub fn is_space_ch(c: char) -> (r: bool)
    ensures
        r == is_space(c),
{
    c == ' ' || c == '\t' || c == '\n' || c == '\u{b}' || c == '\u{c}' || c == '\r'
}

/// Splits one logical line into alternating runs of whitespace and of
/// non-whitespace characters ("tokens"), each a half-open index range.
/// The engine is defined over ASCII text only.
pub fn tokenize_ascii(input: &str) -> (toks: Vec<(usize, usize)>)
    requires
        input.is_ascii(),
    ensures
        tok_ranges(toks@) == spec_tokenize(input@),
{
    let len = input.unicode_len();
    let mut toks: Vec<(usize, usize)> = Vec::new();
    if len == 0 {
        assert(tok_ranges(toks@) =~= spec_tokenize(input@));
        return toks;
    }
    let mut start: usize = 0;
    let mut prev_space = is_space_ch(input.get_char(0));
    let mut i: usize = 1;
    while i < len
        invariant
            1 <= i <= len,
            start < i,
            prev_space == is_space(input@[start as int]),
            forall|k: int| start <= k < i ==> is_space(input@[k]) == is_space(input@[start as int]),
            spec_tokenize(input@) =~= tok_ranges(toks@) + tokens_from(input@, start as int),
        decreases len - i,
    {
        let c = input.get_char(i);
        let sp = is_space_ch(c);
        if sp != prev_space {
            proof {
                lemma_run_end_is(input@, start as int, i as int);
                assert(tokens_from(input@, start as int) =~= seq![(start as int, i as int)]
                    + tokens_from(input@, i as int));
                lemma_tok_ranges_push(toks@, (start, i));
                assert(tok_ranges(toks@.push((start, i))) + tokens_from(input@, i as int)
                    =~= tok_ranges(toks@) + tokens_from(input@, start as int));
            }
            toks.push((start, i));
            start = i;
            prev_space = sp;
        }
        i += 1;
    }
    proof {
        lemma_run_end_is(input@, start as int, len as int);
        assert(tokens_from(input@, len as int) =~= Seq::<(int, int)>::empty());
        assert(tokens_from(input@, start as int) =~= seq![(start as int, len as int)]);
        lemma_tok_ranges_push(toks@, (start, len));
        assert(tok_ranges(toks@.push((start, len))) =~= tok_ranges(toks@) + tokens_from(
            input@,
            start as int,
        ));
    }
    toks.push((start, len));
    toks
}

} // verus!
