//! The runs of a sequence: its maximal stretches without an ambiguous symbol.

use crate::fasta::is_ambiguous;
use vstd::prelude::*;

verus! {

/// A stretch of a sequence: the symbols at the indices from `start` up to, and without,
/// `end`, counted from 0.
pub struct Span {
    pub start: int,
    pub end: int,
}

/// Where the run that is open after the first `n` symbols of `s` begins: behind the last
/// ambiguous symbol among them, or at 0.
pub open spec fn boundary(s: Seq<char>, n: int) -> int
    decreases n,
{
    if n <= 0 {
        0
    } else if is_ambiguous(s[n - 1]) {
        n
    } else {
        boundary(s, n - 1)
    }
}

/// The runs that an ambiguous symbol among the first `n` symbols of `s` has ended, in
/// scan order. An ambiguous symbol that directly follows the boundary ends nothing.
pub open spec fn ended_runs(s: Seq<char>, n: int) -> Seq<Span>
    decreases n,
{
    if n <= 0 {
        Seq::empty()
    } else if is_ambiguous(s[n - 1]) && boundary(s, n - 1) < n - 1 {
        ended_runs(s, n - 1).push(Span { start: boundary(s, n - 1), end: n - 1 })
    } else {
        ended_runs(s, n - 1)
    }
}

/// The runs of `s`: those that an ambiguous symbol ends and, where `s` does not end with
/// an ambiguous symbol, the one that the end of `s` ends.
pub open spec fn runs(s: Seq<char>) -> Seq<Span> {
    let n = s.len() as int;
    if boundary(s, n) < n {
        ended_runs(s, n).push(Span { start: boundary(s, n), end: n })
    } else {
        ended_runs(s, n)
    }
}

/// Every symbol of `s` from `from` up to `to` is ambiguous.
pub open spec fn all_ambiguous(s: Seq<char>, from: int, to: int) -> bool {
    forall|j: int| from <= j < to ==> is_ambiguous(#[trigger] s[j])
}

/// No symbol of `s` from `from` up to `to` is ambiguous.
pub open spec fn none_ambiguous(s: Seq<char>, from: int, to: int) -> bool {
    forall|j: int| from <= j < to ==> !is_ambiguous(#[trigger] s[j])
}

/// Whether `span` is a run of `s`: a stretch that is not empty, holds no ambiguous
/// symbol, and cannot be extended at either end.
pub open spec fn is_run(s: Seq<char>, span: Span) -> bool {
    &&& 0 <= span.start < span.end <= s.len()
    &&& none_ambiguous(s, span.start, span.end)
    &&& (span.start == 0 || is_ambiguous(s[span.start - 1]))
    &&& (span.end == s.len() || is_ambiguous(s[span.end]))
}

/// Where the span before the `k`-th ends; 0 for the first.
pub open spec fn end_before(spans: Seq<Span>, k: int) -> int {
    if k <= 0 {
        0
    } else {
        spans[k - 1].end
    }
}

/// The `k`-th span lies behind the span before it, only ambiguous symbols lie between
/// the two, the span itself holds none, and an ambiguous symbol or the end of `s`
/// follows it.
pub open spec fn placed(s: Seq<char>, spans: Seq<Span>, k: int) -> bool {
    &&& 0 <= end_before(spans, k) <= spans[k].start < spans[k].end <= s.len()
    &&& all_ambiguous(s, end_before(spans, k), spans[k].start)
    &&& none_ambiguous(s, spans[k].start, spans[k].end)
    &&& (spans[k].end < s.len() ==> is_ambiguous(s[spans[k].end]))
}

/// `spans` cuts `s` into stretches without an ambiguous symbol and gaps that hold
/// nothing else.
pub open spec fn segments(s: Seq<char>, spans: Seq<Span>) -> bool {
    &&& forall|k: int| 0 <= k < spans.len() ==> #[trigger] placed(s, spans, k)
    &&& 0 <= end_before(spans, spans.len() as int) <= s.len()
    &&& all_ambiguous(s, end_before(spans, spans.len() as int), s.len() as int)
}

/// The boundary lies among the symbols that were scanned, or just behind them.
pub proof fn lemma_boundary_bounds(s: Seq<char>, n: int)
    requires
        0 <= n,
    ensures
        0 <= boundary(s, n) <= n,
    decreases n,
{
    if n > 0 {
        lemma_boundary_bounds(s, n - 1);
    }
}

/// What holds of the scan after `n` symbols.
spec fn scanned(s: Seq<char>, n: int) -> bool {
    let b = boundary(s, n);
    let ended = ended_runs(s, n);
    &&& 0 <= b <= n
    &&& none_ambiguous(s, b, n)
    &&& forall|k: int| 0 <= k < ended.len() ==> #[trigger] placed(s, ended, k) && ended[k].end < n
    &&& 0 <= end_before(ended, ended.len() as int) <= b
    &&& all_ambiguous(s, end_before(ended, ended.len() as int), b)
}

/// It holds after every symbol.
proof fn lemma_scanned(s: Seq<char>, n: int)
    requires
        0 <= n <= s.len(),
    ensures
        scanned(s, n),
    decreases n,
{
    if n > 0 {
        lemma_scanned(s, n - 1);
        let before = ended_runs(s, n - 1);
        let ended = ended_runs(s, n);
        assert forall|k: int| 0 <= k < ended.len() implies #[trigger] placed(s, ended, k)
            && ended[k].end < n by {
            if k < before.len() {
                assert(placed(s, before, k));
            }
        }
    }
}

/// The runs of `s` cut `s` into stretches without an ambiguous symbol and gaps of
/// ambiguous symbols.
pub proof fn lemma_runs_segment(s: Seq<char>)
    ensures
        segments(s, runs(s)),
{
    let n = s.len() as int;
    lemma_scanned(s, n);
    let ended = ended_runs(s, n);
    let all = runs(s);
    assert forall|k: int| 0 <= k < all.len() implies #[trigger] placed(s, all, k) by {
        if k < ended.len() {
            assert(placed(s, ended, k));
        }
    }
}

/// Every run that is listed is a run: it is not empty, holds no ambiguous symbol, and an
/// ambiguous symbol or an end of the sequence stands on either side of it.
pub proof fn lemma_runs_are_maximal(s: Seq<char>, k: int)
    requires
        0 <= k < runs(s).len(),
    ensures
        is_run(s, runs(s)[k]),
{
    lemma_runs_segment(s);
    let all = runs(s);
    assert(placed(s, all, k));
    if k > 0 {
        assert(placed(s, all, k - 1));
    }
}

/// The runs are listed from left to right, and at least one symbol lies between two
/// neighbours.
pub proof fn lemma_runs_in_order(s: Seq<char>, k: int, m: int)
    requires
        0 <= k < m < runs(s).len(),
    ensures
        runs(s)[k].end < runs(s)[m].start,
    decreases m - k,
{
    lemma_runs_segment(s);
    let all = runs(s);
    assert(placed(s, all, m));
    assert(placed(s, all, m - 1));
    if k < m - 1 {
        lemma_runs_in_order(s, k, m - 1);
    }
}

/// Behind the first `k` of the spans that cut `s`, a symbol that is not ambiguous lies
/// in one of the spans that follow.
proof fn lemma_find_span(s: Seq<char>, spans: Seq<Span>, j: int, k: int) -> (found: int)
    requires
        segments(s, spans),
        0 <= k <= spans.len(),
        end_before(spans, k) <= j < s.len(),
        !is_ambiguous(s[j]),
    ensures
        k <= found < spans.len(),
        spans[found].start <= j < spans[found].end,
    decreases spans.len() - k,
{
    if k == spans.len() {
        k
    } else {
        assert(placed(s, spans, k));
        if j < spans[k].start {
            k
        } else if j < spans[k].end {
            k
        } else {
            lemma_find_span(s, spans, j, k + 1)
        }
    }
}

/// Every symbol that is not ambiguous lies in one of the runs.
pub proof fn lemma_runs_cover(s: Seq<char>, j: int) -> (k: int)
    requires
        0 <= j < s.len(),
        !is_ambiguous(s[j]),
    ensures
        0 <= k < runs(s).len(),
        runs(s)[k].start <= j < runs(s)[k].end,
{
    lemma_runs_segment(s);
    lemma_find_span(s, runs(s), j, 0)
}

/// A sequence can be cut into stretches and gaps in one way only.
pub proof fn lemma_segments_unique(s: Seq<char>, a: Seq<Span>, b: Seq<Span>)
    requires
        segments(s, a),
        segments(s, b),
    ensures
        a == b,
{
    lemma_segments_agree(s, a, b, if a.len() <= b.len() { a.len() as int } else { b.len() as int });
    let shared = if a.len() <= b.len() { a.len() as int } else { b.len() as int };
    if a.len() < b.len() {
        assert(placed(s, b, shared));
        assert(is_ambiguous(s[b[shared].start]));
    } else if b.len() < a.len() {
        assert(placed(s, a, shared));
        assert(is_ambiguous(s[a[shared].start]));
    }
}

/// Two ways to cut `s` agree on their first `n` spans.
proof fn lemma_segments_agree(s: Seq<char>, a: Seq<Span>, b: Seq<Span>, n: int)
    requires
        segments(s, a),
        segments(s, b),
        0 <= n <= a.len(),
        n <= b.len(),
    ensures
        forall|k: int| 0 <= k < n ==> a[k] == b[k],
    decreases n,
{
    if n > 0 {
        lemma_segments_agree(s, a, b, n - 1);
        let k = n - 1;
        assert(placed(s, a, k));
        assert(placed(s, b, k));
        if a[k].start < b[k].start {
            assert(is_ambiguous(s[a[k].start]));
        } else if b[k].start < a[k].start {
            assert(is_ambiguous(s[b[k].start]));
        }
    }
}

/// A sequence that is not empty and holds no ambiguous symbol is one run.
pub proof fn lemma_runs_without_ambiguous(s: Seq<char>)
    requires
        s.len() > 0,
        none_ambiguous(s, 0, s.len() as int),
    ensures
        runs(s) == seq![Span { start: 0, end: s.len() as int }],
{
    let whole = seq![Span { start: 0, end: s.len() as int }];
    lemma_runs_segment(s);
    lemma_segments_unique(s, runs(s), whole);
}

/// A sequence of ambiguous symbols only has no run.
pub proof fn lemma_runs_all_ambiguous(s: Seq<char>)
    requires
        all_ambiguous(s, 0, s.len() as int),
    ensures
        runs(s) == Seq::<Span>::empty(),
{
    lemma_runs_segment(s);
    lemma_segments_unique(s, runs(s), Seq::<Span>::empty());
}

} // verus!
