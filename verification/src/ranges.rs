//! Closed integer ranges as sequences, and what filtering one of them keeps.

use vstd::prelude::*;

verus! {

/// The integers `lo, lo + 1, .., hi` in ascending order; empty when `hi < lo`.
pub open spec fn span(lo: int, hi: int) -> Seq<u32>
    recommends
        0 <= lo,
        hi <= u32::MAX,
{
    if hi < lo {
        Seq::empty()
    } else {
        Seq::new((hi - lo + 1) as nat, |i: int| (lo + i) as u32)
    }
}

/// `s` holds no value twice and lists its values from the smallest to the
/// largest.
pub open spec fn strictly_ascending(s: Seq<u32>) -> bool {
    forall|i: int, j: int| 0 <= i < j < s.len() ==> s[i] < s[j]
}

/// A range that ends at `hi` is the range that ends just before `hi`,
/// followed by `hi`.
pub proof fn lemma_span_last(lo: int, hi: int)
    requires
        0 <= lo <= hi <= u32::MAX,
    ensures
        span(lo, hi) == span(lo, hi - 1).push(hi as u32),
{
    assert(span(lo, hi) =~= span(lo, hi - 1).push(hi as u32));
}

/// Nothing is kept of an empty range.
pub proof fn lemma_span_filter_empty(lo: int, hi: int, pred: spec_fn(u32) -> bool)
    requires
        hi < lo,
    ensures
        span(lo, hi).filter(pred) == Seq::<u32>::empty(),
{
    reveal(Seq::filter);
    assert(span(lo, hi).filter(pred) =~= Seq::<u32>::empty());
}

/// Filtering a range either keeps its last number, behind what is kept of
/// the numbers before it, or drops it.
pub proof fn lemma_span_filter_last(lo: int, hi: int, pred: spec_fn(u32) -> bool)
    requires
        0 <= lo <= hi <= u32::MAX,
    ensures
        span(lo, hi).filter(pred) == if pred(hi as u32) {
            span(lo, hi - 1).filter(pred).push(hi as u32)
        } else {
            span(lo, hi - 1).filter(pred)
        },
{
    lemma_span_last(lo, hi);
    span(lo, hi - 1).lemma_filter_push(hi as u32, pred);
}

/// Numbers at the end of a range that the predicate rejects leave no trace
/// in the filtered range.
pub proof fn lemma_span_filter_skip(lo: int, mid: int, hi: int, pred: spec_fn(u32) -> bool)
    requires
        0 <= lo,
        lo - 1 <= mid <= hi <= u32::MAX,
        forall|x: int| mid < x <= hi ==> !#[trigger] pred(x as u32),
    ensures
        span(lo, hi).filter(pred) == span(lo, mid).filter(pred),
    decreases hi - mid,
{
    if mid < hi {
        lemma_span_filter_skip(lo, mid, hi - 1, pred);
        assert(!pred(hi as u32));
        lemma_span_filter_last(lo, hi, pred);
    }
}

/// A filtered range is strictly ascending and holds exactly the numbers of
/// the range that the predicate accepts.
pub proof fn lemma_span_filter_holds(lo: int, hi: int, pred: spec_fn(u32) -> bool)
    requires
        0 <= lo,
        hi <= u32::MAX,
    ensures
        strictly_ascending(span(lo, hi).filter(pred)),
        forall|x: u32| #[trigger]
            span(lo, hi).filter(pred).contains(x) <==> lo <= x <= hi && pred(x),
    decreases hi - lo + 1,
{
    let kept = span(lo, hi).filter(pred);
    if hi < lo {
        reveal(Seq::filter);
        assert(kept.len() == 0);
        assert forall|x: u32| !#[trigger] kept.contains(x) by {}
    } else {
        let before = span(lo, hi - 1).filter(pred);
        lemma_span_filter_holds(lo, hi - 1, pred);
        lemma_span_filter_last(lo, hi, pred);
        assert forall|i: int| 0 <= i < before.len() implies #[trigger] before[i] < hi by {
            assert(before.contains(before[i]));
        }
        assert forall|x: u32| #[trigger] kept.contains(x) <==> lo <= x <= hi && pred(x) by {
            if kept.contains(x) {
                let i = choose|i: int| 0 <= i < kept.len() && kept[i] == x;
                if i < before.len() {
                    assert(before.contains(before[i]));
                }
            }
            if lo <= x <= hi && pred(x) {
                if x == hi {
                    assert(kept[kept.len() - 1] == x);
                } else {
                    assert(before.contains(x));
                    let i = choose|i: int| 0 <= i < before.len() && before[i] == x;
                    assert(kept[i] == x);
                }
            }
        }
    }
}

/// Filtering a range that is cut in two filters the two parts.
pub proof fn lemma_span_filter_split(lo: int, mid: int, hi: int, pred: spec_fn(u32) -> bool)
    requires
        0 <= lo,
        lo - 1 <= mid <= hi <= u32::MAX,
    ensures
        span(lo, hi).filter(pred) == span(lo, mid).filter(pred) + span(mid + 1, hi).filter(pred),
{
    assert(span(lo, hi) =~= span(lo, mid) + span(mid + 1, hi));
    Seq::filter_distributes_over_add(span(lo, mid), span(mid + 1, hi), pred);
}

} // verus!
