//! Thinning of a batch of spans down to spans that do not overlap.
//!
//! The spans are ranked by start, a longer span before a shorter one that
//! starts with it, and an earlier position before a later one that holds the
//! same span. They are then taken in that order, and a span is kept unless it
//! starts before the end of the span kept last.
use vstd::prelude::*;
use vstd::relations::sorted_by;
use vstd::relations::total_ordering;
use vstd::seq_lib::lemma_sorted_unique;
use crate::Span;

verus! {

/// The pair by which a span is sorted: its start, then the distance of its
/// end from the largest offset, so that of two spans with one start the one
/// that ends later has the smaller pair.
pub open spec fn sort_key(s: Span) -> (usize, usize) {
    (s.0, (usize::MAX - s.1) as usize)
}

/// The order of pairs of integers: by the first component, then the second.
pub open spec fn pair_le(a: (usize, usize), b: (usize, usize)) -> bool {
    a.0 < b.0 || (a.0 == b.0 && a.1 <= b.1)
}

/// Position `i` of `spans` ranks at or before position `j`: its span starts
/// earlier; or they start together and it ends later; or they hold the same
/// span and `i` is not the later position.
pub open spec fn ranks_before(spans: Seq<Span>, i: usize, j: usize) -> bool {
    let a = spans[i as int];
    let b = spans[j as int];
    a.0 < b.0 || (a.0 == b.0 && (a.1 > b.1 || (a.1 == b.1 && i <= j)))
}

/// The ranking of the positions of `spans` as a relation.
pub open spec fn ranking(spans: Seq<Span>) -> spec_fn(usize, usize) -> bool {
    |i: usize, j: usize| ranks_before(spans, i, j)
}

/// The positions `0, 1, ..` of a sequence of length `n`.
pub open spec fn positions(n: nat) -> Seq<usize> {
    Seq::new(n, |i: int| i as usize)
}

/// `order` lists every position of `spans` once, in ranking order.
pub open spec fn is_priority_order(spans: Seq<Span>, order: Seq<usize>) -> bool {
    &&& order.to_multiset() == positions(spans.len()).to_multiset()
    &&& sorted_by(order, ranking(spans))
}

/// The positions of `spans` in ranking order.
pub open spec fn priority_order(spans: Seq<Span>) -> Seq<usize> {
    positions(spans.len()).sort_by(ranking(spans))
}

/// The end of the span kept last, and 0 where none has been kept.
pub open spec fn frontier(spans: Seq<Span>, kept: Seq<usize>) -> usize {
    if kept.len() == 0 {
        0
    } else {
        spans[kept.last() as int].1
    }
}

/// The positions kept when those of `order` are taken one after another: a
/// position is kept unless its span starts before the frontier.
pub open spec fn sweep(spans: Seq<Span>, order: Seq<usize>) -> Seq<usize>
    decreases order.len(),
{
    if order.len() == 0 {
        Seq::empty()
    } else {
        let kept = sweep(spans, order.drop_last());
        let i = order.last();
        if spans[i as int].0 < frontier(spans, kept) {
            kept
        } else {
            kept.push(i)
        }
    }
}

/// The positions of the spans that are kept.
pub open spec fn kept_positions(spans: Seq<Span>) -> Seq<usize> {
    sweep(spans, priority_order(spans))
}

/// The spans that are kept, in the order in which they are kept.
pub open spec fn kept_spans(spans: Seq<Span>) -> Seq<Span> {
    kept_positions(spans).map_values(|i: usize| spans[i as int])
}

/// The ranking is a total order of the positions.
pub proof fn lemma_ranking_total(spans: Seq<Span>)
    ensures
        total_ordering(ranking(spans)),
{
    let r = ranking(spans);
    assert forall|x: usize, y: usize| #[trigger] r(x, y) && r(y, x) implies x == y by {}
    assert forall|x: usize, y: usize, z: usize| #[trigger] r(x, y) && #[trigger] r(y, z) implies r(
        x,
        z,
    ) by {}
    assert forall|x: usize, y: usize| #[trigger] r(x, y) || #[trigger] r(y, x) by {}
    assert forall|x: usize| #[trigger] r(x, x) by {}
}

/// The positions of `spans` have a ranking order.
pub proof fn lemma_priority_order_exists(spans: Seq<Span>)
    ensures
        is_priority_order(spans, priority_order(spans)),
{
    lemma_ranking_total(spans);
    positions(spans.len()).lemma_sort_by_ensures(ranking(spans));
}

/// The positions of `spans` have one ranking order only.
pub proof fn lemma_priority_order_unique(spans: Seq<Span>, order: Seq<usize>)
    requires
        is_priority_order(spans, order),
    ensures
        order == priority_order(spans),
{
    lemma_ranking_total(spans);
    lemma_priority_order_exists(spans);
    lemma_sorted_unique(order, priority_order(spans), ranking(spans));
}

/// A ranking order holds positions of `spans` only.
pub proof fn lemma_priority_order_in_range(spans: Seq<Span>, order: Seq<usize>)
    requires
        is_priority_order(spans, order),
    ensures
        order.len() == spans.len(),
        forall|k: int| 0 <= k < order.len() ==> #[trigger] order[k] < spans.len(),
{
    broadcast use vstd::seq_lib::group_to_multiset_ensures;

    let all = positions(spans.len());
    assert(order.len() == order.to_multiset().len());
    assert(all.len() == all.to_multiset().len());
    assert forall|k: int| 0 <= k < order.len() implies #[trigger] order[k] < spans.len() by {
        assert(order.contains(order[k]));
        assert(order.to_multiset().count(order[k]) > 0);
        assert(all.to_multiset().count(order[k]) > 0);
        assert(all.contains(order[k]));
        let w = choose|w: int| 0 <= w < all.len() && all[w] == order[k];
        assert(all[w] == w as usize);
        if spans.len() <= usize::MAX {
            assert(w as usize == w);
        }
    }
}

/// What a sweep keeps are positions that it was given.
pub proof fn lemma_sweep_in_range(spans: Seq<Span>, order: Seq<usize>)
    requires
        forall|k: int| 0 <= k < order.len() ==> #[trigger] order[k] < spans.len(),
    ensures
        sweep(spans, order).len() <= order.len(),
        forall|k: int|
            0 <= k < sweep(spans, order).len() ==> #[trigger] sweep(spans, order)[k] < spans.len(),
    decreases order.len(),
{
    if order.len() > 0 {
        let init = order.drop_last();
        assert forall|k: int| 0 <= k < init.len() implies #[trigger] init[k] < spans.len() by {
            assert(init[k] == order[k]);
        }
        lemma_sweep_in_range(spans, init);
    }
}

/// Of two spans that a sweep keeps one after the other, the later starts at
/// or after the end of the earlier.
pub proof fn lemma_sweep_apart(spans: Seq<Span>, order: Seq<usize>)
    ensures
        forall|k: int|
            0 < k < sweep(spans, order).len() ==> spans[sweep(spans, order)[k - 1] as int].1
                <= spans[#[trigger] sweep(spans, order)[k] as int].0,
    decreases order.len(),
{
    if order.len() > 0 {
        let kept = sweep(spans, order.drop_last());
        let all = sweep(spans, order);
        lemma_sweep_apart(spans, order.drop_last());
        assert forall|k: int| 0 < k < all.len() implies spans[all[k - 1] as int].1 <= spans[
            #[trigger] all[k] as int].0 by {
            if k < kept.len() {
                assert(all[k] == kept[k]);
                assert(all[k - 1] == kept[k - 1]);
            } else {
                assert(all == kept.push(order.last()));
                assert(all[k - 1] == kept.last());
            }
        }
    }
}

/// A sweep keeps the order in which it was given the positions, and keeps
/// no position that it was not given.
pub proof fn lemma_sweep_keeps_order(spans: Seq<Span>, order: Seq<usize>)
    requires
        sorted_by(order, ranking(spans)),
    ensures
        sorted_by(sweep(spans, order), ranking(spans)),
        forall|k: int|
            0 <= k < sweep(spans, order).len() ==> order.contains(#[trigger] sweep(spans, order)[k]),
    decreases order.len(),
{
    if order.len() > 0 {
        let init = order.drop_last();
        let kept = sweep(spans, init);
        let all = sweep(spans, order);
        lemma_sweep_keeps_order(spans, init);
        assert forall|k: int| 0 <= k < all.len() implies order.contains(#[trigger] all[k]) by {
            if k < kept.len() {
                assert(all[k] == kept[k]);
                assert(init.contains(kept[k]));
                let w = choose|w: int| 0 <= w < init.len() && init[w] == kept[k];
                assert(order[w] == kept[k]);
            } else {
                assert(all[k] == order[order.len() - 1]);
            }
        }
        assert forall|a: int, b: int| 0 <= a < b < all.len() implies #[trigger] ranking(spans)(
            all[a],
            all[b],
        ) by {
            if b < kept.len() {
                assert(all[a] == kept[a] && all[b] == kept[b]);
                assert(ranking(spans)(kept[a], kept[b]));
            } else {
                assert(all[a] == kept[a]);
                assert(init.contains(kept[a]));
                let w = choose|w: int| 0 <= w < init.len() && init[w] == kept[a];
                assert(ranking(spans)(order[w], order[order.len() - 1]));
            }
        }
    }
}

/// What a sweep has kept after the first `j` positions it still holds at
/// the end, in the same places.
pub proof fn lemma_sweep_grows(spans: Seq<Span>, order: Seq<usize>, j: int)
    requires
        0 <= j <= order.len(),
    ensures
        sweep(spans, order.take(j)).len() <= sweep(spans, order).len(),
        forall|k: int|
            0 <= k < sweep(spans, order.take(j)).len() ==> #[trigger] sweep(spans, order.take(j))[k]
                == sweep(spans, order)[k],
    decreases order.len() - j,
{
    if j < order.len() {
        lemma_sweep_grows(spans, order, j + 1);
        assert(order.take(j + 1).drop_last() == order.take(j));
        let seen = sweep(spans, order.take(j));
        let next = sweep(spans, order.take(j + 1));
        assert forall|k: int| 0 <= k < seen.len() implies #[trigger] seen[k] == sweep(
            spans,
            order,
        )[k] by {
            assert(seen[k] == next[k]);
        }
    } else {
        assert(order.take(j) == order);
    }
}

/// The spans that are kept come in the order of their starts, and each ends
/// at or before the start of every later one.
pub proof fn lemma_kept_spans_sorted(spans: Seq<Span>, j: int, k: int)
    requires
        0 <= j < k < kept_spans(spans).len(),
    ensures
        kept_spans(spans)[j].0 <= kept_spans(spans)[k].0,
        kept_spans(spans)[j].1 <= kept_spans(spans)[k].0,
{
    let order = priority_order(spans);
    let kept = kept_positions(spans);
    lemma_priority_order_exists(spans);
    lemma_sweep_keeps_order(spans, order);
    lemma_sweep_apart(spans, order);
    assert(ranking(spans)(kept[j], kept[k]));
    if j + 1 < k {
        assert(ranking(spans)(kept[j + 1], kept[k]));
    }
    assert(spans[kept[j] as int].1 <= spans[kept[j + 1] as int].0);
}

/// A span that is not kept starts before the end of a span that is kept and
/// that ranks before it.
pub proof fn lemma_dropped_span_overlaps(spans: Seq<Span>, i: usize)
    requires
        i < spans.len(),
        !kept_positions(spans).contains(i),
    ensures
        exists|p: usize|
            kept_positions(spans).contains(p) && #[trigger] ranks_before(spans, p, i)
                && spans[i as int].0 < spans[p as int].1,
{
    broadcast use vstd::seq_lib::group_to_multiset_ensures;

    let order = priority_order(spans);
    let all = positions(spans.len());
    lemma_priority_order_exists(spans);
    assert(all[i as int] == i);
    assert(all.contains(i));
    assert(all.to_multiset().count(i) > 0);
    assert(order.to_multiset().count(i) > 0);
    assert(order.contains(i));
    let j = choose|j: int| 0 <= j < order.len() && order[j] == i;
    let seen = sweep(spans, order.take(j));
    let next = sweep(spans, order.take(j + 1));
    assert(order.take(j + 1).drop_last() == order.take(j));
    assert(order.take(j + 1).last() == i);
    lemma_sweep_grows(spans, order, j + 1);
    lemma_sweep_grows(spans, order, j);
    if spans[i as int].0 < frontier(spans, seen) {
        let p = seen.last();
        assert(seen[seen.len() - 1] == kept_positions(spans)[seen.len() - 1]);
        assert(sorted_by(order.take(j), ranking(spans)));
        lemma_sweep_keeps_order(spans, order.take(j));
        assert(order.take(j).contains(seen[seen.len() - 1]));
        let w = choose|w: int| 0 <= w < order.take(j).len() && order.take(j)[w] == p;
        assert(ranking(spans)(order[w], order[j]));
        assert(ranks_before(spans, p, i));
    } else {
        assert(next == seen.push(i));
        assert(next[next.len() - 1] == kept_positions(spans)[next.len() - 1]);
        assert(false);
    }
}

/// Of two spans that are kept one after the other, the later starts at or
/// after the end of the earlier.
pub proof fn lemma_kept_spans_apart(spans: Seq<Span>)
    ensures
        forall|k: int|
            0 < k < kept_spans(spans).len() ==> kept_spans(spans)[k - 1].1 <= (
            #[trigger] kept_spans(spans)[k]).0,
{
    lemma_sweep_apart(spans, priority_order(spans));
}

/// The spans that are kept are those at the positions that are kept, in the
/// same order, and every such position is one of `spans`.
pub proof fn lemma_positions_give_kept_spans(spans: Seq<Span>)
    ensures
        kept_spans(spans).len() == kept_positions(spans).len(),
        forall|k: int|
            0 <= k < kept_positions(spans).len() ==> #[trigger] kept_positions(spans)[k]
                < spans.len(),
        forall|k: int|
            0 <= k < kept_positions(spans).len() ==> #[trigger] kept_spans(spans)[k]
                == spans[kept_positions(spans)[k] as int],
{
    lemma_priority_order_exists(spans);
    lemma_priority_order_in_range(spans, priority_order(spans));
    lemma_sweep_in_range(spans, priority_order(spans));
}

/// The pair by which position `i` of `spans` is sorted.
fn rank_key(spans: &[Span], i: usize) -> (key: (usize, usize))
    requires
        i < spans@.len(),
    ensures
        key == sort_key(spans@[i as int]),
{
    let (l, r) = spans[i];
    (l, usize::MAX - r)
}

/// Sorts positions of `spans` with `sort_by_key` of std's slices, by the pair
/// that `rank_key` gives for each.
///
/// The contract states what std documents of that sort: the sorted vector
/// holds what the vector held, the keys ascend in the order of pairs of
/// integers, and the sort is stable, so that of two entries with one key the
/// earlier in the sorted vector stood earlier before the sort.
#[verifier::external_body]
fn sort_by_rank(indices: &mut Vec<usize>, spans: &[Span])
    requires
        forall|k: int| 0 <= k < old(indices)@.len() ==> #[trigger] old(indices)@[k] < spans@.len(),
    ensures
        final(indices)@.to_multiset() == old(indices)@.to_multiset(),
        forall|a: int, b: int|
            0 <= a < b < final(indices)@.len() ==> pair_le(
                sort_key(spans@[#[trigger] final(indices)@[a] as int]),
                sort_key(spans@[#[trigger] final(indices)@[b] as int]),
            ),
        forall|a: int, b: int|
            0 <= a < b < final(indices)@.len() && sort_key(
                spans@[#[trigger] final(indices)@[a] as int],
            ) == sort_key(spans@[#[trigger] final(indices)@[b] as int]) ==> exists|p: int, q: int|
                0 <= p < q < old(indices)@.len()
                    && #[trigger] old(indices)@[p] == final(indices)@[a]
                    && #[trigger] old(indices)@[q] == final(indices)@[b],
{
    indices.sort_by_key(|&i| rank_key(spans, i));
}

/// The positions of `spans` in ranking order.
fn ranked_positions(spans: &[Span]) -> (order: Vec<usize>)
    ensures
        is_priority_order(spans@, order@),
        order@ == priority_order(spans@),
        order@.len() == spans@.len(),
        forall|k: int| 0 <= k < order@.len() ==> #[trigger] order@[k] < spans@.len(),
{
    let n = spans.len();
    let mut indices: Vec<usize> = Vec::new();
    for i in 0..n
        invariant
            n == spans@.len(),
            indices@ == positions(i as nat),
    {
        indices.push(i);
        assert(indices@ =~= positions((i + 1) as nat));
    }
    let ghost before = indices@;
    sort_by_rank(&mut indices, spans);
    proof {
        let s = spans@;
        let o = indices@;
        assert forall|a: int, b: int| 0 <= a < b < o.len() implies #[trigger] ranking(s)(
            o[a],
            o[b],
        ) by {
            let x = s[o[a] as int];
            let y = s[o[b] as int];
            assert(pair_le(sort_key(x), sort_key(y)));
            if x.0 == y.0 && x.1 == y.1 {
                assert(sort_key(x) == sort_key(y));
                let (p, q) = choose|p: int, q: int|
                    0 <= p < q < before.len() && #[trigger] before[p] == o[a]
                        && #[trigger] before[q] == o[b];
                assert(before[p] == p && before[q] == q);
            }
        }
        lemma_priority_order_unique(s, o);
        lemma_priority_order_in_range(s, o);
    }
    indices
}

/// Picks spans that do not overlap and returns their positions in `spans`.
///
/// The positions come in ranking order: by start, a longer span before a
/// shorter one that starts with it, an earlier position before a later one
/// with the same span. A position is kept unless its span starts before the
/// end of the span kept last.
pub fn remove_span_overlaps_idx(spans: &[Span]) -> (res: Vec<usize>)
    ensures
        res@ == kept_positions(spans@),
        forall|k: int| 0 <= k < res@.len() ==> #[trigger] res@[k] < spans@.len(),
        forall|k: int|
            0 < k < res@.len() ==> spans@[res@[k - 1] as int].1 <= spans@[#[trigger] res@[k] as int].0,
{
    let order = ranked_positions(spans);
    let mut ret: Vec<usize> = Vec::new();
    let mut cur: usize = 0;
    for k in 0..order.len()
        invariant
            order@.len() == spans@.len(),
            forall|j: int| 0 <= j < order@.len() ==> #[trigger] order@[j] < spans@.len(),
            ret@ == sweep(spans@, order@.take(k as int)),
            cur == frontier(spans@, ret@),
    {
        let i = order[k];
        let (l, r) = spans[i];
        proof {
            assert(order@.take(k + 1).drop_last() == order@.take(k as int));
        }
        if l >= cur {
            ret.push(i);
            cur = r;
        }
    }
    proof {
        assert(order@.take(order@.len() as int) == order@);
        lemma_sweep_in_range(spans@, order@);
        lemma_sweep_apart(spans@, order@);
    }
    ret
}

/// Picks spans that do not overlap and returns them.
///
/// The spans returned are those at the positions that
/// `remove_span_overlaps_idx` returns, in the same order. Each starts at or
/// after the end of the one before it.
pub fn remove_span_overlaps(spans: &[Span]) -> (res: Vec<Span>)
    ensures
        res@ == kept_spans(spans@),
        res@.len() == kept_positions(spans@).len(),
        forall|k: int|
            0 <= k < res@.len() ==> #[trigger] res@[k] == spans@[kept_positions(spans@)[k] as int],
        forall|k: int| 0 < k < res@.len() ==> res@[k - 1].1 <= (#[trigger] res@[k]).0,
{
    let order = ranked_positions(spans);
    let mut ret: Vec<Span> = Vec::new();
    let mut cur: usize = 0;
    let ghost pick = |i: usize| spans@[i as int];
    for k in 0..order.len()
        invariant
            order@.len() == spans@.len(),
            forall|j: int| 0 <= j < order@.len() ==> #[trigger] order@[j] < spans@.len(),
            pick == |i: usize| spans@[i as int],
            ret@ == sweep(spans@, order@.take(k as int)).map_values(pick),
            cur == frontier(spans@, sweep(spans@, order@.take(k as int))),
    {
        let i = order[k];
        let (l, r) = spans[i];
        proof {
            assert(order@.take(k + 1).drop_last() == order@.take(k as int));
        }
        if l >= cur {
            ret.push((l, r));
            cur = r;
            proof {
                let kept = sweep(spans@, order@.take(k as int));
                assert(kept.push(i).map_values(pick) == kept.map_values(pick).push(pick(i)));
            }
        }
    }
    proof {
        assert(order@.take(order@.len() as int) == order@);
        lemma_sweep_apart(spans@, order@);
    }
    ret
}

} // verus!
