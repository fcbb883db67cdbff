//! Projection of spans through a character correspondence.
//!
//! A correspondence gives, for each position of one text, the positions of
//! another text that it corresponds to. A span of the first text is projected
//! onto the offsets that its positions reach, gathered into runs: a run is
//! closed where the next offset lies more than one beyond the offset before
//! it.
use vstd::prelude::*;
use crate::Span;

verus! {

/// The correspondence that a slice of offset lists stands for.
pub open spec fn offsets(mapping: Seq<Vec<usize>>) -> Seq<Seq<usize>> {
    mapping.map_values(|bucket: Vec<usize>| bucket@)
}

/// The position at which the walk over `span` stops: the span's end, or the
/// length of the correspondence where the span reaches beyond it.
pub open spec fn stop_of(span: Span, len: nat) -> int {
    if span.1 < len {
        span.1 as int
    } else {
        len as int
    }
}

/// The offsets that the positions of `span` reach, position by position and
/// each position's offsets in their own order. Positions beyond the
/// correspondence reach nothing.
pub open spec fn reached(span: Span, mapping: Seq<Seq<usize>>) -> Seq<usize> {
    if span.0 < stop_of(span, mapping.len()) {
        mapping.subrange(span.0 as int, stop_of(span, mapping.len())).flatten()
    } else {
        Seq::empty()
    }
}

/// The runs of a sequence of offsets. A run begins at the first offset and
/// after every offset `y` that lies more than one beyond the offset before
/// it; it is the span from its first offset to one beyond its last.
pub open spec fn runs(ys: Seq<usize>) -> Seq<Span>
    decreases ys.len(),
{
    if ys.len() == 0 {
        Seq::empty()
    } else if ys.len() == 1 {
        seq![(ys[0], (ys[0] + 1) as usize)]
    } else {
        let before = runs(ys.drop_last());
        let y = ys.last();
        if ys[ys.len() - 2] + 1 < y {
            before.push((y, (y + 1) as usize))
        } else {
            before.drop_last().push((before.last().0, (y + 1) as usize))
        }
    }
}

/// The runs onto which `span` is projected by `mapping`.
pub open spec fn projected(span: Span, mapping: Seq<Seq<usize>>) -> Seq<Span> {
    runs(reached(span, mapping))
}

/// Every offset that a walk over `span` meets can be followed by another.
pub open spec fn offsets_have_successors(span: Span, mapping: Seq<Seq<usize>>) -> bool {
    forall|i: int, j: int|
        span.0 <= i < span.1 && 0 <= i < mapping.len() && 0 <= j < mapping[i].len()
            ==> #[trigger] mapping[i][j] < usize::MAX
}

/// The state of a walk after the offsets `ys`: the runs closed so far, and
/// the open run with the offset met last.
spec fn walk_state(
    closed: Seq<Span>,
    l: Option<usize>,
    r: Option<usize>,
    prev: Option<usize>,
    ys: Seq<usize>,
) -> bool {
    if ys.len() == 0 {
        closed.len() == 0 && l is None && r is None && prev is None
    } else {
        &&& l is Some
        &&& r is Some
        &&& prev == Some(ys.last())
        &&& ys.last() < usize::MAX
        &&& closed.push((l->0, r->0)) == runs(ys)
    }
}

/// One more offset `y` either closes the open run and opens one at `y`, or
/// stretches the open run to one beyond `y`.
proof fn lemma_walk_step(closed: Seq<Span>, l: usize, r: usize, ys: Seq<usize>, y: usize)
    requires
        ys.len() > 0,
        walk_state(closed, Some(l), Some(r), Some(ys.last()), ys),
        y < usize::MAX,
    ensures
        ys.last() + 1 < y ==> walk_state(
            closed.push((l, r)),
            Some(y),
            Some((y + 1) as usize),
            Some(y),
            ys.push(y),
        ),
        !(ys.last() + 1 < y) ==> walk_state(
            closed,
            Some(l),
            Some((y + 1) as usize),
            Some(y),
            ys.push(y),
        ),
{
    let next = ys.push(y);
    assert(next.drop_last() == ys);
    assert(next[next.len() - 2] == ys.last());
    assert(closed.push((l, r)).drop_last() == closed);
    assert(closed.push((l, r)).last() == (l, r));
}

/// A span whose start is not below its end is projected onto no run.
pub proof fn lemma_empty_span_projects_to_nothing(span: Span, mapping: Seq<Seq<usize>>)
    requires
        span.0 >= span.1,
    ensures
        projected(span, mapping) == Seq::<Span>::empty(),
{
}

/// Runs do not touch: each begins more than one offset beyond the last
/// offset of the run before it.
pub proof fn lemma_runs_apart(ys: Seq<usize>)
    requires
        forall|j: int| 0 <= j < ys.len() ==> #[trigger] ys[j] < usize::MAX,
    ensures
        ys.len() > 0 ==> runs(ys).len() > 0 && runs(ys).last().1 == ys.last() + 1 && runs(
            ys,
        )[0].0 == ys[0],
        runs(ys).len() <= ys.len(),
        forall|k: int| 0 < k < runs(ys).len() ==> runs(ys)[k - 1].1 < (#[trigger] runs(ys)[k]).0,
    decreases ys.len(),
{
    if ys.len() > 1 {
        let init = ys.drop_last();
        lemma_runs_apart(init);
        let before = runs(init);
        let all = runs(ys);
        assert(init.last() == ys[ys.len() - 2]);
        assert forall|k: int| 0 < k < all.len() implies all[k - 1].1 < (#[trigger] all[k]).0 by {
            if k < before.len() - 1 {
                assert(all[k] == before[k]);
                assert(all[k - 1] == before[k - 1]);
            } else if k == before.len() - 1 {
                assert(all[k - 1] == before[k - 1]);
                assert(all[k].0 == before[k].0);
            } else {
                assert(all[k - 1] == before.last());
            }
        }
    }
}

/// The correspondence of a text of `n` characters with itself: position `i`
/// corresponds to offset `i` and to no other.
pub open spec fn identity_map(n: nat) -> Seq<Seq<usize>> {
    Seq::new(n, |i: int| seq![i as usize])
}

/// The offsets from `a` up to, and without, `b`.
spec fn stretch(a: int, b: int) -> Seq<usize> {
    Seq::new((b - a) as nat, |i: int| (a + i) as usize)
}

/// Through the identity a span reaches its own offsets.
proof fn lemma_identity_reach(a: int, b: int, n: nat)
    requires
        0 <= a < b <= n,
    ensures
        identity_map(n).subrange(a, b).flatten() == stretch(a, b),
    decreases b - a,
{
    let id = identity_map(n);
    if b == a + 1 {
        id.subrange(a, b).lemma_flatten_singleton();
        assert(id.subrange(a, b)[0] == stretch(a, b));
    } else {
        lemma_identity_reach(a, b - 1, n);
        assert(id.subrange(a, b) == id.subrange(a, b - 1).push(id[b - 1]));
        id.subrange(a, b - 1).lemma_flatten_push(id[b - 1]);
        assert(stretch(a, b - 1) + id[b - 1] == stretch(a, b));
    }
}

/// Offsets that follow one another without a gap make one run.
proof fn lemma_stretch_is_one_run(a: int, b: int)
    requires
        0 <= a < b <= usize::MAX,
    ensures
        runs(stretch(a, b)) == seq![(a as usize, b as usize)],
    decreases b - a,
{
    if b > a + 1 {
        lemma_stretch_is_one_run(a, b - 1);
        assert(stretch(a, b).drop_last() == stretch(a, b - 1));
        let before = seq![(a as usize, (b - 1) as usize)];
        assert(before.drop_last().push((before.last().0, b as usize)) == seq![
            (a as usize, b as usize),
        ]);
    }
}

/// Through the correspondence of a text with itself a span that covers
/// something within the text is projected onto itself, as one run.
pub proof fn lemma_identity_projection(span: Span, n: nat)
    requires
        span.0 < span.1 <= n,
    ensures
        projected(span, identity_map(n)) == seq![span],
{
    lemma_identity_reach(span.0 as int, span.1 as int, n);
    lemma_stretch_is_one_run(span.0 as int, span.1 as int);
}

/// Projects each of `spans` through `mapping`, where `mapping[i]` lists the
/// offsets that position `i` corresponds to.
///
/// The result holds one list of runs for each span, in the order of the
/// spans. A span whose start is not below its end gives no run, and positions
/// at or beyond the length of `mapping` reach nothing.
pub fn align_spans_by_mapping(spans: &[Span], mapping: &[Vec<usize>]) -> (res: Vec<Vec<Span>>)
    requires
        forall|k: int|
            0 <= k < spans@.len() ==> offsets_have_successors(
                #[trigger] spans@[k],
                offsets(mapping@),
            ),
    ensures
        res@.len() == spans@.len(),
        forall|k: int|
            0 <= k < spans@.len() ==> (#[trigger] res@[k])@ == projected(
                spans@[k],
                offsets(mapping@),
            ),
        forall|k: int|
            0 <= k < spans@.len() && spans@[k].0 >= spans@[k].1 ==> (#[trigger] res@[k])@.len() == 0,
{
    let ghost m = offsets(mapping@);
    let mut ret: Vec<Vec<Span>> = Vec::new();
    for k in 0..spans.len()
        invariant
            m == offsets(mapping@),
            forall|k: int| 0 <= k < spans@.len() ==> offsets_have_successors(#[trigger] spans@[k], m),
            ret@.len() == k,
            forall|j: int| 0 <= j < k ==> (#[trigger] ret@[j])@ == projected(spans@[j], m),
    {
        let (start, end) = spans[k];
        let stop = if end < mapping.len() {
            end
        } else {
            mapping.len()
        };
        let mut l: Option<usize> = None;
        let mut r: Option<usize> = None;
        let mut prevy: Option<usize> = None;
        let mut pret: Vec<Span> = Vec::new();
        let ghost mut ys: Seq<usize> = Seq::empty();
        let mut i = start;
        proof {
            assert(offsets_have_successors(spans@[k as int], m));
            if start < stop {
                assert(m.subrange(start as int, start as int) =~= Seq::<Seq<usize>>::empty());
            }
        }
        while i < stop
            invariant
                m == offsets(mapping@),
                offsets_have_successors((start, end), m),
                stop == stop_of((start, end), m.len()),
                start <= i,
                i <= stop || start >= stop,
                start < stop ==> ys == m.subrange(start as int, i as int).flatten(),
                start >= stop ==> ys.len() == 0,
                walk_state(pret@, l, r, prevy, ys),
            decreases stop - i,
        {
            let bucket = &mapping[i];
            let ghost seen = ys;
            for j in 0..bucket.len()
                invariant
                    m == offsets(mapping@),
                    offsets_have_successors((start, end), m),
                    start <= i < stop,
                    stop == stop_of((start, end), m.len()),
                    bucket@ == m[i as int],
                    ys == seen + bucket@.take(j as int),
                    walk_state(pret@, l, r, prevy, ys),
            {
                let y = bucket[j];
                proof {
                    assert(m[i as int][j as int] < usize::MAX);
                    assert(bucket@.take(j + 1) == bucket@.take(j as int).push(y));
                    assert(seen + bucket@.take(j + 1) == ys.push(y));
                    if ys.len() > 0 {
                        lemma_walk_step(pret@, l.unwrap(), r.unwrap(), ys, y);
                    } else {
                        assert(pret@.push((y, (y + 1) as usize)) == runs(ys.push(y)));
                    }
                }
                if prevy.is_some() && prevy.unwrap() + 1 < y {
                    pret.push((l.unwrap(), r.unwrap()));
                    l = None;
                } else {
                    r = Some(y + 1);
                }
                if l.is_none() {
                    l = Some(y);
                    r = Some(y + 1);
                }
                prevy = Some(y);
                proof {
                    ys = ys.push(y);
                }
            }
            proof {
                assert(bucket@.take(bucket@.len() as int) == bucket@);
                assert(m.subrange(start as int, i + 1) == m.subrange(start as int, i as int).push(
                    m[i as int],
                ));
                m.subrange(start as int, i as int).lemma_flatten_push(m[i as int]);
            }
            i += 1;
        }
        if let Some(first) = l {
            pret.push((first, r.unwrap()));
        }
        assert(ys == reached((start, end), m));
        ret.push(pret);
    }
    ret
}

} // verus!
