//! Lifting of spans onto the indices of a reference partition.
//!
//! A boundary of a span is reported as a match or as an insertion point. A
//! match, `Ok(i)`, names a span of the partition whose edge is the boundary:
//! span `i` for a start, span `i - 1` for an end. An insertion point,
//! `Err(i)`, gives the number of spans of the partition that lie before the
//! boundary.
use vstd::prelude::*;
use crate::Span;

verus! {

/// A reference partition: every span has its start at or before its end, and
/// each span ends at or before the start of every later one.
pub open spec fn is_partition(t: Seq<Span>) -> bool {
    &&& forall|i: int| 0 <= i < t.len() ==> (#[trigger] t[i]).0 <= t[i].1
    &&& forall|i: int, j: int|
        0 <= i < j < t.len() ==> (#[trigger] t[i]).1 <= (#[trigger] t[j]).0
}

/// The number of spans of `t` that end at or before `x`.
pub open spec fn ends_up_to(t: Seq<Span>, x: int) -> int
    decreases t.len(),
{
    if t.len() == 0 {
        0
    } else {
        ends_up_to(t.drop_last(), x) + if t.last().1 <= x { 1int } else { 0int }
    }
}

/// The number of spans of `t` that start before `x`.
pub open spec fn starts_below(t: Seq<Span>, x: int) -> int
    decreases t.len(),
{
    if t.len() == 0 {
        0
    } else {
        starts_below(t.drop_last(), x) + if t.last().0 < x { 1int } else { 0int }
    }
}

/// The outcome for a start boundary `l` that has `c` spans of `t` before it:
/// a match where span `c` starts at `l`, an insertion point otherwise.
pub open spec fn start_outcome(t: Seq<Span>, c: int, l: usize) -> Result<usize, usize> {
    if c < t.len() && t[c].0 == l {
        Ok(c as usize)
    } else {
        Err(c as usize)
    }
}

/// The outcome for an end boundary `r` that has `e` spans of `t` before it:
/// a match where span `e - 1` ends at `r`, an insertion point otherwise.
pub open spec fn end_outcome(t: Seq<Span>, e: int, r: usize) -> Result<usize, usize> {
    if e > 0 && t[e - 1].1 == r {
        Ok(e as usize)
    } else {
        Err(e as usize)
    }
}

/// Where a span that starts at `l` begins in the partition `t`, with the
/// spans of `t` that end at or before `top` taken to lie before it. A first
/// span of `t` that starts at `l` is always a match, even when it is empty.
pub open spec fn start_boundary_past(t: Seq<Span>, top: int, l: usize) -> Result<usize, usize> {
    if t.len() == 0 {
        Err(0)
    } else if t[0].0 == l {
        Ok(0)
    } else {
        start_outcome(t, ends_up_to(t, top), l)
    }
}

/// Where a span that starts at `l` begins in the partition `t`: after the
/// spans of `t` that end at or before `l`.
pub open spec fn start_boundary(t: Seq<Span>, l: usize) -> Result<usize, usize> {
    start_boundary_past(t, l as int, l)
}

/// Where a span that ends at `r` stops in the partition `t`. A first span of
/// `t` that ends at `r` is always a match, even when it is empty.
pub open spec fn end_boundary(t: Seq<Span>, r: usize) -> Result<usize, usize> {
    if t.len() == 0 {
        Err(0)
    } else if t[0].1 == r {
        Ok(1)
    } else {
        end_outcome(t, starts_below(t, r as int), r)
    }
}

/// Both boundaries of `span` in the partition `t`.
pub open spec fn lifted(span: Span, t: Seq<Span>) -> (Result<usize, usize>, Result<usize, usize>) {
    (start_boundary(t, span.0), end_boundary(t, span.1))
}

/// A count of ends is pinned by a split of `t` at `c`: the spans before `c`
/// end at or before `x`, the others after it.
pub proof fn lemma_ends_split(t: Seq<Span>, x: int, c: int)
    requires
        0 <= c <= t.len(),
        forall|i: int| 0 <= i < c ==> (#[trigger] t[i]).1 <= x,
        forall|i: int| c <= i < t.len() ==> (#[trigger] t[i]).1 > x,
    ensures
        ends_up_to(t, x) == c,
    decreases t.len(),
{
    if t.len() > 0 {
        let p = t.drop_last();
        if c == t.len() {
            lemma_ends_split(p, x, c - 1);
        } else {
            lemma_ends_split(p, x, c);
        }
    }
}

/// A count of starts is pinned by a split of `t` at `e`: the spans before `e`
/// start before `x`, the others at or after it.
pub proof fn lemma_starts_split(t: Seq<Span>, x: int, e: int)
    requires
        0 <= e <= t.len(),
        forall|i: int| 0 <= i < e ==> (#[trigger] t[i]).0 < x,
        forall|i: int| e <= i < t.len() ==> (#[trigger] t[i]).0 >= x,
    ensures
        starts_below(t, x) == e,
    decreases t.len(),
{
    if t.len() > 0 {
        let p = t.drop_last();
        if e == t.len() {
            lemma_starts_split(p, x, e - 1);
        } else {
            lemma_starts_split(p, x, e);
        }
    }
}

/// In a partition the spans that end at or before `x` are exactly the first
/// `ends_up_to(t, x)` ones.
pub proof fn lemma_ends_prefix(t: Seq<Span>, x: int)
    requires
        is_partition(t),
    ensures
        0 <= ends_up_to(t, x) <= t.len(),
        forall|i: int| 0 <= i < ends_up_to(t, x) ==> (#[trigger] t[i]).1 <= x,
        forall|i: int| ends_up_to(t, x) <= i < t.len() ==> (#[trigger] t[i]).1 > x,
    decreases t.len(),
{
    if t.len() > 0 {
        let p = t.drop_last();
        assert(is_partition(p));
        lemma_ends_prefix(p, x);
        let c = ends_up_to(p, x);
        if t.last().1 <= x {
            assert forall|i: int| 0 <= i < p.len() implies (#[trigger] p[i]).1 <= x by {
                assert(t[i].1 <= t[t.len() - 1].0);
            }
            assert(c == p.len());
        }
        assert forall|i: int| ends_up_to(t, x) <= i < t.len() implies (#[trigger] t[i]).1 > x by {
            if i < p.len() {
                assert(p[i].1 > x);
            }
        }
        assert forall|i: int| 0 <= i < ends_up_to(t, x) implies (#[trigger] t[i]).1 <= x by {
            if i < p.len() {
                assert(p[i].1 <= x);
            }
        }
    }
}

/// In a partition the spans that start before `x` are exactly the first
/// `starts_below(t, x)` ones.
pub proof fn lemma_starts_prefix(t: Seq<Span>, x: int)
    requires
        is_partition(t),
    ensures
        0 <= starts_below(t, x) <= t.len(),
        forall|i: int| 0 <= i < starts_below(t, x) ==> (#[trigger] t[i]).0 < x,
        forall|i: int| starts_below(t, x) <= i < t.len() ==> (#[trigger] t[i]).0 >= x,
    decreases t.len(),
{
    if t.len() > 0 {
        let p = t.drop_last();
        assert(is_partition(p));
        lemma_starts_prefix(p, x);
        let e = starts_below(p, x);
        if t.last().0 < x {
            assert forall|i: int| 0 <= i < p.len() implies (#[trigger] p[i]).0 < x by {
                assert(t[i].0 <= t[i].1);
                assert(t[i].1 <= t[t.len() - 1].0);
            }
            assert(e == p.len());
        }
        assert forall|i: int| starts_below(t, x) <= i < t.len() implies (#[trigger] t[i]).0
            >= x by {
            if i < p.len() {
                assert(p[i].0 >= x);
            }
        }
        assert forall|i: int| 0 <= i < starts_below(t, x) implies (#[trigger] t[i]).0 < x by {
            if i < p.len() {
                assert(p[i].0 < x);
            }
        }
    }
}

/// What each outcome of a lifting tells: a match names a span of the
/// partition whose edge is the boundary, and an insertion point is the number
/// of spans that lie before the boundary. No index is beyond the number of
/// spans.
pub proof fn lemma_outcomes_meet_edges(span: Span, t: Seq<Span>)
    requires
        is_partition(t),
        t.len() <= usize::MAX,
    ensures
        match lifted(span, t).0 {
            Ok(i) => i < t.len() && t[i as int].0 == span.0,
            Err(i) => i <= t.len() && i == ends_up_to(t, span.0 as int),
        },
        match lifted(span, t).1 {
            Ok(i) => 0 < i <= t.len() && t[i - 1].1 == span.1,
            Err(i) => i <= t.len() && i == starts_below(t, span.1 as int),
        },
{
    lemma_ends_prefix(t, span.0 as int);
    lemma_starts_prefix(t, span.1 as int);
}

/// Lifts `span` onto the indices of the partition `target_spans`.
///
/// The first component tells where the span starts: `Ok(i)` where span `i` of
/// the partition starts there, else `Err(i)` with `i` the number of spans
/// that end at or before the start. The second tells where it ends: `Ok(i)`
/// where span `i - 1` ends there, else `Err(i)` with `i` the number of spans
/// that start before the end. On an empty partition both are `Err(0)`.
pub fn lift_span_index(span: Span, target_spans: &[Span]) -> (res: (
    Result<usize, usize>,
    Result<usize, usize>,
))
    requires
        is_partition(target_spans@),
    ensures
        res == lifted(span, target_spans@),
{
    let n = target_spans.len();
    if n == 0 {
        return (Err(0), Err(0));
    }
    let (l, r) = span;
    let ghost t = target_spans@;
    let li = if target_spans[0].0 == l {
        Ok(0)
    } else if target_spans[0].1 > l {
        proof {
            assert forall|i: int| 0 <= i < t.len() implies (#[trigger] t[i]).1 > l by {
                if i > 0 {
                    assert(t[0].1 <= t[i].0);
                }
            }
            lemma_ends_split(t, l as int, 0);
        }
        Err(0)
    } else {
        let mut ok: usize = n;
        let mut ng: usize = 0;
        while ok - ng > 1
            invariant
                t == target_spans@,
                n == t.len(),
                is_partition(t),
                ng < ok <= n,
                t[ng as int].1 <= l,
                ok < n ==> t[ok as int].1 > l,
            decreases ok - ng,
        {
            let m = ng + (ok - ng) / 2;
            if target_spans[m].1 > l {
                ok = m;
            } else {
                ng = m;
            }
        }
        proof {
            assert forall|i: int| 0 <= i < ok implies (#[trigger] t[i]).1 <= l by {
                if i < ng {
                    assert(t[i].1 <= t[ng as int].0);
                }
            }
            assert forall|i: int| ok <= i < t.len() implies (#[trigger] t[i]).1 > l by {
                if i > ok {
                    assert(t[ok as int].1 <= t[i].0);
                }
            }
            lemma_ends_split(t, l as int, ok as int);
        }
        if ok < n && target_spans[ok].0 == l {
            Ok(ok)
        } else {
            Err(ok)
        }
    };
    let ri = if target_spans[0].1 == r {
        Ok(1)
    } else if target_spans[0].0 >= r {
        proof {
            assert forall|i: int| 0 <= i < t.len() implies (#[trigger] t[i]).0 >= r by {
                if i > 0 {
                    assert(t[0].1 <= t[i].0);
                }
            }
            lemma_starts_split(t, r as int, 0);
        }
        Err(0)
    } else {
        let mut ok: usize = n;
        let mut ng: usize = 0;
        while ok - ng > 1
            invariant
                t == target_spans@,
                n == t.len(),
                is_partition(t),
                ng < ok <= n,
                t[ng as int].0 < r,
                ok < n ==> t[ok as int].0 >= r,
            decreases ok - ng,
        {
            let m = ng + (ok - ng) / 2;
            if target_spans[m].0 >= r {
                ok = m;
            } else {
                ng = m;
            }
        }
        proof {
            assert forall|i: int| 0 <= i < ok implies (#[trigger] t[i]).0 < r by {
                if i < ng {
                    assert(t[i].1 <= t[ng as int].0);
                }
            }
            assert forall|i: int| ok <= i < t.len() implies (#[trigger] t[i]).0 >= r by {
                if i > ok {
                    assert(t[ok as int].1 <= t[i].0);
                }
            }
            lemma_starts_split(t, r as int, ok as int);
        }
        if target_spans[ok - 1].1 == r {
            Ok(ok)
        } else {
            Err(ok)
        }
    };
    (li, ri)
}

/// The largest start among the spans `spans[0]` to `spans[k]`.
pub open spec fn max_start(spans: Seq<Span>, k: int) -> int
    decreases k,
{
    if k <= 0 {
        spans[0].0 as int
    } else {
        let m = max_start(spans, k - 1);
        if spans[k].0 > m {
            spans[k].0 as int
        } else {
            m
        }
    }
}

/// Both boundaries of `spans[k]` as one pass over the partition `t` finds
/// them. The pass never moves back for a start: the spans of `t` that end at
/// or before the largest start met so far lie before every later start.
pub open spec fn swept(spans: Seq<Span>, t: Seq<Span>, k: int) -> (
    Result<usize, usize>,
    Result<usize, usize>,
) {
    (start_boundary_past(t, max_start(spans, k), spans[k].0), end_boundary(t, spans[k].1))
}

/// The starts of `spans` ascend.
pub open spec fn starts_ascend(spans: Seq<Span>) -> bool {
    forall|j: int, k: int|
        0 <= j < k < spans.len() ==> (#[trigger] spans[j]).0 <= (#[trigger] spans[k]).0
}

/// With ascending starts the largest start up to `k` is that of `spans[k]`.
pub proof fn lemma_max_start_ascending(spans: Seq<Span>, k: int)
    requires
        0 <= k < spans.len(),
        starts_ascend(spans),
    ensures
        max_start(spans, k) == spans[k].0,
    decreases k,
{
    if k > 0 {
        lemma_max_start_ascending(spans, k - 1);
        assert(spans[k - 1].0 <= spans[k].0);
    }
}

/// One pass over the partition gives, for each span, what a separate search
/// for that span gives, whenever the starts of the spans ascend.
pub proof fn lemma_batch_matches_single(spans: Seq<Span>, t: Seq<Span>, k: int)
    requires
        starts_ascend(spans),
        0 <= k < spans.len(),
    ensures
        swept(spans, t, k) == lifted(spans[k], t),
{
    lemma_max_start_ascending(spans, k);
}

/// Lifts each of `spans` onto the indices of the partition `target_spans` in
/// one pass, in which the place of a start never moves back over the
/// partition.
///
/// For spans whose starts ascend the outcomes are those of `lift_span_index`,
/// span by span.
pub fn lift_spans_index(spans: &[Span], target_spans: &[Span]) -> (res: Vec<
    (Result<usize, usize>, Result<usize, usize>),
>)
    requires
        is_partition(target_spans@),
    ensures
        res@.len() == spans@.len(),
        forall|k: int| 0 <= k < spans@.len() ==> res@[k] == swept(spans@, target_spans@, k),
        starts_ascend(spans@) ==> forall|k: int|
            0 <= k < spans@.len() ==> res@[k] == lifted(#[trigger] spans@[k], target_spans@),
{
    let n = target_spans.len();
    let ghost t = target_spans@;
    let mut ret: Vec<(Result<usize, usize>, Result<usize, usize>)> = Vec::new();
    let mut cur: usize = 0;
    for k in 0..spans.len()
        invariant
            t == target_spans@,
            n == t.len(),
            is_partition(t),
            cur <= n,
            k == 0 ==> cur == 0,
            k > 0 ==> cur == ends_up_to(t, max_start(spans@, k - 1)),
            ret@.len() == k,
            forall|j: int| 0 <= j < k ==> ret@[j] == swept(spans@, t, j),
    {
        let (l, r) = spans[k];
        let ghost before = cur;
        let ghost top = max_start(spans@, k as int);
        proof {
            if k > 0 {
                lemma_ends_prefix(t, max_start(spans@, k - 1));
            }
        }
        while cur < n && target_spans[cur].1 <= l
            invariant
                t == target_spans@,
                n == t.len(),
                before <= cur <= n,
                forall|i: int| 0 <= i < cur ==> (#[trigger] t[i]).1 <= top,
                top >= l,
            decreases n - cur,
        {
            cur += 1;
        }
        proof {
            assert forall|i: int| cur <= i < t.len() implies (#[trigger] t[i]).1 > top by {
                if i > cur {
                    assert(t[cur as int].1 <= t[i].0);
                    assert(t[i].0 <= t[i].1);
                }
            }
            lemma_ends_split(t, top, cur as int);
        }
        let li = if n > 0 && target_spans[0].0 == l {
            Ok(0)
        } else if cur < n && target_spans[cur].0 == l {
            Ok(cur)
        } else {
            Err(cur)
        };
        let mut end: usize = cur;
        while end < n && target_spans[end].0 < r
            invariant
                t == target_spans@,
                n == t.len(),
                cur <= end <= n,
                end > cur ==> t[end - 1].0 < r,
            decreases n - end,
        {
            end += 1;
        }
        while end > 0 && target_spans[end - 1].0 >= r
            invariant
                t == target_spans@,
                n == t.len(),
                end <= n,
                end < n ==> t[end as int].0 >= r,
            decreases end,
        {
            end -= 1;
        }
        proof {
            assert forall|i: int| 0 <= i < end implies (#[trigger] t[i]).0 < r by {
                if i < end - 1 {
                    assert(t[i].0 <= t[i].1);
                    assert(t[i].1 <= t[end - 1].0);
                }
            }
            assert forall|i: int| end <= i < t.len() implies (#[trigger] t[i]).0 >= r by {
                if i > end {
                    assert(t[end as int].0 <= t[end as int].1);
                    assert(t[end as int].1 <= t[i].0);
                }
            }
            lemma_starts_split(t, r as int, end as int);
        }
        let ri = if n > 0 && target_spans[0].1 == r {
            Ok(1)
        } else if end > 0 && target_spans[end - 1].1 == r {
            Ok(end)
        } else {
            Err(end)
        };
        ret.push((li, ri));
    }
    proof {
        if starts_ascend(spans@) {
            assert forall|k: int| 0 <= k < spans@.len() implies ret@[k] == lifted(
                #[trigger] spans@[k],
                t,
            ) by {
                lemma_batch_matches_single(spans@, t, k);
            }
        }
    }
    ret
}

} // verus!
