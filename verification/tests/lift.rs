use textspan::lift_span_index;
use textspan::lift_spans_index;
use textspan::remove_span_overlaps;
use textspan::Span;

#[test]
fn index_lifting() {
    let target_spans = [(0, 3), (3, 4), (4, 9), (9, 12)];
    assert_eq!(lift_span_index((0, 3), &target_spans), (Ok(0), Ok(1)));
    assert_eq!(lift_span_index((1, 4), &target_spans), (Err(0), Ok(2)));
    assert_eq!(lift_span_index((1, 5), &target_spans), (Err(0), Err(3)));
}

#[test]
fn index_lifting_over_a_full_partition() {
    let target_spans = [(0, 3), (3, 4), (4, 9), (9, 12)];
    assert_eq!(lift_span_index((0, 4), &target_spans), (Ok(0), Ok(2)));
    assert_eq!(lift_span_index((1, 9), &target_spans), (Err(0), Ok(3)));
    assert_eq!(lift_span_index((0, 9), &target_spans), (Ok(0), Ok(3)));
    assert_eq!(lift_span_index((1, 13), &target_spans), (Err(0), Err(4)));
    assert_eq!(lift_span_index((3, 4), &target_spans), (Ok(1), Ok(2)));
    assert_eq!(lift_span_index((4, 12), &target_spans), (Ok(2), Ok(4)));
    assert_eq!(lift_span_index((5, 10), &target_spans), (Err(2), Err(4)));
    assert_eq!(lift_span_index((9, 12), &target_spans), (Ok(3), Ok(4)));
    assert_eq!(lift_span_index((12, 15), &target_spans), (Err(4), Err(4)));
    assert_eq!(lift_span_index((2, 10), &target_spans), (Err(0), Err(4)));
}

#[test]
fn index_lifting_before_the_partition() {
    let target_spans = [(3, 4), (4, 9), (9, 12)];
    assert_eq!(lift_span_index((0, 9), &target_spans), (Err(0), Ok(2)));
    assert_eq!(lift_span_index((0, 2), &target_spans), (Err(0), Err(0)));
    assert_eq!(lift_span_index((0, 3), &target_spans), (Err(0), Err(0)));
}

#[test]
fn index_lifting_over_gaps() {
    let target_spans = [(3, 5), (5, 9), (11, 15)];
    assert_eq!(lift_span_index((9, 11), &target_spans), (Err(2), Err(2)));
    assert_eq!(lift_span_index((10, 11), &target_spans), (Err(2), Err(2)));
    assert_eq!(lift_span_index((10, 15), &target_spans), (Err(2), Ok(3)));
    assert_eq!(lift_span_index((11, 12), &target_spans), (Ok(2), Err(3)));
}

#[test]
fn index_lifting_degenerate() {
    assert_eq!(lift_span_index((0, 0), &[(0, 0)]), (Ok(0), Ok(1)));
    assert_eq!(lift_span_index((0, 0), &[]), (Err(0), Err(0)));
    assert_eq!(lift_span_index((4, 7), &[]), (Err(0), Err(0)));
}

#[test]
fn batched_index_lifting() {
    let target_spans = [(3, 5), (5, 9), (11, 15)];
    assert_eq!(lift_spans_index(&[(3, 9)], &target_spans), &[(Ok(0), Ok(2))]);
    assert_eq!(
        lift_spans_index(&[(0, 3), (3, 5), (6, 9), (9, 12), (15, 20)], &target_spans),
        &[
            (Err(0), Err(0)),
            (Ok(0), Ok(1)),
            (Err(1), Ok(2)),
            (Err(2), Err(3)),
            (Err(3), Err(3))
        ]
    );
    let none: Vec<(Result<usize, usize>, Result<usize, usize>)> = vec![];
    assert_eq!(lift_spans_index(&[], &target_spans), none);
    assert_eq!(lift_spans_index(&[(1, 2)], &[]), &[(Err(0), Err(0))]);
}

#[test]
fn batched_index_lifting_never_moves_back() {
    // the second span starts before the first: its start is placed where
    // the pass already stands
    let target_spans = [(0, 3), (3, 4), (4, 9)];
    assert_eq!(
        lift_spans_index(&[(4, 9), (3, 4)], &target_spans),
        &[(Ok(2), Ok(3)), (Err(2), Ok(2))]
    );
    assert_eq!(lift_span_index((3, 4), &target_spans), (Ok(1), Ok(2)));
}

#[test]
fn batched_index_lifting_degenerate() {
    assert_eq!(lift_spans_index(&[(0, 0)], &[(0, 0)]), &[(Ok(0), Ok(1))]);
    // empty spans of the partition at the boundaries of a span
    let target_spans = [(0, 2), (2, 2), (2, 5)];
    let spans = [(0, 2), (2, 2), (2, 2), (2, 5), (5, 5)];
    let single: Vec<_> = spans
        .iter()
        .map(|&span| lift_span_index(span, &target_spans))
        .collect();
    assert_eq!(
        single,
        vec![
            (Ok(0), Ok(1)),
            (Ok(2), Ok(1)),
            (Ok(2), Ok(1)),
            (Ok(2), Ok(3)),
            (Err(3), Ok(3))
        ]
    );
    assert_eq!(lift_spans_index(&spans, &target_spans), single);
}

#[test]
fn batched_index_lifting_of_inverted_spans() {
    let target_spans = [(0, 3), (3, 4), (4, 9)];
    let spans = [(4, 1), (9, 3), (9, 0)];
    let single: Vec<_> = spans
        .iter()
        .map(|&span| lift_span_index(span, &target_spans))
        .collect();
    assert_eq!(
        single,
        vec![(Ok(2), Err(1)), (Err(3), Ok(1)), (Err(3), Err(0))]
    );
    assert_eq!(lift_spans_index(&spans, &target_spans), single);
}

fn ascending_batch_matches_single(spans: Vec<Span>, target_spans: Vec<Span>) -> bool {
    // spans in the order of their starts only: they may overlap, be empty
    // or end before they start
    let mut spans = spans;
    spans.sort_by_key(|span| span.0);
    let target_spans = sanitize(target_spans);
    let single: Vec<_> = spans
        .iter()
        .cloned()
        .map(|span| lift_span_index(span, &target_spans))
        .collect();
    lift_spans_index(&spans, &target_spans) == single
}

#[test]
fn batched_index_lifting_matches_single_for_ascending_starts() {
    quickcheck::quickcheck(ascending_batch_matches_single as fn(Vec<Span>, Vec<Span>) -> bool);
}

#[test]
fn batched_index_lifting_matches_single_on_chosen_values() {
    let target_spans = [(0, 3), (3, 4), (4, 9), (9, 12), (20, 30)];
    let spans = [(0, 3), (1, 4), (1, 5), (3, 9), (9, 20), (12, 20), (13, 31), (40, 41)];
    let single: Vec<_> = spans
        .iter()
        .map(|&span| lift_span_index(span, &target_spans))
        .collect();
    assert_eq!(lift_spans_index(&spans, &target_spans), single);
}

fn sanitize(spans: Vec<Span>) -> Vec<Span> {
    let mut v = vec![];
    for (l, r) in spans {
        if l == r {
            continue;
        }
        if l > r {
            v.push((r, l));
        } else {
            v.push((l, r));
        }
    }
    let mut spans = remove_span_overlaps(&v);
    spans.sort_unstable();
    spans
}

fn batch_matches_single(spans: Vec<Span>, target_spans: Vec<Span>) -> bool {
    let spans = sanitize(spans);
    let target_spans = sanitize(target_spans);
    let single: Vec<_> = spans
        .iter()
        .cloned()
        .map(|span| lift_span_index(span, &target_spans))
        .collect();
    lift_spans_index(&spans, &target_spans) == single
}

#[test]
fn test_lift_spans_index() {
    quickcheck::quickcheck(batch_matches_single as fn(Vec<Span>, Vec<Span>) -> bool);
}
