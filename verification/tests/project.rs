use textspan::align_spans_by_mapping;
use textspan::Span;

#[test]
fn align_spans_by_mapping_handmade() {
    for (case, expected) in vec![
        ((vec![], vec![]), vec![]),
        (
            (
                vec![(1, 3), (4, 6)],
                vec![
                    vec![0],
                    vec![1],
                    vec![2],
                    vec![5],
                    vec![6],
                    vec![9],
                    vec![10],
                ],
            ),
            vec![vec![(1, 3)], vec![(6, 7), (9, 10)]],
        ),
    ]
    .iter()
    {
        let (spans, mapping): &(Vec<Span>, Vec<Vec<usize>>) = case;
        assert_eq!(align_spans_by_mapping(spans, mapping), *expected);
    }
}

#[test]
fn projection_with_gaps() {
    let spans = [(0, 2), (3, 4)];
    let mapping = [vec![0, 1], vec![], vec![2], vec![4, 5, 6]];
    assert_eq!(
        align_spans_by_mapping(&spans, &mapping),
        [[(0, 2)], [(4, 7)]]
    );
}

#[test]
fn projection_of_no_spans_is_empty() {
    let mapping = vec![vec![0], vec![1, 2], vec![]];
    let expected: Vec<Vec<Span>> = vec![];
    assert_eq!(align_spans_by_mapping(&[], &mapping), expected);
    assert_eq!(align_spans_by_mapping(&[], &[]), expected);
}

#[test]
fn projection_of_empty_span_has_no_runs() {
    let mapping = vec![vec![0], vec![1, 2], vec![7]];
    let none: Vec<Span> = vec![];
    assert_eq!(align_spans_by_mapping(&[(1, 1)], &mapping), vec![none.clone()]);
    assert_eq!(align_spans_by_mapping(&[(2, 0)], &mapping), vec![none.clone()]);
    // an inverted span far outside the mapping is not looked up either
    assert_eq!(align_spans_by_mapping(&[(90, 80)], &mapping), vec![none.clone()]);
    assert_eq!(align_spans_by_mapping(&[(0, 0)], &[]), vec![none]);
}

#[test]
fn projection_stops_at_the_end_of_the_mapping() {
    let mapping = vec![vec![0], vec![1], vec![2]];
    assert_eq!(align_spans_by_mapping(&[(1, 10)], &mapping), vec![vec![(1, 3)]]);
    let none: Vec<Span> = vec![];
    assert_eq!(align_spans_by_mapping(&[(3, 10)], &mapping), vec![none.clone()]);
    assert_eq!(align_spans_by_mapping(&[(7, 10)], &mapping), vec![none]);
}

#[test]
fn projection_over_unmapped_positions() {
    let mapping = vec![vec![], vec![], vec![4], vec![]];
    let none: Vec<Span> = vec![];
    assert_eq!(align_spans_by_mapping(&[(0, 2)], &mapping), vec![none]);
    assert_eq!(align_spans_by_mapping(&[(0, 4)], &mapping), vec![vec![(4, 5)]]);
}

#[test]
fn projection_splits_only_on_a_gap() {
    // 0 then 2: a gap, two runs
    assert_eq!(
        align_spans_by_mapping(&[(0, 2)], &[vec![0], vec![2]]),
        vec![vec![(0, 1), (2, 3)]]
    );
    // 0 then 1: no gap
    assert_eq!(
        align_spans_by_mapping(&[(0, 2)], &[vec![0], vec![1]]),
        vec![vec![(0, 2)]]
    );
    // the same offset twice: no gap
    assert_eq!(
        align_spans_by_mapping(&[(0, 2)], &[vec![1], vec![1]]),
        vec![vec![(1, 2)]]
    );
    // a gap inside one bucket
    assert_eq!(
        align_spans_by_mapping(&[(0, 1)], &[vec![3, 4, 8, 9]]),
        vec![vec![(3, 5), (8, 10)]]
    );
}

#[test]
fn projection_keeps_the_literal_rule_for_descending_offsets() {
    // a smaller offset never closes the run: the run keeps its start and
    // ends one beyond the offset met last
    assert_eq!(
        align_spans_by_mapping(&[(0, 3)], &[vec![5], vec![3], vec![4]]),
        vec![vec![(5, 5)]]
    );
    assert_eq!(
        align_spans_by_mapping(&[(0, 3)], &[vec![5], vec![3], vec![9]]),
        vec![vec![(5, 4), (9, 10)]]
    );
}

#[test]
fn projection_gives_one_list_per_span_in_order() {
    let mapping = vec![vec![10], vec![11], vec![20], vec![21]];
    let none: Vec<Span> = vec![];
    assert_eq!(
        align_spans_by_mapping(&[(2, 4), (0, 0), (0, 4), (0, 2)], &mapping),
        vec![
            vec![(20, 22)],
            none,
            vec![(10, 12), (20, 22)],
            vec![(10, 12)]
        ]
    );
}

#[test]
fn projection_through_identity_returns_the_span() {
    let mapping: Vec<Vec<usize>> = (0..6).map(|i| vec![i]).collect();
    for l in 0..6 {
        for r in (l + 1)..=6 {
            assert_eq!(align_spans_by_mapping(&[(l, r)], &mapping), vec![vec![(l, r)]]);
        }
    }
}

fn mapping_from_steps(steps: &[(u8, u8)]) -> Vec<Vec<usize>> {
    // offsets that never descend: each bucket starts `d` beyond the offset
    // met last and holds `n` offsets in a row
    let mut next = 0usize;
    let mut mapping = vec![];
    for &(d, n) in steps {
        next += (d % 4) as usize;
        let n = (n % 5) as usize;
        mapping.push((next..next + n).collect::<Vec<usize>>());
        if n > 0 {
            next += n - 1;
        }
    }
    mapping
}

fn runs_cover_what_the_span_reaches(steps: Vec<(u8, u8)>, start: usize, end: usize) -> bool {
    let mapping = mapping_from_steps(&steps);
    let start = start % (mapping.len() + 1);
    let end = end % (mapping.len() + 1);
    let ret = align_spans_by_mapping(&[(start, end)], &mapping);
    if ret.len() != 1 {
        return false;
    }
    let runs = &ret[0];
    let reached: Vec<usize> = if start < end {
        mapping[start..end].iter().flatten().cloned().collect()
    } else {
        vec![]
    };
    if reached.is_empty() {
        return runs.is_empty();
    }
    // the runs lie apart, begin at the first offset reached and end one
    // beyond the last, and hold every offset reached
    runs.windows(2).all(|pair| pair[0].1 < pair[1].0)
        && runs[0].0 == reached[0]
        && runs[runs.len() - 1].1 == reached[reached.len() - 1] + 1
        && reached
            .iter()
            .all(|&y| runs.iter().any(|&(l, r)| l <= y && y < r))
}

#[test]
fn align_spans_by_mapping_quick() {
    quickcheck::quickcheck(
        runs_cover_what_the_span_reaches as fn(Vec<(u8, u8)>, usize, usize) -> bool,
    );
}

#[test]
fn runs_cover_what_the_span_reaches_on_chosen_values() {
    assert!(runs_cover_what_the_span_reaches(
        vec![(0, 2), (1, 0), (3, 1), (2, 4), (0, 0), (1, 1)],
        1,
        6
    ));
    assert_eq!(
        mapping_from_steps(&[(0, 2), (1, 0), (3, 1), (2, 4)]),
        vec![vec![0, 1], vec![], vec![5], vec![7, 8, 9, 10]]
    );
}
