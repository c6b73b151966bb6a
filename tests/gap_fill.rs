use gapfill::bucket::{floor_align_exec, GapFillError, GapFillParams, TimeBound};
use gapfill::plan::{check_partition, check_single_input, join_exprs, sort_order, split_exprs};
use gapfill::stream::{gap_fill, GapFillStream, Row};

const MINUTE: i64 = 60_000_000_000;

fn minutes(start: TimeBound, end: TimeBound) -> GapFillParams {
    GapFillParams::try_new(MINUTE, 0, start, end).unwrap()
}

/// Runs a gap fill over `(series, minute, value)` rows and renders the output
/// with the values of the rows that pass through.
fn run(params: &GapFillParams, rows: &[(u64, i64, f64)]) -> Vec<(u64, i64, Option<f64>)> {
    let input: Vec<(u64, i64)> = rows.iter().map(|r| (r.0, r.1 * MINUTE)).collect();
    let out = gap_fill(params, &input).unwrap();
    out.iter()
        .map(|r: &Row| {
            assert_eq!(r.time % MINUTE, 0);
            (r.series, r.time / MINUTE, r.source.map(|i| rows[i].2))
        })
        .collect()
}

const A: u64 = 0;
const B: u64 = 1;

#[test]
fn single_series_single_hole() {
    let p = minutes(TimeBound::Included(0), TimeBound::Excluded(5 * MINUTE));
    let out = run(&p, &[(A, 0, 10.0), (A, 2, 12.0), (A, 4, 14.0)]);
    assert_eq!(
        out,
        vec![
            (A, 0, Some(10.0)),
            (A, 1, None),
            (A, 2, Some(12.0)),
            (A, 3, None),
            (A, 4, Some(14.0)),
        ]
    );
}

#[test]
fn two_series_staggered() {
    let p = minutes(TimeBound::Included(0), TimeBound::Excluded(3 * MINUTE));
    let out = run(&p, &[(A, 1, 1.0), (B, 2, 2.0)]);
    assert_eq!(
        out,
        vec![
            (A, 0, None),
            (A, 1, Some(1.0)),
            (A, 2, None),
            (B, 0, None),
            (B, 1, None),
            (B, 2, Some(2.0)),
        ]
    );
}

#[test]
fn empty_input_gives_empty_output() {
    let p = minutes(TimeBound::Included(0), TimeBound::Excluded(60 * MINUTE));
    assert_eq!(run(&p, &[]), vec![]);
}

#[test]
fn single_row_at_range_start() {
    let p = minutes(TimeBound::Included(0), TimeBound::Excluded(3 * MINUTE));
    let out = run(&p, &[(A, 0, 5.0)]);
    assert_eq!(out, vec![(A, 0, Some(5.0)), (A, 1, None), (A, 2, None)]);
}

#[test]
fn excluded_start_included_end() {
    let p = minutes(TimeBound::Excluded(0), TimeBound::Included(3 * MINUTE));
    let out = run(&p, &[(A, 2, 2.0)]);
    assert_eq!(out, vec![(A, 1, None), (A, 2, Some(2.0)), (A, 3, None)]);
}

#[test]
fn ordering_violation_fails_after_first_row() {
    let p = minutes(TimeBound::Included(0), TimeBound::Excluded(5 * MINUTE));
    let mut st = GapFillStream::new(p);
    let mut out = Vec::new();
    assert_eq!(st.push_row(A, 2 * MINUTE, &mut out), Ok(()));
    assert_eq!(out.last(), Some(&Row { series: A, time: 2 * MINUTE, source: Some(0) }));
    let before = out.len();
    assert_eq!(
        st.push_row(A, MINUTE, &mut out),
        Err(GapFillError::OutOfOrder(1))
    );
    assert_eq!(out.len(), before);
    let input = vec![(A, 2 * MINUTE), (A, MINUTE)];
    assert_eq!(gap_fill(&p, &input), Err(GapFillError::OutOfOrder(1)));
}

#[test]
fn series_out_of_order_fails() {
    let p = minutes(TimeBound::Included(0), TimeBound::Excluded(5 * MINUTE));
    let input = vec![(B, 0), (A, MINUTE)];
    assert_eq!(gap_fill(&p, &input), Err(GapFillError::OutOfOrder(1)));
}

#[test]
fn refilling_is_a_no_op() {
    let p = minutes(TimeBound::Included(0), TimeBound::Excluded(4 * MINUTE));
    let input = vec![(A, MINUTE), (B, 0), (B, 3 * MINUTE)];
    let once = gap_fill(&p, &input).unwrap();
    let again_in: Vec<(u64, i64)> = once.iter().map(|r| (r.series, r.time)).collect();
    let twice = gap_fill(&p, &again_in).unwrap();
    let a: Vec<(u64, i64)> = twice.iter().map(|r| (r.series, r.time)).collect();
    assert_eq!(a, again_in);
    assert!(twice.iter().all(|r| r.source.is_some()));
}

#[test]
fn rows_outside_range_pass_through_without_fillers() {
    let p = minutes(TimeBound::Included(2 * MINUTE), TimeBound::Excluded(4 * MINUTE));
    let out = run(&p, &[(A, 0, 1.0), (A, 5, 2.0)]);
    assert_eq!(
        out,
        vec![(A, 0, Some(1.0)), (A, 2, None), (A, 3, None), (A, 5, Some(2.0))]
    );
}

#[test]
fn duplicate_rows_pass_through() {
    let p = minutes(TimeBound::Included(0), TimeBound::Excluded(2 * MINUTE));
    let out = run(&p, &[(A, 1, 1.0), (A, 1, 2.0)]);
    assert_eq!(out, vec![(A, 0, None), (A, 1, Some(1.0)), (A, 1, Some(2.0))]);
}

#[test]
fn unaligned_bounds_snap_to_buckets() {
    let p = GapFillParams::try_new(10, 3, TimeBound::Included(5), TimeBound::Excluded(33)).unwrap();
    assert_eq!(p.lo, 13);
    assert_eq!(p.hi, 23);
    let p = GapFillParams::try_new(10, 3, TimeBound::Excluded(13), TimeBound::Included(33)).unwrap();
    assert_eq!(p.lo, 23);
    assert_eq!(p.hi, 33);
}

#[test]
fn empty_range_emits_only_input() {
    let p = minutes(TimeBound::Included(3 * MINUTE), TimeBound::Excluded(3 * MINUTE));
    assert!(p.lo > p.hi);
    let out = run(&p, &[(A, 3, 1.0)]);
    assert_eq!(out, vec![(A, 3, Some(1.0))]);
}

#[test]
fn extreme_bounds() {
    let p = GapFillParams::try_new(i64::MAX, 0, TimeBound::Included(i64::MIN), TimeBound::Included(i64::MAX))
        .unwrap();
    assert_eq!(p.lo, -(i64::MAX as i128));
    assert_eq!(p.hi, i64::MAX as i128);
    let out = gap_fill(&p, &vec![(A, 0)]).unwrap();
    let times: Vec<i64> = out.iter().map(|r| r.time).collect();
    assert_eq!(times, vec![-i64::MAX, 0, i64::MAX]);
}

#[test]
fn floor_align_negative_times() {
    assert_eq!(floor_align_exec(-1, 0, 10), -10);
    assert_eq!(floor_align_exec(-10, 0, 10), -10);
    assert_eq!(floor_align_exec(7, 3, 5), 3);
    assert_eq!(floor_align_exec(2, 3, 5), -2);
}

#[test]
fn bad_stride_and_unbounded_range_are_refused() {
    let e = GapFillParams::try_new(0, 0, TimeBound::Included(0), TimeBound::Included(1));
    assert_eq!(e.unwrap_err(), GapFillError::NonPositiveStride);
    let e = GapFillParams::try_new(-5, 0, TimeBound::Included(0), TimeBound::Included(1));
    assert_eq!(e.unwrap_err(), GapFillError::NonPositiveStride);
    let e = GapFillParams::try_new(5, 0, TimeBound::Unbounded, TimeBound::Included(1));
    assert_eq!(e.unwrap_err(), GapFillError::UnboundedRange);
    let e = GapFillParams::try_new(5, 0, TimeBound::Included(0), TimeBound::Unbounded);
    assert_eq!(e.unwrap_err(), GapFillError::UnboundedRange);
}

#[test]
fn time_column_sorts_last() {
    // loc, date_bin(time), concat(loc)
    let order = sort_order(&vec![Some(0), Some(1), None], 1).unwrap();
    assert_eq!(order, vec![0, 2, 1]);
    let order = sort_order(&vec![Some(0)], 0).unwrap();
    assert_eq!(order, vec![0]);
    let order = sort_order(&vec![Some(4), Some(2), Some(3)], 4).unwrap();
    assert_eq!(order, vec![2, 1, 0]);
}

#[test]
fn missing_time_column_is_refused() {
    assert_eq!(sort_order(&vec![Some(0), None], 1), Err(GapFillError::MissingTimeColumn));
    assert_eq!(sort_order(&vec![], 0), Err(GapFillError::MissingTimeColumn));
}

#[test]
fn expressions_split_back() {
    let all = join_exprs(vec!["loc", "time"], vec!["temp"]);
    assert_eq!(all, vec!["loc", "time", "temp"]);
    let (g, a) = split_exprs(all, 2);
    assert_eq!(g, vec!["loc", "time"]);
    assert_eq!(a, vec!["temp"]);
}

#[test]
fn single_input_and_partition() {
    assert_eq!(check_single_input(1), Ok(()));
    assert_eq!(check_single_input(2), Err(GapFillError::WrongInputCount(2)));
    assert_eq!(check_single_input(0), Err(GapFillError::WrongInputCount(0)));
    assert_eq!(check_partition(0), Ok(()));
    assert_eq!(check_partition(1), Err(GapFillError::InvalidPartition(1)));
}

#[test]
fn three_series_sorted_and_covered() {
    let p = minutes(TimeBound::Included(0), TimeBound::Included(2 * MINUTE));
    let input = vec![(0, MINUTE), (2, 0), (2, 2 * MINUTE), (5, MINUTE)];
    let out = gap_fill(&p, &input).unwrap();
    let keys: Vec<(u64, i64)> = out.iter().map(|r| (r.series, r.time / MINUTE)).collect();
    assert_eq!(
        keys,
        vec![(0, 0), (0, 1), (0, 2), (2, 0), (2, 1), (2, 2), (5, 0), (5, 1), (5, 2)]
    );
    let passed: Vec<usize> = out.iter().filter_map(|r| r.source).collect();
    assert_eq!(passed, vec![0, 1, 2, 3]);
    assert!(out.windows(2).all(|w| (w[0].series, w[0].time) < (w[1].series, w[1].time)));
}

#[test]
fn stream_in_pieces_matches_whole_input() {
    let p = minutes(TimeBound::Included(0), TimeBound::Excluded(3 * MINUTE));
    let mut st = GapFillStream::new(p);
    let mut first = Vec::new();
    st.push_row(A, MINUTE, &mut first).unwrap();
    assert_eq!(
        first,
        vec![
            Row { series: A, time: 0, source: None },
            Row { series: A, time: MINUTE, source: Some(0) },
        ]
    );
    let mut second = Vec::new();
    st.push_row(B, 2 * MINUTE, &mut second).unwrap();
    assert_eq!(
        second,
        vec![
            Row { series: A, time: 2 * MINUTE, source: None },
            Row { series: B, time: 0, source: None },
            Row { series: B, time: MINUTE, source: None },
            Row { series: B, time: 2 * MINUTE, source: Some(1) },
        ]
    );
    let mut rest = Vec::new();
    st.finish(&mut rest);
    assert!(rest.is_empty());
    let whole = gap_fill(&p, &vec![(A, MINUTE), (B, 2 * MINUTE)]).unwrap();
    let mut pieces = first;
    pieces.extend(second);
    assert_eq!(pieces, whole);
}

#[test]
fn finish_fills_the_tail() {
    let p = minutes(TimeBound::Included(0), TimeBound::Excluded(3 * MINUTE));
    let mut st = GapFillStream::new(p);
    let mut out = Vec::new();
    st.push_row(A, 0, &mut out).unwrap();
    out.clear();
    st.finish(&mut out);
    assert_eq!(
        out,
        vec![
            Row { series: A, time: MINUTE, source: None },
            Row { series: A, time: 2 * MINUTE, source: None },
        ]
    );
}
