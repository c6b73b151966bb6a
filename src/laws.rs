//! What holds of every gap fill over a sorted input.
use vstd::prelude::*;
use vstd::arithmetic::div_mod::{lemma_fundamental_div_mod, lemma_mod_multiples_basic};
use crate::bucket::{floor_align, lemma_range_limits, GapFillParams, TimeBound};
use crate::stream::{
    emitted, filled, finish_rows, first_after, gap_count, gap_rows, in_order, last_before,
    last_of, sorted_input, step_rows, Row,
};

verus! {

/// `a` comes no later than `b` in the order by series, then time.
pub open spec fn row_le(a: Row, b: Row) -> bool {
    a.series < b.series || (a.series == b.series && a.time <= b.time)
}

/// Rows sorted by series, then time.
pub open spec fn sorted_rows(rs: Seq<Row>) -> bool {
    forall|i: int| 0 < i < rs.len() ==> #[trigger] row_le(rs[i - 1], rs[i])
}

/// `a` comes strictly before `b` in the order by series, then time.
pub open spec fn row_lt(a: Row, b: Row) -> bool {
    a.series < b.series || (a.series == b.series && a.time < b.time)
}

/// Rows strictly sorted by series, then time: no two share both.
pub open spec fn strictly_sorted_rows(rs: Seq<Row>) -> bool {
    forall|i: int| 0 < i < rs.len() ==> #[trigger] row_lt(rs[i - 1], rs[i])
}

/// An input sorted by series, then time, with no two rows sharing both.
pub open spec fn strictly_sorted_input(s: Seq<(u64, i64)>) -> bool {
    forall|i: int|
        0 < i < s.len() ==> #[trigger] s[i - 1].0 < s[i].0 || (s[i - 1].0 == s[i].0 && s[i - 1].1
            < s[i].1)
}

/// The row that passes input row `j` through.
pub open spec fn input_row(s: Seq<(u64, i64)>, j: int) -> Row {
    Row { series: s[j].0, time: s[j].1, source: Some(j as usize) }
}

/// Each row is either input row `j < n` passed through, or a NULL row at a
/// bucket of the range for the series of some input row before `n`.
pub open spec fn row_from_input(p: GapFillParams, s: Seq<(u64, i64)>, n: int, r: Row) -> bool {
    match r.source {
        Some(j) => j < n && r == input_row(s, j as int),
        None => p.in_grid(r.time as int) && exists|j: int| 0 <= j < n && #[trigger] s[j].0 == r.series,
    }
}

proof fn lemma_concat_sorted(a: Seq<Row>, b: Seq<Row>, strict: bool)
    requires
        sorted_rows(a),
        sorted_rows(b),
        a.len() > 0 && b.len() > 0 ==> row_le(a.last(), b[0]),
        strict ==> strictly_sorted_rows(a) && strictly_sorted_rows(b),
        strict && a.len() > 0 && b.len() > 0 ==> row_lt(a.last(), b[0]),
    ensures
        sorted_rows(a + b),
        strict ==> strictly_sorted_rows(a + b),
{
    if strict {
        assert forall|i: int| 0 < i < (a + b).len() implies #[trigger] row_lt((a + b)[i - 1], (a + b)[i]) by {
            if i < a.len() {
                assert(row_lt(a[i - 1], a[i]));
            } else if i == a.len() {
            } else {
                assert(row_lt(b[i - a.len() - 1], b[i - a.len()]));
            }
        }
    }
    assert forall|i: int| 0 < i < (a + b).len() implies #[trigger] row_le((a + b)[i - 1], (a + b)[i]) by {
        if i < a.len() {
            assert(row_le(a[i - 1], a[i]));
        } else if i == a.len() {
        } else {
            assert(row_le(b[i - a.len() - 1], b[i - a.len()]));
        }
    }
}

/// The NULL rows between `a` and `b` are sorted, lie strictly between them,
/// and sit on buckets of the range.
proof fn lemma_gap_rows(p: GapFillParams, series: u64, a: int, b: int)
    requires
        p.wf(),
    ensures
        sorted_rows(gap_rows(p, series, a, b)),
        strictly_sorted_rows(gap_rows(p, series, a, b)),
        forall|i: int|
            0 <= i < gap_rows(p, series, a, b).len() ==> {
                let r = #[trigger] gap_rows(p, series, a, b)[i];
                &&& r.series == series
                &&& r.source is None
                &&& a < r.time < b
                &&& p.in_grid(r.time as int)
            },
{
    lemma_range_limits(p);
    let d = p.stride as int;
    let o = p.origin as int;
    let f = first_after(p, a);
    let l = last_before(p, b);
    let g = gap_rows(p, series, a, b);
    // `f` is one stride past the aligned time below `x`.
    let x = if floor_align(a, o, d) + d < p.lo {
        match p.start {
            TimeBound::Included(t) => t - 1,
            TimeBound::Excluded(t) => t as int,
            TimeBound::Unbounded => 0,
        }
    } else {
        a
    };
    assert(f == floor_align(x, o, d) + d);
    let q = (x - o) / d;
    lemma_fundamental_div_mod(a - o, d);
    lemma_fundamental_div_mod(b - 1 - o, d);
    assert(floor_align(a, o, d) <= a) by (nonlinear_arith)
        requires a - o == d * ((a - o) / d) + (a - o) % d, (a - o) % d >= 0,
            floor_align(a, o, d) == o + d * ((a - o) / d);
    assert(floor_align(b - 1, o, d) <= b - 1) by (nonlinear_arith)
        requires b - 1 - o == d * ((b - 1 - o) / d) + (b - 1 - o) % d, (b - 1 - o) % d >= 0,
            floor_align(b - 1, o, d) == o + d * ((b - 1 - o) / d);
    assert(a < floor_align(a, o, d) + d) by (nonlinear_arith)
        requires a - o == d * ((a - o) / d) + (a - o) % d, (a - o) % d < d,
            floor_align(a, o, d) == o + d * ((a - o) / d);
    assert(a < f);
    assert(l <= b - 1);
    assert forall|i: int| 0 <= i < g.len() implies (#[trigger] g[i]).time == f + i * d && (f + i * d
        - o) % d == 0 && f <= f + i * d <= l by {
        let c = (l - f) / d;
        lemma_fundamental_div_mod(l - f, d);
        assert(0 <= i * d <= l - f) by (nonlinear_arith)
            requires 0 <= i <= c, l - f == d * c + (l - f) % d, (l - f) % d >= 0, d > 0;
        let v = f + i * d;
        assert(v - o == (q + 1 + i) * d) by (nonlinear_arith)
            requires v == f + i * d, f == o + d * q + d;
        lemma_mod_multiples_basic(q + 1 + i, d);
    }
    assert forall|i: int| 0 <= i < g.len() implies {
        let r = #[trigger] g[i];
        &&& r.series == series
        &&& r.source is None
        &&& a < r.time < b
        &&& p.in_grid(r.time as int)
    } by {
        assert(g[i].time == f + i * d);
    }
    assert forall|i: int| 0 < i < g.len() implies #[trigger] row_lt(g[i - 1], g[i]) by {
        assert((i - 1) * d < i * d) by (nonlinear_arith)
            requires d > 0;
        assert(g[i - 1].time == f + (i - 1) * d);
        assert(g[i].time == f + i * d);
    }
    assert forall|i: int| 0 < i < g.len() implies #[trigger] row_le(g[i - 1], g[i]) by {
        assert(row_lt(g[i - 1], g[i]));
    }
}

/// What the rows emitted on the first `n` rows of a sorted input are made of.
proof fn lemma_emitted(p: GapFillParams, s: Seq<(u64, i64)>, n: nat, strict: bool)
    requires
        p.wf(),
        sorted_input(s),
        strict ==> strictly_sorted_input(s),
        n <= s.len() <= usize::MAX,
    ensures
        sorted_rows(emitted(p, s, n)),
        strict ==> strictly_sorted_rows(emitted(p, s, n)),
        n > 0 ==> emitted(p, s, n).len() > 0 && emitted(p, s, n).last() == input_row(s, n - 1),
        forall|k: int|
            0 <= k < emitted(p, s, n).len() ==> row_from_input(
                p,
                s,
                n as int,
                #[trigger] emitted(p, s, n)[k],
            ),
        forall|j: int| 0 <= j < n ==> emitted(p, s, n).contains(#[trigger] input_row(s, j)),
    decreases n,
{
    if n > 0 {
        let i = n - 1;
        lemma_emitted(p, s, i as nat, strict);
        let e = emitted(p, s, i as nat);
        let series = s[i].0;
        let time = s[i].1;
        let row = seq![input_row(s, i)];
        let st = step_rows(p, last_of(s, i), series, time, i as usize);
        assert(emitted(p, s, n) == e + st);
        assert(st[st.len() - 1] == input_row(s, i));
        if i == 0 {
            let lead = gap_rows(p, series, p.lo - 1, time as int);
            lemma_gap_rows(p, series, p.lo - 1, time as int);
            lemma_concat_sorted(lead, row, strict);
            assert(st == lead + row);
            assert forall|k: int| 0 <= k < st.len() implies row_from_input(p, s, n as int, #[trigger] st[k]) by {
                if k < lead.len() {
                    assert(s[i].0 == st[k].series);
                }
            }
        } else {
            let prev = s[i - 1];
            assert(in_order(last_of(s, i), s[i].0, s[i].1));
            assert(last_of(s, i) == Some(prev));
            assert(e.last() == input_row(s, i - 1));
            if prev.0 == series {
                let gap = gap_rows(p, series, prev.1 as int, time as int);
                lemma_gap_rows(p, series, prev.1 as int, time as int);
                lemma_concat_sorted(gap, row, strict);
                assert(st == gap + row);
                assert forall|k: int| 0 <= k < st.len() implies row_from_input(p, s, n as int, #[trigger] st[k]) by {
                    if k < gap.len() {
                        assert(st[k] == gap[k]);
                        assert(s[i].0 == st[k].series);
                    } else {
                        assert(st[k] == input_row(s, i));
                    }
                }
            } else {
                let trail = gap_rows(p, prev.0, prev.1 as int, p.hi + 1);
                let lead = gap_rows(p, series, p.lo - 1, time as int);
                lemma_gap_rows(p, prev.0, prev.1 as int, p.hi + 1);
                lemma_gap_rows(p, series, p.lo - 1, time as int);
                lemma_concat_sorted(trail, lead, strict);
                if lead.len() == 0 {
                    assert(trail + lead =~= trail);
                }
                lemma_concat_sorted(trail + lead, row, strict);
                assert(st == trail + lead + row);
                assert forall|k: int| 0 <= k < st.len() implies row_from_input(p, s, n as int, #[trigger] st[k]) by {
                    if k < trail.len() {
                        assert(st[k] == trail[k]);
                        assert(s[i - 1].0 == st[k].series);
                    } else if k < trail.len() + lead.len() {
                        assert(lead[k - trail.len()] == st[k]);
                        assert(s[i].0 == st[k].series);
                    } else {
                        assert(st[k] == input_row(s, i));
                    }
                }
            }
        }
        if strict && i > 0 {
            assert(s[i - 1].0 < s[i].0 || (s[i - 1].0 == s[i].0 && s[i - 1].1 < s[i].1));
        }
        lemma_concat_sorted(e, st, strict);
        let en = emitted(p, s, n);
        assert forall|k: int| 0 <= k < en.len() implies row_from_input(p, s, n as int, #[trigger] en[k]) by {
            if k < e.len() {
                assert(row_from_input(p, s, i as int, e[k]));
                if e[k].source is None {
                    let j = choose|j: int| 0 <= j < i && #[trigger] s[j].0 == e[k].series;
                    assert(s[j].0 == en[k].series);
                }
            } else {
                assert(st[k - e.len()] == en[k]);
            }
        }
        assert forall|j: int| 0 <= j < n implies en.contains(#[trigger] input_row(s, j)) by {
            if j < i {
                assert(e.contains(input_row(s, j)));
                let k = choose|k: int| 0 <= k < e.len() && e[k] == input_row(s, j);
                assert(en[k] == input_row(s, j));
            } else {
                assert(en[en.len() - 1] == input_row(s, j));
            }
        }
    }
}

/// The facts of `lemma_emitted` for the whole output, end of input included.
proof fn lemma_filled(p: GapFillParams, s: Seq<(u64, i64)>, strict: bool)
    requires
        p.wf(),
        sorted_input(s),
        strict ==> strictly_sorted_input(s),
        s.len() <= usize::MAX,
    ensures
        sorted_rows(filled(p, s)),
        strict ==> strictly_sorted_rows(filled(p, s)),
        forall|k: int|
            0 <= k < filled(p, s).len() ==> row_from_input(
                p,
                s,
                s.len() as int,
                #[trigger] filled(p, s)[k],
            ),
        forall|j: int| 0 <= j < s.len() ==> filled(p, s).contains(#[trigger] input_row(s, j)),
{
    let n = s.len();
    lemma_emitted(p, s, n, strict);
    let e = emitted(p, s, n);
    let fin = finish_rows(p, last_of(s, n as int));
    let out = filled(p, s);
    assert(out == e + fin);
    if n > 0 {
        let prev = s[n - 1];
        lemma_gap_rows(p, prev.0, prev.1 as int, p.hi + 1);
        assert(fin == gap_rows(p, prev.0, prev.1 as int, p.hi + 1));
        lemma_concat_sorted(e, fin, strict);
        assert forall|k: int| 0 <= k < out.len() implies row_from_input(p, s, n as int, #[trigger] out[k]) by {
            if k < e.len() {
                assert(row_from_input(p, s, n as int, e[k]));
                assert(out[k] == e[k]);
            } else {
                assert(out[k] == fin[k - e.len()]);
                assert(s[n - 1].0 == out[k].series);
            }
        }
    } else {
        assert(out =~= e);
    }
    assert forall|j: int| 0 <= j < n implies out.contains(#[trigger] input_row(s, j)) by {
        assert(e.contains(input_row(s, j)));
        let k = choose|k: int| 0 <= k < e.len() && e[k] == input_row(s, j);
        assert(out[k] == input_row(s, j));
    }
}

/// The output of a gap fill is sorted by series, then time.
pub proof fn lemma_output_sorted(p: GapFillParams, s: Seq<(u64, i64)>)
    requires
        p.wf(),
        sorted_input(s),
        s.len() <= usize::MAX,
    ensures
        sorted_rows(filled(p, s)),
{
    lemma_filled(p, s, false);
}

/// Every input row comes out unchanged: same series, same time, and its own
/// aggregates (the output row points back at it).
pub proof fn lemma_input_rows_kept(p: GapFillParams, s: Seq<(u64, i64)>)
    requires
        p.wf(),
        sorted_input(s),
        s.len() <= usize::MAX,
    ensures
        forall|j: int| 0 <= j < s.len() ==> filled(p, s).contains(#[trigger] input_row(s, j)),
{
    lemma_filled(p, s, false);
}

/// Every output row that passes no input row through has NULL aggregates, a
/// bucket of the range as its time, and the series of some input row.
pub proof fn lemma_null_rows(p: GapFillParams, s: Seq<(u64, i64)>)
    requires
        p.wf(),
        sorted_input(s),
        s.len() <= usize::MAX,
    ensures
        forall|k: int|
            0 <= k < filled(p, s).len() ==> row_from_input(
                p,
                s,
                s.len() as int,
                #[trigger] filled(p, s)[k],
            ),
{
    lemma_filled(p, s, false);
}

/// Where every input time lies between the first and the last bucket of the
/// range, so does every output time.
pub proof fn lemma_range_truncation(p: GapFillParams, s: Seq<(u64, i64)>)
    requires
        p.wf(),
        sorted_input(s),
        s.len() <= usize::MAX,
        forall|j: int| 0 <= j < s.len() ==> p.lo <= #[trigger] s[j].1 <= p.hi,
    ensures
        forall|k: int| 0 <= k < filled(p, s).len() ==> p.lo <= #[trigger] filled(p, s)[k].time <= p.hi,
{
    lemma_filled(p, s, false);
    assert forall|k: int| 0 <= k < filled(p, s).len() implies p.lo <= #[trigger] filled(p, s)[k].time
        <= p.hi by {
        let r = filled(p, s)[k];
        assert(row_from_input(p, s, s.len() as int, r));
        if let Some(j) = r.source {
            assert(r.time == s[j as int].1);
        }
    }
}

/// The series that some output row carries.
pub open spec fn series_of_rows(rs: Seq<Row>) -> Set<u64> {
    Set::new(|x: u64| exists|k: int| 0 <= k < rs.len() && #[trigger] rs[k].series == x)
}

/// The series that some input row carries.
pub open spec fn series_of_input(s: Seq<(u64, i64)>) -> Set<u64> {
    Set::new(|x: u64| exists|j: int| 0 <= j < s.len() && #[trigger] s[j].0 == x)
}

/// The series of the output are exactly those of the input.
pub proof fn lemma_series_conserved(p: GapFillParams, s: Seq<(u64, i64)>)
    requires
        p.wf(),
        sorted_input(s),
        s.len() <= usize::MAX,
    ensures
        series_of_rows(filled(p, s)) == series_of_input(s),
{
    lemma_filled(p, s, false);
    let out = filled(p, s);
    assert forall|x: u64| #[trigger] series_of_rows(out).contains(x) <==> series_of_input(s).contains(x) by {
        if series_of_rows(out).contains(x) {
            let k = choose|k: int| 0 <= k < out.len() && #[trigger] out[k].series == x;
            assert(row_from_input(p, s, s.len() as int, out[k]));
            if let Some(j) = out[k].source {
                assert(s[j as int].0 == x);
            }
        }
        if series_of_input(s).contains(x) {
            let j = choose|j: int| 0 <= j < s.len() && #[trigger] s[j].0 == x;
            assert(out.contains(input_row(s, j)));
            let k = choose|k: int| 0 <= k < out.len() && out[k] == input_row(s, j);
            assert(out[k].series == x);
        }
    }
    assert(series_of_rows(out) =~= series_of_input(s));
}

/// Some row of `rs` has series `series` and time `t`.
pub open spec fn covers(rs: Seq<Row>, series: u64, t: int) -> bool {
    exists|k: int| 0 <= k < rs.len() && (#[trigger] rs[k]).series == series && rs[k].time == t
}

/// Some input row before index `n` has series `series`.
pub open spec fn seen(s: Seq<(u64, i64)>, n: int, series: u64) -> bool {
    exists|j: int| 0 <= j < n && #[trigger] s[j].0 == series
}

proof fn lemma_covers_concat(a: Seq<Row>, b: Seq<Row>, series: u64, t: int)
    requires
        covers(a, series, t) || covers(b, series, t),
    ensures
        covers(a + b, series, t),
{
    if covers(a, series, t) {
        let k = choose|k: int| 0 <= k < a.len() && (#[trigger] a[k]).series == series && a[k].time == t;
        assert((a + b)[k] == a[k]);
    } else {
        let k = choose|k: int| 0 <= k < b.len() && (#[trigger] b[k]).series == series && b[k].time == t;
        assert((a + b)[a.len() + k] == b[k]);
    }
}

/// A bucket of the range strictly between `a` and `b` has its NULL row.
proof fn lemma_gap_member(p: GapFillParams, series: u64, a: int, b: int, t: int)
    requires
        p.wf(),
        p.in_grid(t),
        a < t < b,
    ensures
        covers(gap_rows(p, series, a, b), series, t),
{
    lemma_range_limits(p);
    lemma_gap_rows(p, series, a, b);
    let d = p.stride as int;
    let o = p.origin as int;
    let f = first_after(p, a);
    let l = last_before(p, b);
    let g = gap_rows(p, series, a, b);
    let m = (t - o) / d;
    let qa = (a - o) / d;
    let qb = (b - 1 - o) / d;
    lemma_fundamental_div_mod(t - o, d);
    lemma_fundamental_div_mod(a - o, d);
    lemma_fundamental_div_mod(b - 1 - o, d);
    assert(m >= qa + 1) by (nonlinear_arith)
        requires t - o == d * m, a - o == d * qa + (a - o) % d, 0 <= (a - o) % d, a < t, d > 0;
    assert(m <= qb) by (nonlinear_arith)
        requires t - o == d * m, b - 1 - o == d * qb + (b - 1 - o) % d, (b - 1 - o) % d < d,
            t <= b - 1, d > 0;
    assert(d * m >= d * (qa + 1)) by (nonlinear_arith)
        requires m >= qa + 1, d > 0;
    assert(d * m <= d * qb) by (nonlinear_arith)
        requires m <= qb, d > 0;
    assert(floor_align(a, o, d) + d == o + d * (qa + 1)) by (nonlinear_arith)
        requires floor_align(a, o, d) == o + d * qa;
    assert(floor_align(b - 1, o, d) == o + d * qb);
    assert(t == o + d * m);
    assert(f <= t);
    assert(t <= l);
    let c = (l - f) / d;
    lemma_fundamental_div_mod(l - f, d);
    assert(gap_count(p, a, b) == c + 1);
    assert(g.len() > 0);
    assert(g[0].time == f);
    assert((f - o) % d == 0);
    let mf = (f - o) / d;
    lemma_fundamental_div_mod(f - o, d);
    let k = m - mf;
    assert(t == f + k * d) by (nonlinear_arith)
        requires t - o == d * m, f - o == d * mf, k == m - mf;
    assert(0 <= k <= c) by (nonlinear_arith)
        requires t == f + k * d, f <= t <= l, l - f == d * c + (l - f) % d, 0 <= (l - f) % d < d,
            d > 0;
    assert(g[k].time == t);
}

/// After `n` rows of a sorted input, every bucket of every series seen is
/// covered, but for the buckets after the last row of the series still open.
proof fn lemma_emitted_covers(p: GapFillParams, s: Seq<(u64, i64)>, n: nat)
    requires
        p.wf(),
        sorted_input(s),
        0 < n <= s.len() <= usize::MAX,
    ensures
        forall|series: u64, t: int|
            seen(s, n as int, series) && p.in_grid(t) && (series != s[n - 1].0 || t <= s[n - 1].1)
                ==> #[trigger] covers(emitted(p, s, n), series, t),
    decreases n,
{
    let i = n - 1;
    if i > 0 {
        lemma_emitted_covers(p, s, i as nat);
    }
    let e = emitted(p, s, i as nat);
    let cur = s[i].0;
    let ct = s[i].1;
    let row = seq![input_row(s, i)];
    let st = step_rows(p, last_of(s, i), cur, ct, i as usize);
    assert(emitted(p, s, n) == e + st);
    assert forall|series: u64, t: int|
        seen(s, n as int, series) && p.in_grid(t) && (series != s[n - 1].0 || t <= s[n - 1].1)
            implies #[trigger] covers(emitted(p, s, n), series, t) by {
        let j = choose|j: int| 0 <= j < n && #[trigger] s[j].0 == series;
        if series == cur {
            if t == ct {
                assert(st[st.len() - 1] == input_row(s, i));
                lemma_covers_concat(e, st, series, t);
            } else if i > 0 && s[i - 1].0 == cur {
                assert(seen(s, i, series));
                if t <= s[i - 1].1 {
                    lemma_covers_concat(e, st, series, t);
                } else {
                    let gap = gap_rows(p, cur, s[i - 1].1 as int, ct as int);
                    assert(st == gap + row);
                    lemma_gap_member(p, cur, s[i - 1].1 as int, ct as int, t);
                    lemma_covers_concat(gap, row, series, t);
                    lemma_covers_concat(e, st, series, t);
                }
            } else {
                let lead = gap_rows(p, cur, p.lo - 1, ct as int);
                lemma_gap_member(p, cur, p.lo - 1, ct as int, t);
                if i == 0 {
                    assert(st == lead + row);
                    lemma_covers_concat(lead, row, series, t);
                } else {
                    let trail = gap_rows(p, s[i - 1].0, s[i - 1].1 as int, p.hi + 1);
                    assert(st == trail + lead + row);
                    lemma_covers_concat(trail, lead, series, t);
                    lemma_covers_concat(trail + lead, row, series, t);
                }
                lemma_covers_concat(e, st, series, t);
            }
        } else {
            assert(j < i);
            assert(seen(s, i, series));
            if series == s[i - 1].0 && t > s[i - 1].1 {
                let trail = gap_rows(p, s[i - 1].0, s[i - 1].1 as int, p.hi + 1);
                let lead = gap_rows(p, cur, p.lo - 1, ct as int);
                assert(st == trail + lead + row);
                lemma_gap_member(p, series, s[i - 1].1 as int, p.hi + 1, t);
                lemma_covers_concat(trail, lead, series, t);
                lemma_covers_concat(trail + lead, row, series, t);
            }
            lemma_covers_concat(e, st, series, t);
        }
    }
}

proof fn lemma_strict_pairwise(rs: Seq<Row>, i: int, j: int)
    requires
        strictly_sorted_rows(rs),
        0 <= i < j < rs.len(),
    ensures
        row_lt(rs[i], rs[j]),
    decreases j - i,
{
    assert(row_lt(rs[j - 1], rs[j]));
    if j > i + 1 {
        lemma_strict_pairwise(rs, i, j - 1);
    }
}

/// Every series of a sorted input has an output row at each bucket of the range.
proof fn lemma_covers_all(p: GapFillParams, s: Seq<(u64, i64)>)
    requires
        p.wf(),
        sorted_input(s),
        s.len() <= usize::MAX,
    ensures
        forall|series: u64, t: int|
            series_of_input(s).contains(series) && p.in_grid(t) ==> #[trigger] covers(
                filled(p, s),
                series,
                t,
            ),
{
    let out = filled(p, s);
    let n = s.len();
    assert forall|series: u64, t: int|
        series_of_input(s).contains(series) && p.in_grid(t) implies #[trigger] covers(out, series, t) by {
        let j = choose|j: int| 0 <= j < s.len() && #[trigger] s[j].0 == series;
        assert(seen(s, n as int, series));
        lemma_emitted_covers(p, s, n);
        let e = emitted(p, s, n);
        let fin = finish_rows(p, last_of(s, n as int));
        assert(out == e + fin);
        if series == s[n - 1].0 && t > s[n - 1].1 {
            lemma_gap_member(p, series, s[n - 1].1 as int, p.hi + 1, t);
            lemma_covers_concat(e, fin, series, t);
        } else {
            assert(covers(e, series, t));
            lemma_covers_concat(e, fin, series, t);
        }
    }
}

/// For an input with no two rows on the same series and time, every series of
/// the input has exactly one output row at each bucket of the range.
pub proof fn lemma_bucket_coverage(p: GapFillParams, s: Seq<(u64, i64)>)
    requires
        p.wf(),
        strictly_sorted_input(s),
        s.len() <= usize::MAX,
    ensures
        forall|series: u64, t: int|
            series_of_input(s).contains(series) && p.in_grid(t) ==> #[trigger] covers(
                filled(p, s),
                series,
                t,
            ),
        forall|k1: int, k2: int|
            0 <= k1 < k2 < filled(p, s).len() ==> (#[trigger] filled(p, s)[k1]).series != (
            #[trigger] filled(p, s)[k2]).series || filled(p, s)[k1].time != filled(p, s)[k2].time,
{
    assert forall|i: int| 0 < i < s.len() implies #[trigger] in_order(last_of(s, i), s[i].0, s[i].1) by {
        assert(s[i - 1].0 < s[i].0 || (s[i - 1].0 == s[i].0 && s[i - 1].1 < s[i].1));
    }
    lemma_filled(p, s, true);
    lemma_covers_all(p, s);
    let out = filled(p, s);
    assert forall|k1: int, k2: int| 0 <= k1 < k2 < out.len() implies (#[trigger] out[k1]).series != (
    #[trigger] out[k2]).series || out[k1].time != out[k2].time by {
        lemma_strict_pairwise(out, k1, k2);
    }
}

proof fn lemma_pairwise(rs: Seq<Row>, i: int, j: int)
    requires
        sorted_rows(rs),
        0 <= i <= j < rs.len(),
    ensures
        row_le(rs[i], rs[j]),
    decreases j - i,
{
    if j > i {
        assert(row_le(rs[j - 1], rs[j]));
        lemma_pairwise(rs, i, j - 1);
    }
}

/// The series and time of each row.
pub open spec fn keys(rs: Seq<Row>) -> Seq<(u64, i64)> {
    rs.map_values(|r: Row| (r.series, r.time))
}

/// With no bucket of the range strictly between `a` and `b`, no NULL row goes there.
proof fn lemma_gap_empty(p: GapFillParams, series: u64, a: int, b: int)
    requires
        p.wf(),
        forall|t: int| a < t < b ==> !#[trigger] p.in_grid(t),
    ensures
        gap_rows(p, series, a, b) == Seq::<Row>::empty(),
{
    lemma_gap_rows(p, series, a, b);
    let g = gap_rows(p, series, a, b);
    if g.len() > 0 {
        assert(p.in_grid(g[0].time as int));
    }
    assert(g =~= Seq::<Row>::empty());
}

proof fn lemma_emitted_plain(p: GapFillParams, s: Seq<(u64, i64)>, n: nat)
    requires
        n <= s.len() <= usize::MAX,
        forall|i: int|
            0 <= i < s.len() ==> #[trigger] step_rows(p, last_of(s, i), s[i].0, s[i].1, i as usize)
                == seq![input_row(s, i)],
    ensures
        emitted(p, s, n) == Seq::new(n, |k: int| input_row(s, k)),
    decreases n,
{
    if n > 0 {
        lemma_emitted_plain(p, s, (n - 1) as nat);
        let i = n - 1;
        assert(step_rows(p, last_of(s, i), s[i].0, s[i].1, i as usize) == seq![input_row(s, i)]);
        assert(emitted(p, s, n) =~= Seq::new(n, |k: int| input_row(s, k)));
    } else {
        assert(emitted(p, s, n) =~= Seq::new(n, |k: int| input_row(s, k)));
    }
}

/// Filling the gaps of an output again, with the same range, changes nothing:
/// the same rows come out in the same order, each passed through, none added.
pub proof fn lemma_refill_no_op(p: GapFillParams, s: Seq<(u64, i64)>)
    requires
        p.wf(),
        sorted_input(s),
        s.len() <= usize::MAX,
        filled(p, s).len() <= usize::MAX,
    ensures
        sorted_input(keys(filled(p, s))),
        filled(p, keys(filled(p, s))) == Seq::new(
            filled(p, s).len(),
            |k: int| input_row(keys(filled(p, s)), k),
        ),
{
    lemma_filled(p, s, false);
    lemma_covers_all(p, s);
    let out = filled(p, s);
    let s2 = keys(out);
    let n = s2.len();
    assert forall|i: int| 0 < i < n implies #[trigger] in_order(last_of(s2, i), s2[i].0, s2[i].1) by {
        assert(row_le(out[i - 1], out[i]));
    }
    // Every series of the output has a row at every bucket.
    assert forall|x: u64, t: int| series_of_rows(out).contains(x) && p.in_grid(t) implies #[trigger] covers(
        out,
        x,
        t,
    ) by {
        let i = choose|i: int| 0 <= i < out.len() && #[trigger] out[i].series == x;
        assert(row_from_input(p, s, s.len() as int, out[i]));
        if let Some(j) = out[i].source {
            assert(s[j as int].0 == x);
        }
        assert(series_of_input(s).contains(x));
    }
    assert forall|i: int| 0 <= i < n implies #[trigger] step_rows(
        p,
        last_of(s2, i),
        s2[i].0,
        s2[i].1,
        i as usize,
    ) == seq![input_row(s2, i)] by {
        let cur = s2[i].0;
        let row = seq![input_row(s2, i)];
        assert(s2[i].0 == out[i].series);
        assert(series_of_rows(out).contains(cur));
        if i > 0 {
            assert(s2[i - 1].0 == out[i - 1].series);
            assert(series_of_rows(out).contains(s2[i - 1].0));
        }
        // No bucket of `cur` before row `i` when it opens its series.
        assert forall|t: int| p.lo - 1 < t < s2[i].1 && (i == 0 || s2[i - 1].0 != cur) implies !#[trigger] p.in_grid(t) by {
            if p.in_grid(t) {
                assert(covers(out, cur, t));
                let k = choose|k: int| 0 <= k < out.len() && (#[trigger] out[k]).series == cur && out[k].time == t;
                if k < i {
                    lemma_pairwise(out, k, i - 1);
                    lemma_pairwise(out, i - 1, i);
                } else {
                    lemma_pairwise(out, i, k);
                }
            }
        }
        if i == 0 {
            lemma_gap_empty(p, cur, p.lo - 1, s2[i].1 as int);
            assert(Seq::<Row>::empty() + row =~= row);
        } else {
            let prev = s2[i - 1];
            assert(prev.0 == out[i - 1].series);
            if prev.0 == cur {
                assert forall|t: int| prev.1 < t < s2[i].1 implies !#[trigger] p.in_grid(t) by {
                    if p.in_grid(t) {
                        assert(covers(out, cur, t));
                let k = choose|k: int| 0 <= k < out.len() && (#[trigger] out[k]).series == cur && out[k].time == t;
                        if k < i {
                            lemma_pairwise(out, k, i - 1);
                        } else {
                            lemma_pairwise(out, i, k);
                        }
                    }
                }
                lemma_gap_empty(p, cur, prev.1 as int, s2[i].1 as int);
                assert(Seq::<Row>::empty() + row =~= row);
            } else {
                assert forall|t: int| prev.1 < t < p.hi + 1 implies !#[trigger] p.in_grid(t) by {
                    if p.in_grid(t) {
                        assert(covers(out, prev.0, t));
                let k = choose|k: int| 0 <= k < out.len() && (#[trigger] out[k]).series == prev.0 && out[k].time == t;
                        if k < i {
                            lemma_pairwise(out, k, i - 1);
                        } else {
                            lemma_pairwise(out, i - 1, i);
                            lemma_pairwise(out, i, k);
                        }
                    }
                }
                lemma_gap_empty(p, prev.0, prev.1 as int, p.hi + 1);
                lemma_gap_empty(p, cur, p.lo - 1, s2[i].1 as int);
                assert(Seq::<Row>::empty() + Seq::<Row>::empty() + row =~= row);
            }
        }
    }
    lemma_emitted_plain(p, s2, n);
    if n > 0 {
        let prev = s2[n - 1];
        assert(prev.0 == out[n - 1].series);
        assert(series_of_rows(out).contains(prev.0));
        assert forall|t: int| prev.1 < t < p.hi + 1 implies !#[trigger] p.in_grid(t) by {
            if p.in_grid(t) {
                assert(covers(out, prev.0, t));
                let k = choose|k: int| 0 <= k < out.len() && (#[trigger] out[k]).series == prev.0 && out[k].time == t;
                lemma_pairwise(out, k, n - 1);
            }
        }
        lemma_gap_empty(p, prev.0, prev.1 as int, p.hi + 1);
    }
    assert(filled(p, s2) =~= Seq::new(n, |k: int| input_row(s2, k)));
}

} // verus!
