//! The densifying stream: rows sorted by series and time go in, and every
//! bucket of the range comes out once for each series seen.
use vstd::prelude::*;
use vstd::arithmetic::div_mod::lemma_fundamental_div_mod_converse_div;
use crate::bucket::{floor_align, floor_align_exec, lemma_range_limits, GapFillError, GapFillParams};

verus! {

/// An output row: its series, its bucket, and the index of the input row that it
/// passes through, or `None` for a row whose aggregates are all NULL.
#[derive(Clone, Copy, Debug, PartialEq, Eq, Structural)]
pub struct Row {
    pub series: u64,
    pub time: i64,
    pub source: Option<usize>,
}

/// The first bucket of the range after time `a`.
pub open spec fn first_after(p: GapFillParams, a: int) -> int {
    let f = floor_align(a, p.origin as int, p.stride as int) + p.stride;
    if f < p.lo {
        p.lo as int
    } else {
        f
    }
}

/// The last bucket of the range before time `b`.
pub open spec fn last_before(p: GapFillParams, b: int) -> int {
    let l = floor_align(b - 1, p.origin as int, p.stride as int);
    if l > p.hi {
        p.hi as int
    } else {
        l
    }
}

/// How many buckets of the range lie strictly between `a` and `b`.
pub open spec fn gap_count(p: GapFillParams, a: int, b: int) -> nat {
    let f = first_after(p, a);
    let l = last_before(p, b);
    if f <= l {
        ((l - f) / (p.stride as int) + 1) as nat
    } else {
        0
    }
}

/// Rows with NULL aggregates for `series`, one for each bucket of the range
/// strictly between `a` and `b`, in time order.
pub open spec fn gap_rows(p: GapFillParams, series: u64, a: int, b: int) -> Seq<Row> {
    Seq::new(
        gap_count(p, a, b),
        |i: int| Row { series, time: (first_after(p, a) + i * p.stride) as i64, source: None },
    )
}

/// Whether a row may follow the last one under the sort by series, then time.
pub open spec fn in_order(last: Option<(u64, i64)>, series: u64, time: i64) -> bool {
    match last {
        None => true,
        Some(prev) => prev.0 < series || (prev.0 == series && prev.1 <= time),
    }
}

/// What the stream emits on an input row (in order) after `last`: the rest of
/// the range for a series that ends, the buckets missing before the row, the row.
pub open spec fn step_rows(
    p: GapFillParams,
    last: Option<(u64, i64)>,
    series: u64,
    time: i64,
    index: usize,
) -> Seq<Row> {
    let row = seq![Row { series, time, source: Some(index) }];
    match last {
        None => gap_rows(p, series, p.lo - 1, time as int) + row,
        Some(prev) => if prev.0 == series {
            gap_rows(p, series, prev.1 as int, time as int) + row
        } else {
            gap_rows(p, prev.0, prev.1 as int, p.hi + 1) + gap_rows(p, series, p.lo - 1, time as int)
                + row
        },
    }
}

/// What the stream emits at the end of its input: the rest of the range for the
/// last series.
pub open spec fn finish_rows(p: GapFillParams, last: Option<(u64, i64)>) -> Seq<Row> {
    match last {
        None => seq![],
        Some(prev) => gap_rows(p, prev.0, prev.1 as int, p.hi + 1),
    }
}

/// Appends the NULL rows of `gap_rows(p, series, a, b)`.
fn push_gap(p: &GapFillParams, out: &mut Vec<Row>, series: u64, a: i128, b: i128)
    requires
        p.wf(),
        -0x1_0000_0000_0000_0000 <= a <= 0x1_0000_0000_0000_0000,
        -0x1_0000_0000_0000_0000 <= b <= 0x1_0000_0000_0000_0000,
    ensures
        final(out)@ == old(out)@ + gap_rows(*p, series, a as int, b as int),
{
    proof {
        lemma_range_limits(*p);
    }
    let d: i128 = p.stride as i128;
    let f0: i128 = floor_align_exec(a, p.origin, p.stride) + d;
    let f: i128 = if f0 < p.lo {
        p.lo
    } else {
        f0
    };
    let l0: i128 = floor_align_exec(b - 1, p.origin, p.stride);
    let l: i128 = if l0 > p.hi {
        p.hi
    } else {
        l0
    };
    let ghost start = out@;
    let ghost gaps = gap_rows(*p, series, a as int, b as int);
    assert(f == first_after(*p, a as int));
    assert(l == last_before(*p, b as int));
    let mut g: i128 = f;
    let ghost mut k: int = 0;
    while g <= l
        invariant
            d == p.stride,
            d > 0,
            i64::MIN <= p.lo <= f,
            l <= p.hi <= i64::MAX,
            f == first_after(*p, a as int),
            l == last_before(*p, b as int),
            gaps == gap_rows(*p, series, a as int, b as int),
            k >= 0,
            g == f + k * d,
            k > 0 ==> g - d <= l,
            out@ == start + Seq::new(
                k as nat,
                |i: int| Row { series, time: (f + i * d) as i64, source: None },
            ),
        decreases l + d - g,
    {
        out.push(Row { series, time: g as i64, source: None });
        proof {
            assert((k + 1) * d == k * d + d) by (nonlinear_arith);
            assert(out@ =~= start + Seq::new(
                (k + 1) as nat,
                |i: int| Row { series, time: (f + i * d) as i64, source: None },
            ));
            k = k + 1;
        }
        g = g + d;
    }
    proof {
        if k > 0 {
            assert(f + (k - 1) * d <= l < f + (k - 1) * d + d) by (nonlinear_arith)
                requires g == f + k * d, g - d <= l, l < g;
            assert(l - f == (k - 1) * d + (l - f - (k - 1) * d)) by (nonlinear_arith);
            lemma_fundamental_div_mod_converse_div(l - f, d as int, k - 1, l - f - (k - 1) * d);
            assert(gap_count(*p, a as int, b as int) == k);
        } else {
            assert(gap_count(*p, a as int, b as int) == 0);
        }
        assert(out@ =~= start + gaps);
    }
}

/// The input row before index `n`, if any.
pub open spec fn last_of(s: Seq<(u64, i64)>, n: int) -> Option<(u64, i64)> {
    if n <= 0 {
        None
    } else {
        Some(s[n - 1])
    }
}

/// Whether the input is sorted by series, then time.
pub open spec fn sorted_input(s: Seq<(u64, i64)>) -> bool {
    forall|i: int| 0 < i < s.len() ==> #[trigger] in_order(last_of(s, i), s[i].0, s[i].1)
}

/// The rows emitted on the first `n` input rows.
pub open spec fn emitted(p: GapFillParams, s: Seq<(u64, i64)>, n: nat) -> Seq<Row>
    decreases n,
{
    if n == 0 {
        seq![]
    } else {
        emitted(p, s, (n - 1) as nat) + step_rows(
            p,
            last_of(s, n - 1),
            s[n - 1].0,
            s[n - 1].1,
            (n - 1) as usize,
        )
    }
}

/// The whole output of a gap fill over a sorted input.
pub open spec fn filled(p: GapFillParams, s: Seq<(u64, i64)>) -> Seq<Row> {
    emitted(p, s, s.len()) + finish_rows(p, last_of(s, s.len() as int))
}

/// Fills the gaps of a whole input of `(series, time)` rows. An input out of
/// order fails with the index of its first row out of place.
pub fn gap_fill(params: &GapFillParams, input: &Vec<(u64, i64)>) -> (r: Result<
    Vec<Row>,
    GapFillError,
>)
    requires
        params.wf(),
    ensures
        sorted_input(input@) <==> r is Ok,
        r matches Ok(rows) ==> rows@ == filled(*params, input@),
        r matches Err(e) ==> exists|i: int|
            0 < i < input@.len() && e == GapFillError::OutOfOrder(i as usize) && !in_order(
                last_of(input@, i),
                input@[i].0,
                input@[i].1,
            ) && forall|j: int| 0 < j < i ==> #[trigger] in_order(
                last_of(input@, j),
                input@[j].0,
                input@[j].1,
            ),
{
    let mut st = GapFillStream::new(*params);
    let mut out: Vec<Row> = Vec::new();
    let mut i: usize = 0;
    while i < input.len()
        invariant
            st.wf(),
            st.params == *params,
            0 <= i <= input@.len(),
            st.pushed == i,
            st.last == last_of(input@, i as int),
            out@ == emitted(*params, input@, i as nat),
            forall|j: int| 0 < j < i ==> #[trigger] in_order(
                last_of(input@, j),
                input@[j].0,
                input@[j].1,
            ),
        decreases input@.len() - i,
    {
        let (series, time) = input[i];
        match st.push_row(series, time, &mut out) {
            Ok(()) => {},
            Err(e) => {
                return Err(e);
            },
        }
        i = i + 1;
    }
    st.finish(&mut out);
    Ok(out)
}

/// The state of a gap fill between input rows: at most one series is live, so
/// the state is the last input row and a count of the rows seen.
#[derive(Clone, Copy, Debug)]
pub struct GapFillStream {
    pub params: GapFillParams,
    /// Series and time of the last input row.
    pub last: Option<(u64, i64)>,
    /// How many input rows were taken.
    pub pushed: usize,
}

impl GapFillStream {
    pub open spec fn wf(&self) -> bool {
        self.params.wf()
    }

    /// A stream that has seen no input.
    pub fn new(params: GapFillParams) -> (r: GapFillStream)
        requires
            params.wf(),
        ensures
            r.wf(),
            r.params == params,
            r.last is None,
            r.pushed == 0,
    {
        GapFillStream { params, last: None, pushed: 0 }
    }

    /// Takes the next input row. In order, it appends to `out` the rows that
    /// `step_rows` gives; out of order, it fails and changes nothing.
    pub fn push_row(&mut self, series: u64, time: i64, out: &mut Vec<Row>) -> (r: Result<
        (),
        GapFillError,
    >)
        requires
            old(self).wf(),
            old(self).pushed < usize::MAX,
        ensures
            final(self).wf(),
            final(self).params == old(self).params,
            in_order(old(self).last, series, time) <==> r is Ok,
            r is Ok ==> final(out)@ == old(out)@ + step_rows(
                old(self).params,
                old(self).last,
                series,
                time,
                old(self).pushed,
            ) && final(self).last == Some((series, time)) && final(self).pushed == old(
                self,
            ).pushed + 1,
            r is Err ==> r == Err::<(), GapFillError>(GapFillError::OutOfOrder(old(self).pushed))
                && *final(self) == *old(self) && final(out)@ == old(out)@,
    {
        proof {
            lemma_range_limits(self.params);
        }
        let p = self.params;
        match self.last {
            None => {
                push_gap(&p, out, series, p.lo - 1, time as i128);
            },
            Some(prev) => {
                if prev.0 > series || (prev.0 == series && prev.1 > time) {
                    return Err(GapFillError::OutOfOrder(self.pushed));
                }
                if prev.0 == series {
                    push_gap(&p, out, series, prev.1 as i128, time as i128);
                } else {
                    push_gap(&p, out, prev.0, prev.1 as i128, p.hi + 1);
                    push_gap(&p, out, series, p.lo - 1, time as i128);
                }
            },
        }
        out.push(Row { series, time, source: Some(self.pushed) });
        self.last = Some((series, time));
        self.pushed = self.pushed + 1;
        Ok(())
    }

    /// Ends the input: appends the rest of the range for the last series.
    pub fn finish(&self, out: &mut Vec<Row>)
        requires
            self.wf(),
        ensures
            final(out)@ == old(out)@ + finish_rows(self.params, self.last),
    {
        proof {
            lemma_range_limits(self.params);
        }
        match self.last {
            None => {},
            Some(prev) => {
                push_gap(&self.params, out, prev.0, prev.1 as i128, self.params.hi + 1);
            },
        }
    }
}

} // verus!
