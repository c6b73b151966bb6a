//! Alignment of timestamps to the buckets of a stride and an origin.
use vstd::prelude::*;
use vstd::arithmetic::div_mod::{lemma_fundamental_div_mod, lemma_fundamental_div_mod_converse_div};

verus! {

/// The largest timestamp aligned to `origin` and `stride` that is at most `t`.
pub open spec fn floor_align(t: int, origin: int, stride: int) -> int {
    origin + stride * ((t - origin) / stride)
}

/// `floor_align` is aligned, at most `t`, and within one stride of it.
pub proof fn lemma_floor_align_bounds(t: int, origin: int, stride: int)
    requires
        stride > 0,
    ensures
        floor_align(t, origin, stride) <= t < floor_align(t, origin, stride) + stride,
{
    lemma_fundamental_div_mod(t - origin, stride);
}

/// Floor division of a signed wide integer by a positive divisor.
fn floor_div(x: i128, d: i128) -> (q: i128)
    requires
        d > 0,
        -0x1_0000_0000_0000_0000_0000 <= x <= 0x1_0000_0000_0000_0000_0000,
    ensures
        q == x as int / d as int,
{
    if x >= 0 {
        let q = ((x as u128) / (d as u128)) as i128;
        q
    } else {
        let n: u128 = (0 - x) as u128;
        let c: u128 = (n + (d as u128) - 1) / (d as u128);
        proof {
            let xi = x as int;
            let di = d as int;
            let ci = c as int;
            assert(di * ci <= -xi + di - 1 < di * ci + di) by (nonlinear_arith)
                requires ci == (-xi + di - 1) / di, di > 0;
            assert((-ci) * di + (xi + di * ci) == xi) by (nonlinear_arith);
            assert(0 <= ci <= -xi) by (nonlinear_arith)
                requires ci == (-xi + di - 1) / di, di > 0, -xi > 0, di * ci <= -xi + di - 1;
            lemma_fundamental_div_mod_converse_div(xi, di, -ci, xi + di * ci);
        }
        0 - (c as i128)
    }
}

/// Exact value of [`floor_align`] over wide integers.
pub fn floor_align_exec(t: i128, origin: i64, stride: i64) -> (r: i128)
    requires
        stride > 0,
        -0x1_0000_0000_0000_0001 <= t <= 0x1_0000_0000_0000_0001,
    ensures
        r == floor_align(t as int, origin as int, stride as int),
        t - stride < r <= t,
{
    proof {
        lemma_floor_align_bounds(t as int, origin as int, stride as int);
    }
    let x: i128 = t - origin as i128;
    let d: i128 = stride as i128;
    let q: i128 = floor_div(x, d);
    proof {
        assert(x - d < d * q <= x) by (nonlinear_arith)
            requires q == x as int / d as int, d > 0;
    }
    origin as i128 + d * q
}

/// One end of a time range.
#[derive(Clone, Copy, Debug, PartialEq, Eq, Structural)]
pub enum TimeBound {
    Included(i64),
    Excluded(i64),
    Unbounded,
}

/// The first bucket that a start bound admits.
pub open spec fn lo_bucket(start: TimeBound, origin: int, stride: int) -> int {
    match start {
        TimeBound::Included(t) => floor_align(t - 1, origin, stride) + stride,
        TimeBound::Excluded(t) => floor_align(t as int, origin, stride) + stride,
        TimeBound::Unbounded => 0,
    }
}

/// The last bucket that an end bound admits.
pub open spec fn hi_bucket(end: TimeBound, origin: int, stride: int) -> int {
    match end {
        TimeBound::Included(t) => floor_align(t as int, origin, stride),
        TimeBound::Excluded(t) => floor_align(t - 1, origin, stride),
        TimeBound::Unbounded => 0,
    }
}

/// The bucket layout of a gap fill: stride, origin and the range of time.
#[derive(Clone, Copy, Debug)]
pub struct GapFillParams {
    pub stride: i64,
    pub origin: i64,
    pub start: TimeBound,
    pub end: TimeBound,
    /// First bucket of the range.
    pub lo: i128,
    /// Last bucket of the range (below `lo` when the range holds none).
    pub hi: i128,
}

/// Why a gap fill could not be set up or run.
#[derive(Clone, Copy, Debug, PartialEq, Eq, Structural)]
pub enum GapFillError {
    /// The stride is zero or negative.
    NonPositiveStride,
    /// One end of the time range is unbounded.
    UnboundedRange,
    /// The time column is not among the group expressions.
    MissingTimeColumn,
    /// A node got a number of inputs or children other than one.
    WrongInputCount(usize),
    /// A partition other than the only one was asked for.
    InvalidPartition(usize),
    /// The input row at this index breaks the required sort order.
    OutOfOrder(usize),
}

pub open spec fn is_bounded(b: TimeBound) -> bool {
    !(b is Unbounded)
}

/// The ends of a well-formed range lie within reach of `i64` timestamps.
pub proof fn lemma_range_limits(p: GapFillParams)
    requires
        p.wf(),
    ensures
        i64::MIN <= p.lo <= 2 * (i64::MAX as int),
        i64::MIN - i64::MAX <= p.hi <= i64::MAX,
{
    match p.start {
        TimeBound::Included(t) => lemma_floor_align_bounds(t - 1, p.origin as int, p.stride as int),
        TimeBound::Excluded(t) => lemma_floor_align_bounds(t as int, p.origin as int, p.stride as int),
        TimeBound::Unbounded => {},
    }
    match p.end {
        TimeBound::Included(t) => lemma_floor_align_bounds(t as int, p.origin as int, p.stride as int),
        TimeBound::Excluded(t) => lemma_floor_align_bounds(t - 1, p.origin as int, p.stride as int),
        TimeBound::Unbounded => {},
    }
}

impl GapFillParams {
    pub open spec fn wf(&self) -> bool {
        &&& self.stride > 0
        &&& is_bounded(self.start)
        &&& is_bounded(self.end)
        &&& self.lo == lo_bucket(self.start, self.origin as int, self.stride as int)
        &&& self.hi == hi_bucket(self.end, self.origin as int, self.stride as int)
    }

    /// Whether `t` is a bucket of the range: aligned and between its ends.
    pub open spec fn in_grid(&self, t: int) -> bool {
        &&& self.lo <= t <= self.hi
        &&& (t - self.origin) % (self.stride as int) == 0
    }

    /// Checks the stride and the range, and works out their first and last buckets.
    pub fn try_new(stride: i64, origin: i64, start: TimeBound, end: TimeBound) -> (r: Result<
        GapFillParams,
        GapFillError,
    >)
        ensures
            stride <= 0 ==> r == Err::<GapFillParams, GapFillError>(GapFillError::NonPositiveStride),
            stride > 0 && !(is_bounded(start) && is_bounded(end)) ==> r == Err::<
                GapFillParams,
                GapFillError,
            >(GapFillError::UnboundedRange),
            stride > 0 && is_bounded(start) && is_bounded(end) ==> r is Ok,
            r matches Ok(p) ==> p.wf() && p.stride == stride && p.origin == origin && p.start
                == start && p.end == end,
    {
        if stride <= 0 {
            return Err(GapFillError::NonPositiveStride);
        }
        let lo: i128 = match start {
            TimeBound::Included(t) => floor_align_exec(t as i128 - 1, origin, stride)
                + stride as i128,
            TimeBound::Excluded(t) => floor_align_exec(t as i128, origin, stride) + stride as i128,
            TimeBound::Unbounded => {
                return Err(GapFillError::UnboundedRange);
            },
        };
        let hi: i128 = match end {
            TimeBound::Included(t) => floor_align_exec(t as i128, origin, stride),
            TimeBound::Excluded(t) => floor_align_exec(t as i128 - 1, origin, stride),
            TimeBound::Unbounded => {
                return Err(GapFillError::UnboundedRange);
            },
        };
        Ok(GapFillParams { stride, origin, start, end, lo, hi })
    }
}

} // verus!
