//! The inter-block learned index: piecewise-linear segments mapping a
//! timestamp to a predicted block id, fitted by ordinary least squares
//! over exact rational arithmetic, under a per-point error bound.

use vstd::prelude::*;
use crate::block::{InterIndex, inter_index_wf};
use crate::errors::ChainError;

verus! {

/// Largest timestamp a training point may carry, so the exact sums
/// and products stay inside 128 bits; it admits Unix-second clocks.
pub const MAX_POINT_COORD: u64 = 0x100000000;

/// Largest block id a training point may carry, same reason.
pub const MAX_POINT_ID: u64 = 0x2000000;

/// Largest number of training points of one build, same reason.
pub const MAX_POINT_COUNT: usize = 8192;

/// Largest numerator or denominator of the error bound, same reason.
pub const MAX_EPS_PART: u64 = 128;

/// Magnitude bound on a fitted slope numerator.
pub const FIT_A_BOUND: i128 = 0x2000000000000000000000;

/// Magnitude bound on a fitted intercept numerator.
pub const FIT_B_BOUND: i128 = 0x200000000000000000000000000000;

/// Magnitude bound on a fitted denominator.
pub const FIT_D_BOUND: i128 = 0x80000000000000000000000;

/// A segment whose line is small enough to evaluate exactly.
pub open spec fn seg_bounded(s: InterIndex) -> bool {
    &&& inter_index_wf(s)
    &&& -FIT_A_BOUND <= s.a_num <= FIT_A_BOUND
    &&& -FIT_B_BOUND <= s.b_num <= FIT_B_BOUND
    &&& s.den <= FIT_D_BOUND
}

/// The absolute value.
pub open spec fn abs_int(x: int) -> int {
    if x < 0 { -x } else { x }
}

/// The signed prediction error of a segment's line at one point,
/// scaled by the line's denominator.
pub open spec fn line_err(s: InterIndex, t: u64, y: u64) -> int {
    s.a_num * t + s.b_num - y * s.den
}

/// Whether the line of `s` predicts `y` at `t` within eps_num/eps_den.
pub open spec fn spec_within_eps(s: InterIndex, t: u64, y: u64, eps_num: u64, eps_den: u64) -> bool {
    abs_int(line_err(s, t, y)) * eps_den <= eps_num * s.den
}

/// Whether the least-squares line of points[lo ..= hi] meets point `j`
/// within eps_num/eps_den, measured exactly over the fitted rationals.
pub open spec fn fit_point_ok(
    points: Seq<(u64, u64)>,
    lo: int,
    hi: int,
    j: int,
    eps_num: u64,
    eps_den: u64,
) -> bool {
    let f = spec_fit(points.subrange(lo, hi + 1));
    abs_int(f.0 * points[j].0 + f.1 - points[j].1 * f.2) * eps_den <= eps_num * f.2
}

/// Whether every point of points[lo ..= hi] lies within the bound of
/// the slice's own least-squares line.
pub open spec fn slice_line_ok(
    points: Seq<(u64, u64)>,
    lo: int,
    hi: int,
    eps_num: u64,
    eps_den: u64,
) -> bool {
    forall|j: int| lo <= j <= hi ==> #[trigger] fit_point_ok(points, lo, hi, j, eps_num, eps_den)
}

/// Evaluate `spec_within_eps` exactly.
pub fn within_eps(s: &InterIndex, t: u64, y: u64, eps_num: u64, eps_den: u64) -> (r: bool)
    requires
        seg_bounded(*s),
        t < MAX_POINT_COORD,
        y < MAX_POINT_ID,
        eps_num <= MAX_EPS_PART,
        eps_den <= MAX_EPS_PART,
    ensures r == spec_within_eps(*s, t, y, eps_num, eps_den),
{
    proof {
        assert(-0x200000000000000000000000000000 <= s.a_num * t
            && s.a_num * t <= 0x200000000000000000000000000000) by (nonlinear_arith)
            requires
                -0x2000000000000000000000 <= s.a_num <= 0x2000000000000000000000,
                0 <= t < 0x100000000;
        assert(0 <= (y as int) * s.den && (y as int) * s.den
            <= 0x100000000000000000000000000000) by (nonlinear_arith)
            requires 0 <= y < 0x2000000, 1 <= s.den <= 0x80000000000000000000000;
    }
    let err: i128 = s.a_num * (t as i128) + s.b_num - (y as i128) * s.den;
    let abs_err: i128 = if err < 0 { -err } else { err };
    proof {
        assert(abs_err <= 0x800000000000000000000000000000);
        assert(abs_err * eps_den <= 0x800000000000000000000000000000i128 * 128)
            by (nonlinear_arith)
            requires 0 <= abs_err <= 0x800000000000000000000000000000, 0 <= eps_den <= 128;
        assert(0 <= (eps_num as int) * s.den && (eps_num as int) * s.den <= 128
            * 0x80000000000000000000000i128) by (nonlinear_arith)
            requires 0 <= eps_num <= 128, 1 <= s.den <= 0x80000000000000000000000;
    }
    abs_err * (eps_den as i128) <= (eps_num as i128) * s.den
}

/// Sum of the timestamps of a point list.
pub open spec fn sum_t(s: Seq<(u64, u64)>) -> int
    decreases s.len(),
{
    if s.len() == 0 { 0 } else { sum_t(s.drop_last()) + s.last().0 }
}

/// Sum of the block ids of a point list.
pub open spec fn sum_y(s: Seq<(u64, u64)>) -> int
    decreases s.len(),
{
    if s.len() == 0 { 0 } else { sum_y(s.drop_last()) + s.last().1 }
}

/// Sum of the squared timestamps.
pub open spec fn sum_tt(s: Seq<(u64, u64)>) -> int
    decreases s.len(),
{
    if s.len() == 0 { 0 } else { sum_tt(s.drop_last()) + s.last().0 * s.last().0 }
}

/// Sum of the timestamp/id products.
pub open spec fn sum_ty(s: Seq<(u64, u64)>) -> int
    decreases s.len(),
{
    if s.len() == 0 { 0 } else { sum_ty(s.drop_last()) + s.last().0 * s.last().1 }
}

/// The least-squares line of a nonempty point list, as an exact
/// rational: slope numerator, intercept numerator, common denominator.
/// A degenerate list (all timestamps equal) gets the horizontal line
/// through the mean id.
pub open spec fn spec_fit(s: Seq<(u64, u64)>) -> (int, int, int)
    recommends s.len() >= 1,
{
    let n = s.len() as int;
    let st = sum_t(s);
    let sy = sum_y(s);
    let stt = sum_tt(s);
    let sty = sum_ty(s);
    let d = n * stt - st * st;
    if d <= 0 {
        (0, sy, n)
    } else {
        (n * sty - st * sy, sy * stt - st * sty, d)
    }
}

/// Fit the least-squares line over points[lo ..= hi].
fn linear_regression(points: &Vec<(u64, u64)>, lo: usize, hi: usize) -> (r: (i128, i128, i128))
    requires
        lo <= hi < points@.len(),
        points@.len() <= MAX_POINT_COUNT,
        forall|j: int| 0 <= j < points@.len() ==> (#[trigger] points@[j]).0 < MAX_POINT_COORD
            && points@[j].1 < MAX_POINT_ID,
    ensures
        (r.0 as int, r.1 as int, r.2 as int) == spec_fit(points@.subrange(lo as int, hi + 1)),
        1 <= r.2 <= FIT_D_BOUND,
        -FIT_A_BOUND <= r.0 <= FIT_A_BOUND,
        -FIT_B_BOUND <= r.1 <= FIT_B_BOUND,
{
    let ghost slice = points@.subrange(lo as int, hi + 1);
    let mut st: i128 = 0;
    let mut sy: i128 = 0;
    let mut stt: i128 = 0;
    let mut sty: i128 = 0;
    let mut i: usize = lo;
    while i <= hi
        invariant
            lo <= i <= hi + 1,
            hi < points@.len(),
            points@.len() <= MAX_POINT_COUNT,
            slice == points@.subrange(lo as int, hi + 1),
            forall|j: int| 0 <= j < points@.len() ==> (#[trigger] points@[j]).0 < MAX_POINT_COORD
                && points@[j].1 < MAX_POINT_ID,
            st == sum_t(points@.subrange(lo as int, i as int)),
            sy == sum_y(points@.subrange(lo as int, i as int)),
            stt == sum_tt(points@.subrange(lo as int, i as int)),
            sty == sum_ty(points@.subrange(lo as int, i as int)),
            0 <= st <= (i - lo) * MAX_POINT_COORD,
            0 <= sy <= (i - lo) * MAX_POINT_ID,
            0 <= stt <= (i - lo) * (MAX_POINT_COORD as i128 * MAX_POINT_COORD),
            0 <= sty <= (i - lo) * (MAX_POINT_COORD as i128 * MAX_POINT_ID),
        decreases hi + 1 - i,
    {
        let (t, y) = points[i];
        proof {
            let pre = points@.subrange(lo as int, i as int);
            let post = points@.subrange(lo as int, i + 1);
            assert(post.drop_last() =~= pre);
            assert(post.last() == points@[i as int]);
            assert(t * t < MAX_POINT_COORD as i128 * MAX_POINT_COORD) by (nonlinear_arith)
                requires 0 <= t < MAX_POINT_COORD;
            assert(t * y < MAX_POINT_COORD as i128 * MAX_POINT_ID) by (nonlinear_arith)
                requires 0 <= t < MAX_POINT_COORD, 0 <= y < MAX_POINT_ID;
            assert(t * y >= 0) by (nonlinear_arith)
                requires t >= 0, y >= 0;
        }
        proof {
            let c2 = MAX_POINT_COORD as int * MAX_POINT_COORD;
            let cy2 = MAX_POINT_COORD as int * MAX_POINT_ID;
            assert(stt + t * t <= (i + 1 - lo) * c2) by (nonlinear_arith)
                requires stt <= (i - lo) * c2, t * t < c2;
            assert(sty + t * y <= (i + 1 - lo) * cy2) by (nonlinear_arith)
                requires sty <= (i - lo) * cy2, t * y < cy2;
            assert((i + 1 - lo) * c2 <= MAX_POINT_COUNT * c2) by (nonlinear_arith)
                requires i + 1 - lo <= MAX_POINT_COUNT, c2 > 0;
            assert((i + 1 - lo) * cy2 <= MAX_POINT_COUNT * cy2) by (nonlinear_arith)
                requires i + 1 - lo <= MAX_POINT_COUNT, cy2 > 0;
            assert(st + t <= (i + 1 - lo) * (MAX_POINT_COORD as int)) by (nonlinear_arith)
                requires st <= (i - lo) * (MAX_POINT_COORD as int), t < MAX_POINT_COORD;
            assert(sy + y <= (i + 1 - lo) * (MAX_POINT_ID as int)) by (nonlinear_arith)
                requires sy <= (i - lo) * (MAX_POINT_ID as int), y < MAX_POINT_ID;
            assert((i + 1 - lo) * (MAX_POINT_COORD as int) <= MAX_POINT_COUNT * (
            MAX_POINT_COORD as int)) by (nonlinear_arith)
                requires i + 1 - lo <= MAX_POINT_COUNT;
            assert((i + 1 - lo) * (MAX_POINT_ID as int) <= MAX_POINT_COUNT * (
            MAX_POINT_ID as int)) by (nonlinear_arith)
                requires i + 1 - lo <= MAX_POINT_COUNT;
        }
        st = st + t as i128;
        sy = sy + y as i128;
        stt = stt + (t as i128) * (t as i128);
        sty = sty + (t as i128) * (y as i128);
        i += 1;
    }
    proof {
        assert(points@.subrange(lo as int, i as int) == slice);
    }
    let n: i128 = (hi - lo + 1) as i128;
    proof {
        assert(slice.len() == n);
        lemma_fit_products(n as int, st as int, sy as int, stt as int, sty as int);
    }
    let d: i128 = n * stt - st * st;
    if d <= 0 {
        proof {
            assert((0int, sy as int, n as int) == spec_fit(slice));
        }
        (0, sy, n)
    } else {
        let a = n * sty - st * sy;
        let b = sy * stt - st * sty;
        proof {
            assert((a as int, b as int, d as int) == spec_fit(slice));
        }
        (a, b, d)
    }
}

/// The products entering a fit stay inside the declared bounds.
proof fn lemma_fit_products(n: int, st: int, sy: int, stt: int, sty: int)
    requires
        1 <= n <= MAX_POINT_COUNT,
        0 <= st <= n * MAX_POINT_COORD,
        0 <= sy <= n * MAX_POINT_ID,
        0 <= stt <= n * (MAX_POINT_COORD as int * MAX_POINT_COORD),
        0 <= sty <= n * (MAX_POINT_COORD as int * MAX_POINT_ID),
    ensures
        abs_int(n * stt - st * st) <= FIT_D_BOUND,
        abs_int(n * sty - st * sy) <= FIT_A_BOUND,
        abs_int(sy * stt - st * sty) <= FIT_B_BOUND,
        n <= FIT_D_BOUND,
        0 <= n * stt <= FIT_D_BOUND,
        0 <= st * st <= FIT_D_BOUND,
        0 <= n * sty <= FIT_A_BOUND,
        0 <= st * sy <= FIT_A_BOUND,
        0 <= sy * stt <= FIT_B_BOUND,
        0 <= st * sty <= FIT_B_BOUND,
{
    assert(st <= 0x200000000000 && sy <= 0x4000000000) by (nonlinear_arith)
        requires
            1 <= n <= 8192,
            0 <= st <= n * 0x100000000,
            0 <= sy <= n * 0x2000000;
    assert(stt <= 0x20000000000000000000 && sty <= 0x400000000000000000) by (nonlinear_arith)
        requires
            1 <= n <= 8192,
            0 <= stt <= n * (0x100000000 * 0x100000000),
            0 <= sty <= n * (0x100000000 * 0x2000000);
    assert(0 <= n * stt <= 0x40000000000000000000000) by (nonlinear_arith)
        requires 1 <= n <= 8192, 0 <= stt <= 0x20000000000000000000;
    assert(0 <= n * sty <= 0x800000000000000000000) by (nonlinear_arith)
        requires 1 <= n <= 8192, 0 <= sty <= 0x400000000000000000;
    assert(0 <= st * st <= 0x40000000000000000000000) by (nonlinear_arith)
        requires 0 <= st <= 0x200000000000;
    assert(0 <= st * sy <= 0x800000000000000000000) by (nonlinear_arith)
        requires 0 <= st <= 0x200000000000, 0 <= sy <= 0x4000000000;
    assert(0 <= sy * stt <= 0x80000000000000000000000000000) by (nonlinear_arith)
        requires 0 <= sy <= 0x4000000000, 0 <= stt <= 0x20000000000000000000;
    assert(0 <= st * sty <= 0x80000000000000000000000000000) by (nonlinear_arith)
        requires 0 <= st <= 0x200000000000, 0 <= sty <= 0x400000000000000000;
}

/// The index of the segment covering `t`: the last with start at or
/// below `t`, or the first where `t` precedes them all.
pub open spec fn seg_index_for(segs: Seq<InterIndex>, t: u64) -> int
    decreases segs.len(),
{
    if segs.len() == 0 {
        0
    } else if segs.last().start_timestamp <= t {
        segs.len() - 1
    } else {
        seg_index_for(segs.drop_last(), t)
    }
}

/// The segment covering `t`.
pub open spec fn seg_for(segs: Seq<InterIndex>, t: u64) -> InterIndex
    recommends segs.len() >= 1,
{
    segs[seg_index_for(segs, t)]
}

/// Appending a segment starting after `t` leaves the covering segment
/// of `t` unchanged.
proof fn lemma_seg_for_push(segs: Seq<InterIndex>, s: InterIndex, t: u64)
    requires
        segs.len() >= 1,
        s.start_timestamp > t,
    ensures
        seg_index_for(segs.push(s), t) == seg_index_for(segs, t),
        seg_for(segs.push(s), t) == seg_for(segs, t),
{
    assert(segs.push(s).last() == s);
    assert(segs.push(s).drop_last() =~= segs);
    lemma_seg_index_in_range(segs, t);
    let idx = seg_index_for(segs, t);
    assert(segs.push(s)[idx] == segs[idx]);
}

/// The covering index is a real index.
proof fn lemma_seg_index_in_range(segs: Seq<InterIndex>, t: u64)
    requires segs.len() >= 1,
    ensures 0 <= seg_index_for(segs, t) < segs.len(),
    decreases segs.len(),
{
    if segs.last().start_timestamp <= t {
    } else if segs.len() == 1 {
        assert(segs.drop_last().len() == 0);
        assert(seg_index_for(segs.drop_last(), t) == 0);
    } else {
        lemma_seg_index_in_range(segs.drop_last(), t);
    }
}

/// Timestamps strictly increase pairwise when they do adjacently.
proof fn lemma_pairwise_increasing(s: Seq<(u64, u64)>, i: int, j: int)
    requires
        forall|p: int| 0 <= p < s.len() - 1 ==> (#[trigger] s[p]).0 < s[p + 1].0,
        0 <= i < j < s.len(),
    ensures s[i].0 < s[j].0,
    decreases j - i,
{
    if j == i + 1 {
        assert(s[i].0 < s[i + 1].0);
    } else {
        lemma_pairwise_increasing(s, i, j - 1);
        assert(s[j - 1].0 < s[j].0);
    }
}

/// Build the piecewise-linear index over ingest-ordered (timestamp,
/// block id) points.  A point outside the current segment's bound
/// triggers a refit over the segment's whole slice; a refit that still
/// misses any point of the slice closes the segment and starts a new
/// one at the offending point.  Every training point ends up within the
/// bound of the segment covering its timestamp.
pub fn build_inter_index(points: &Vec<(u64, u64)>, eps_num: u64, eps_den: u64) -> (r: Result<
    Vec<InterIndex>,
    ChainError,
>)
    ensures
        ({
            let ok_eps = 1 <= eps_den <= MAX_EPS_PART && eps_num <= MAX_EPS_PART;
            let ok_bounds = points@.len() <= MAX_POINT_COUNT && (forall|j: int|
                0 <= j < points@.len() ==> (#[trigger] points@[j]).0 < MAX_POINT_COORD
                    && points@[j].1 < MAX_POINT_ID);
            let ok_order = forall|p: int| 0 <= p < points@.len() - 1
                ==> (#[trigger] points@[p]).0 < points@[p + 1].0;
            match r {
                Ok(segs) => {
                    &&& ok_eps && ok_bounds && ok_order
                    &&& (points@.len() == 0 <==> segs@.len() == 0)
                    &&& forall|c: int| 0 <= c < segs@.len() ==> seg_bounded(#[trigger] segs@[c])
                    &&& forall|c: int| 0 <= c < segs@.len() - 1
                        ==> (#[trigger] segs@[c]).start_timestamp < segs@[c
                        + 1].start_timestamp
                    &&& (points@.len() > 0 ==> segs@[0].start_timestamp == points@[0].0)
                    &&& (forall|c: int| #![trigger segs@[c]] 0 <= c < segs@.len() - 1
                        ==> (exists|lo2: int, hi2: int| 0 <= lo2 < hi2 < points@.len()
                            && points@[lo2].0 == segs@[c].start_timestamp
                            && points@[hi2].0 == segs@[c + 1].start_timestamp
                            && !slice_line_ok(points@, lo2, hi2, eps_num, eps_den)))
                    &&& forall|j: int| 0 <= j < points@.len() ==> spec_within_eps(
                        seg_for(segs@, (#[trigger] points@[j]).0),
                        points@[j].0,
                        points@[j].1,
                        eps_num,
                        eps_den,
                    )
                },
                Err(e) => {
                    &&& !(ok_eps && ok_bounds && ok_order)
                    &&& (e == ChainError::InvalidParameter <==> !(ok_eps && ok_bounds))
                    &&& (e == ChainError::OutOfOrder <==> (ok_eps && ok_bounds && !ok_order))
                },
            }
        }),
{
    if eps_den == 0 || eps_den > MAX_EPS_PART || eps_num > MAX_EPS_PART {
        return Err(ChainError::InvalidParameter);
    }
    if points.len() > MAX_POINT_COUNT {
        return Err(ChainError::InvalidParameter);
    }
    let n = points.len();
    let mut v: usize = 0;
    while v < n
        invariant
            v <= n,
            n == points@.len(),
            forall|j: int| 0 <= j < v ==> (#[trigger] points@[j]).0 < MAX_POINT_COORD
                && points@[j].1 < MAX_POINT_ID,
        decreases n - v,
    {
        let (t, y) = points[v];
        if t >= MAX_POINT_COORD || y >= MAX_POINT_ID {
            return Err(ChainError::InvalidParameter);
        }
        v += 1;
    }
    let mut w: usize = 0;
    while w + 1 < n
        invariant
            n == points@.len(),
            n <= MAX_POINT_COUNT,
            1 <= eps_den <= MAX_EPS_PART,
            eps_num <= MAX_EPS_PART,
            w <= n,
            forall|j: int| 0 <= j < n ==> (#[trigger] points@[j]).0 < MAX_POINT_COORD
                && points@[j].1 < MAX_POINT_ID,
            forall|p: int| 0 <= p < w ==> (#[trigger] points@[p]).0 < points@[p + 1].0,
        decreases n - w,
    {
        if points[w].0 >= points[w + 1].0 {
            return Err(ChainError::OutOfOrder);
        }
        w += 1;
    }
    if n == 0 {
        let segs: Vec<InterIndex> = Vec::new();
        return Ok(segs);
    }

    let mut segs: Vec<InterIndex> = Vec::new();
    let mut cur = InterIndex { start_timestamp: points[0].0, a_num: 1, b_num: 1, den: 1 };
    let mut seg_lo: usize = 0;
    let mut i: usize = 0;
    while i < n
        invariant
            n == points@.len(),
            1 <= n <= MAX_POINT_COUNT,
            1 <= eps_den <= MAX_EPS_PART,
            eps_num <= MAX_EPS_PART,
            forall|j: int| 0 <= j < n ==> (#[trigger] points@[j]).0 < MAX_POINT_COORD
                && points@[j].1 < MAX_POINT_ID,
            forall|p: int| 0 <= p < n - 1 ==> (#[trigger] points@[p]).0 < points@[p + 1].0,
            0 <= seg_lo <= i,
            seg_lo < n,
            i <= n,
            cur.start_timestamp == points@[seg_lo as int].0,
            seg_bounded(cur),
            forall|c: int| 0 <= c < segs@.len() ==> seg_bounded(#[trigger] segs@[c]),
            forall|c: int| 0 <= c < segs@.len() - 1
                ==> (#[trigger] segs@[c]).start_timestamp < segs@[c + 1].start_timestamp,
            segs@.len() >= 1 ==> segs@[0].start_timestamp == points@[0].0,
            segs@.len() == 0 ==> seg_lo == 0,
            segs@.len() >= 1 ==> segs@.last().start_timestamp < cur.start_timestamp,
            forall|j: int| seg_lo <= j < i ==> spec_within_eps(
                cur,
                (#[trigger] points@[j]).0,
                points@[j].1,
                eps_num,
                eps_den,
            ),
            forall|j: int| 0 <= j < seg_lo ==> spec_within_eps(
                seg_for(segs@, (#[trigger] points@[j]).0),
                points@[j].0,
                points@[j].1,
                eps_num,
                eps_den,
            ),
            forall|j: int| 0 <= j < seg_lo ==> (#[trigger] points@[j]).0 < cur.start_timestamp,
            forall|c: int| #![trigger segs@[c]] 0 <= c < segs@.len() - 1
                ==> (exists|lo2: int, hi2: int| 0 <= lo2 < hi2 < n
                    && points@[lo2].0 == segs@[c].start_timestamp
                    && points@[hi2].0 == segs@[c + 1].start_timestamp
                    && !slice_line_ok(points@, lo2, hi2, eps_num, eps_den)),
            segs@.len() >= 1 ==> (exists|lo2: int, hi2: int| 0 <= lo2 < hi2 < n
                && points@[lo2].0 == segs@.last().start_timestamp
                && points@[hi2].0 == cur.start_timestamp
                && !slice_line_ok(points@, lo2, hi2, eps_num, eps_den)),
        decreases n - i,
    {
        let (t, y) = points[i];
        if within_eps(&cur, t, y, eps_num, eps_den) {
            i += 1;
            continue;
        }
        let fit = linear_regression(points, seg_lo, i);
        let candidate = InterIndex {
            start_timestamp: cur.start_timestamp,
            a_num: fit.0,
            b_num: fit.1,
            den: fit.2,
        };
        let all_ok = check_slice(points, seg_lo, i, &candidate, eps_num, eps_den);
        if all_ok {
            cur = candidate;
            i += 1;
            continue;
        }
        // Close the current segment and open one at this point with the
        // initial line, refitted to the point alone when it misses.
        proof {
            // The failing slice has at least two points: a single-point
            // slice always fits its own least-squares line exactly.
            if seg_lo == i {
                let single = points@.subrange(seg_lo as int, i + 1);
                assert(single.len() == 1);
                assert(single.drop_last() =~= Seq::<(u64, u64)>::empty());
                assert(single.last() == points@[i as int]);
                assert(sum_t(Seq::<(u64, u64)>::empty()) == 0);
                assert(sum_y(Seq::<(u64, u64)>::empty()) == 0);
                assert(sum_tt(Seq::<(u64, u64)>::empty()) == 0);
                assert(sum_ty(Seq::<(u64, u64)>::empty()) == 0);
                assert(sum_t(single) == t && sum_y(single) == y);
                assert(sum_tt(single) == t * t && sum_ty(single) == t * y);
                assert(1 * sum_tt(single) - sum_t(single) * sum_t(single) == 0)
                    by (nonlinear_arith)
                    requires sum_tt(single) == t * t, sum_t(single) == t;
                assert(spec_fit(single) == (0int, y as int, 1int));
                assert(candidate.a_num == 0 && candidate.b_num == y && candidate.den == 1);
                assert(candidate.a_num * t == 0) by (nonlinear_arith)
                    requires candidate.a_num == 0;
                assert(y * candidate.den == y) by (nonlinear_arith)
                    requires candidate.den == 1;
                assert(line_err(candidate, t, y) == 0);
                assert(abs_int(line_err(candidate, t, y)) * eps_den == 0) by (nonlinear_arith)
                    requires abs_int(line_err(candidate, t, y)) == 0;
                assert(eps_num * candidate.den >= 0) by (nonlinear_arith)
                    requires eps_num >= 0, candidate.den >= 1;
                assert(spec_within_eps(candidate, t, y, eps_num, eps_den));
                assert(false);
            }
            lemma_pairwise_increasing(points@, seg_lo as int, i as int);
        }
        let ghost lo_closed = seg_lo as int;
        let ghost hi_closed = i as int;
        let ghost cur_closed = cur;
        proof {
            let f = spec_fit(points@.subrange(seg_lo as int, i + 1));
            assert(candidate.a_num as int == f.0 && candidate.b_num as int == f.1
                && candidate.den as int == f.2);
            assert(exists|j: int| seg_lo <= j <= i && !spec_within_eps(
                candidate,
                (#[trigger] points@[j]).0,
                points@[j].1,
                eps_num,
                eps_den,
            ));
            let jf = choose|j: int| seg_lo <= j <= i && !spec_within_eps(
                candidate,
                (#[trigger] points@[j]).0,
                points@[j].1,
                eps_num,
                eps_den,
            );
            assert(!fit_point_ok(points@, seg_lo as int, i as int, jf, eps_num, eps_den));
            assert(!slice_line_ok(points@, seg_lo as int, i as int, eps_num, eps_den));
        }
        let ghost old_segs = segs@;
        segs.push(cur);
        proof {
            if seg_lo < i as int {
                lemma_pairwise_increasing(points@, seg_lo as int, i as int);
            }
            assert forall|j: int| 0 <= j < i implies spec_within_eps(
                seg_for(segs@, (#[trigger] points@[j]).0),
                points@[j].0,
                points@[j].1,
                eps_num,
                eps_den,
            ) by {
                if j < seg_lo {
                    if j < seg_lo {
                        lemma_pairwise_increasing(points@, j, seg_lo as int);
                    }
                    assert(points@[j].0 < cur.start_timestamp);
                    lemma_seg_for_push(old_segs, cur, points@[j].0);
                } else {
                    assert(spec_within_eps(cur, points@[j].0, points@[j].1, eps_num, eps_den));
                    assert(segs@.last() == cur);
                    assert(cur.start_timestamp == points@[seg_lo as int].0);
                    if j > seg_lo {
                        lemma_pairwise_increasing(points@, seg_lo as int, j);
                    }
                    assert(cur.start_timestamp <= points@[j].0);
                    assert(seg_index_for(segs@, points@[j].0) == segs@.len() - 1);
                }
            }
        }
        let init = InterIndex { start_timestamp: t, a_num: 1, b_num: 1, den: 1 };
        if within_eps(&init, t, y, eps_num, eps_den) {
            cur = init;
        } else {
            cur = InterIndex { start_timestamp: t, a_num: 0, b_num: y as i128, den: 1 };
            proof {
                assert(cur.a_num * t == 0) by (nonlinear_arith)
                    requires cur.a_num == 0;
                assert(y * cur.den == y) by (nonlinear_arith)
                    requires cur.den == 1;
                assert(line_err(cur, t, y) == 0);
                assert(abs_int(line_err(cur, t, y)) * eps_den == 0) by (nonlinear_arith)
                    requires abs_int(line_err(cur, t, y)) == 0;
                assert(eps_num * cur.den >= 0) by (nonlinear_arith)
                    requires eps_num >= 0, cur.den >= 1;
                assert(spec_within_eps(cur, t, y, eps_num, eps_den));
            }
        }
        seg_lo = i;
        proof {
            assert forall|j: int| 0 <= j < seg_lo implies (#[trigger] points@[j]).0
                < cur.start_timestamp by {
                if j < i {
                    lemma_pairwise_increasing(points@, j, i as int);
                }
            }
        }
        proof {
            assert(segs@ == old_segs.push(cur_closed));
            assert(points@[lo_closed].0 == cur_closed.start_timestamp);
            assert(points@[hi_closed].0 == cur.start_timestamp);
            assert(lo_closed < hi_closed);
            assert forall|c: int| #![trigger segs@[c]] 0 <= c < segs@.len() - 1 implies (exists|
                lo2: int,
                hi2: int,
            |
                0 <= lo2 < hi2 < n && points@[lo2].0 == segs@[c].start_timestamp
                    && points@[hi2].0 == segs@[c + 1].start_timestamp && !slice_line_ok(
                    points@,
                    lo2,
                    hi2,
                    eps_num,
                    eps_den,
                )) by {
                if c < old_segs.len() - 1 {
                    assert(segs@[c] == old_segs[c]);
                    assert(segs@[c + 1] == old_segs[c + 1]);
                } else {
                    assert(c == old_segs.len() - 1);
                    assert(segs@[c] == old_segs[c]);
                    assert(old_segs[c] == old_segs.last());
                    assert(segs@[c + 1] == cur_closed);
                }
            }
            assert(segs@.last() == cur_closed);
            assert(0 <= lo_closed < hi_closed < n
                && points@[lo_closed].0 == segs@.last().start_timestamp
                && points@[hi_closed].0 == cur.start_timestamp && !slice_line_ok(
                points@,
                lo_closed,
                hi_closed,
                eps_num,
                eps_den,
            ));
        }
        i += 1;
    }
    proof {
        if seg_lo < n - 1 {
            lemma_pairwise_increasing(points@, seg_lo as int, n - 1);
        }
    }
    let ghost old_segs = segs@;
    segs.push(cur);
    proof {
        assert forall|j: int| 0 <= j < n implies spec_within_eps(
            seg_for(segs@, (#[trigger] points@[j]).0),
            points@[j].0,
            points@[j].1,
            eps_num,
            eps_den,
        ) by {
            if j < seg_lo {
                lemma_pairwise_increasing(points@, j, seg_lo as int);
                assert(points@[j].0 < cur.start_timestamp);
                lemma_seg_for_push(old_segs, cur, points@[j].0);
            } else {
                if j > seg_lo {
                    lemma_pairwise_increasing(points@, seg_lo as int, j);
                }
                assert(cur.start_timestamp <= points@[j].0);
                assert(segs@.last() == cur);
                assert(seg_index_for(segs@, points@[j].0) == segs@.len() - 1);
            }
        }
        assert forall|c: int| #![trigger segs@[c]] 0 <= c < segs@.len() - 1 implies (exists|
            lo2: int,
            hi2: int,
        |
            0 <= lo2 < hi2 < points@.len() && points@[lo2].0 == segs@[c].start_timestamp
                && points@[hi2].0 == segs@[c + 1].start_timestamp && !slice_line_ok(
                points@,
                lo2,
                hi2,
                eps_num,
                eps_den,
            )) by {
            if c < old_segs.len() - 1 {
                assert(segs@[c] == old_segs[c]);
                assert(segs@[c + 1] == old_segs[c + 1]);
            } else {
                assert(c == old_segs.len() - 1);
                assert(segs@[c] == old_segs.last());
                assert(segs@[c + 1] == cur);
            }
        }
    }
    Ok(segs)
}

/// Whether every point of points[lo ..= hi] lies within the bound of
/// the candidate segment.
fn check_slice(
    points: &Vec<(u64, u64)>,
    lo: usize,
    hi: usize,
    s: &InterIndex,
    eps_num: u64,
    eps_den: u64,
) -> (r: bool)
    requires
        lo <= hi < points@.len(),
        seg_bounded(*s),
        eps_num <= MAX_EPS_PART,
        eps_den <= MAX_EPS_PART,
        forall|j: int| 0 <= j < points@.len() ==> (#[trigger] points@[j]).0 < MAX_POINT_COORD
            && points@[j].1 < MAX_POINT_ID,
    ensures
        r == (forall|j: int| lo <= j <= hi ==> spec_within_eps(
            *s,
            (#[trigger] points@[j]).0,
            points@[j].1,
            eps_num,
            eps_den,
        )),
{
    let total = points.len();
    let mut j: usize = lo;
    while j <= hi
        invariant
            lo <= j <= hi + 1,
            total == points@.len(),
            hi < points@.len(),
            seg_bounded(*s),
            eps_num <= MAX_EPS_PART,
            eps_den <= MAX_EPS_PART,
            forall|q: int| 0 <= q < points@.len() ==> (#[trigger] points@[q]).0 < MAX_POINT_COORD
                && points@[q].1 < MAX_POINT_ID,
            forall|q: int| lo <= q < j ==> spec_within_eps(
                *s,
                (#[trigger] points@[q]).0,
                points@[q].1,
                eps_num,
                eps_den,
            ),
        decreases hi + 1 - j,
    {
        let (t, y) = points[j];
        if !within_eps(s, t, y, eps_num, eps_den) {
            return false;
        }
        j += 1;
    }
    true
}

/// The index of the covering start timestamp in a plain list: the last
/// at or below `t`, or the first where `t` precedes them all.
pub open spec fn start_index_for(starts: Seq<u64>, t: u64) -> int
    decreases starts.len(),
{
    if starts.len() == 0 {
        0
    } else if starts.last() <= t {
        starts.len() - 1
    } else {
        start_index_for(starts.drop_last(), t)
    }
}

/// The covering index is a real index, its start is at or below `t`
/// unless `t` precedes every start, and the next start is above `t`.
proof fn lemma_start_index_char(starts: Seq<u64>, t: u64)
    requires
        starts.len() >= 1,
        forall|p: int| 0 <= p < starts.len() - 1 ==> #[trigger] starts[p] < starts[p + 1],
    ensures
        0 <= start_index_for(starts, t) < starts.len(),
        starts[start_index_for(starts, t)] <= t || start_index_for(starts, t) == 0,
        start_index_for(starts, t) < starts.len() - 1 ==> starts[start_index_for(starts, t) + 1]
            > t,
        t >= starts[0] ==> starts[start_index_for(starts, t)] <= t,
    decreases starts.len(),
{
    if starts.last() <= t {
    } else if starts.len() == 1 {
        assert(starts.drop_last().len() == 0);
        assert(start_index_for(starts.drop_last(), t) == 0);
    } else {
        let pre = starts.drop_last();
        assert forall|p: int| 0 <= p < pre.len() - 1 implies #[trigger] pre[p] < pre[p + 1] by {
            assert(starts[p] < starts[p + 1]);
        }
        lemma_start_index_char(pre, t);
        assert(start_index_for(starts, t) == start_index_for(pre, t));
    }
}

/// Find the start timestamp of the segment covering `target`: the
/// greatest start at or below it, or the first start when the target
/// precedes them all.
pub fn variant_binary_search(starts: &Vec<u64>, target: u64) -> (r: u64)
    requires
        starts@.len() >= 1,
        forall|p: int| 0 <= p < starts@.len() - 1 ==> #[trigger] starts@[p] < starts@[p + 1],
    ensures r == starts@[start_index_for(starts@, target)],
{
    proof {
        lemma_start_index_char(starts@, target);
    }
    if target < starts[0] {
        proof {
            if start_index_for(starts@, target) != 0 {
                assert(starts@[start_index_for(starts@, target)] <= target);
                lemma_starts_pairwise(starts@, 0, start_index_for(starts@, target));
            }
        }
        return starts[0];
    }
    let n = starts.len();
    let mut lo: usize = 0;
    let mut hi: usize = starts.len() - 1;
    while lo < hi
        invariant
            n == starts@.len(),
            0 <= lo <= hi < starts@.len(),
            forall|p: int| 0 <= p < starts@.len() - 1 ==> #[trigger] starts@[p] < starts@[p + 1],
            starts@[lo as int] <= target,
            hi < starts@.len() - 1 ==> starts@[hi + 1] > target,
        decreases hi - lo,
    {
        let mid = lo + (hi - lo + 1) / 2;
        if starts[mid] <= target {
            lo = mid;
        } else {
            hi = mid - 1;
        }
    }
    proof {
        let j = start_index_for(starts@, target);
        // Both indices point at the last start at or below the target.
        if j < lo {
            assert(starts@[j + 1] > target);
            if (j + 1) < lo {
                lemma_starts_pairwise(starts@, j + 1, lo as int);
            }
            assert(starts@[lo as int] >= starts@[j + 1]);
        }
        if lo < j {
            assert(starts@[j as int] <= target);
            assert(lo < starts@.len() - 1);
            assert(starts@[lo + 1] > target);
            if (lo + 1) < j {
                lemma_starts_pairwise(starts@, lo + 1, j);
            }
            assert(starts@[j as int] >= starts@[lo + 1]);
        }
    }
    starts[lo]
}

/// Start timestamps strictly increase pairwise when they do adjacently.
proof fn lemma_starts_pairwise(s: Seq<u64>, i: int, j: int)
    requires
        forall|p: int| 0 <= p < s.len() - 1 ==> #[trigger] s[p] < s[p + 1],
        0 <= i < j < s.len(),
    ensures s[i] < s[j],
    decreases j - i,
{
    if j == i + 1 {
    } else {
        lemma_starts_pairwise(s, i, j - 1);
    }
}

/// Floor of `a / b` for a positive divisor.
fn floor_div(a: i128, b: i128) -> (r: i128)
    requires
        1 <= b,
        -0x40000000000000000000000000000000 <= a <= 0x40000000000000000000000000000000,
        b <= 0x40000000000000000000000000000000,
    ensures r == a / b,
{
    if a >= 0 {
        let q = (a as u128) / (b as u128);
        proof {
            assert(q == a / b);
        }
        q as i128
    } else {
        let m = (-a) as u128;
        let q = (m + (b as u128) - 1) / (b as u128);
        proof {
            vstd::arithmetic::div_mod::lemma_fundamental_div_mod((m + b - 1) as int, b as int);
            vstd::arithmetic::div_mod::lemma_mod_bound((m + b - 1) as int, b as int);
            let qi = ((m + b - 1) as int) / (b as int);
            let s2 = (qi * b - m) as int;
            assert(0 <= s2 < b) by (nonlinear_arith)
                requires
                    (m + b - 1) as int == b * qi + ((m + b - 1) as int) % (b as int),
                    0 <= ((m + b - 1) as int) % (b as int) < b,
                    s2 == qi * b - m,
                    b >= 1;
            assert(a as int == (-qi) * (b as int) + s2) by (nonlinear_arith)
                requires s2 == qi * b - m, a as int == -(m as int);
            vstd::arithmetic::div_mod::lemma_fundamental_div_mod_converse(
                a as int,
                b as int,
                -qi,
                s2,
            );
        }
        -(q as i128)
    }
}

/// The scaled numerator of a segment's prediction at `t`.
pub open spec fn predict_numer(s: InterIndex, t: u64) -> int {
    s.a_num * t + s.b_num
}

/// The lowest candidate block id the window allows, before clamping.
pub open spec fn spec_predict_lo(s: InterIndex, t: u64, eps_num: u64, eps_den: u64) -> int {
    (predict_numer(s, t) * eps_den - eps_num * s.den) / (s.den * eps_den)
}

/// The highest candidate block id the window allows, before clamping.
pub open spec fn spec_predict_hi(s: InterIndex, t: u64, eps_num: u64, eps_den: u64) -> int {
    (predict_numer(s, t) * eps_den + eps_num * s.den + s.den * eps_den - 1) / (s.den * eps_den)
}

/// Clamp a predicted id into the ledger's block id range.
pub open spec fn spec_clamp(v: int, lo: u64, hi: u64) -> u64 {
    if v < lo { lo } else if v > hi { hi } else { v as u64 }
}

/// The candidate block id window of a segment at `t`: the prediction
/// widened by the error bound, floored and ceiled, clamped to the
/// ledger's id range.
pub fn predict_range(
    s: &InterIndex,
    t: u64,
    eps_num: u64,
    eps_den: u64,
    first_id: u64,
    last_id: u64,
) -> (r: (u64, u64))
    requires
        seg_bounded(*s),
        t < MAX_POINT_COORD,
        1 <= eps_den <= MAX_EPS_PART,
        eps_num <= MAX_EPS_PART,
        first_id <= last_id,
    ensures
        r.0 == spec_clamp(spec_predict_lo(*s, t, eps_num, eps_den), first_id, last_id),
        r.1 == spec_clamp(spec_predict_hi(*s, t, eps_num, eps_den), first_id, last_id),
{
    proof {
        assert(-0x200000000000000000000000000000 <= s.a_num * t
            && s.a_num * t <= 0x200000000000000000000000000000) by (nonlinear_arith)
            requires
                -0x2000000000000000000000 <= s.a_num <= 0x2000000000000000000000,
                0 <= t < 0x100000000;
    }
    let numer: i128 = s.a_num * (t as i128) + s.b_num;
    proof {
        assert(-0x20000000000000000000000000000000 <= numer * eps_den
            && numer * eps_den <= 0x20000000000000000000000000000000) by (nonlinear_arith)
            requires
                -0x400000000000000000000000000000 <= numer
                    <= 0x400000000000000000000000000000,
                0 <= eps_den <= 128;
        assert(0 <= (eps_num as int) * s.den && (eps_num as int) * s.den
            <= 0x4000000000000000000000000) by (nonlinear_arith)
            requires 0 <= eps_num <= 128, 1 <= s.den <= 0x80000000000000000000000;
        assert(1 <= s.den * eps_den && s.den * eps_den <= 0x4000000000000000000000000)
            by (nonlinear_arith)
            requires 1 <= eps_den <= 128, 1 <= s.den <= 0x80000000000000000000000;
    }
    let denom: i128 = s.den * (eps_den as i128);
    let lower: i128 = numer * (eps_den as i128) - (eps_num as i128) * s.den;
    let upper: i128 = numer * (eps_den as i128) + (eps_num as i128) * s.den + denom - 1;
    let lo_pred = floor_div(lower, denom);
    let hi_pred = floor_div(upper, denom);
    let lo_id = if lo_pred < first_id as i128 {
        first_id
    } else if lo_pred > last_id as i128 {
        last_id
    } else {
        lo_pred as u64
    };
    let hi_id = if hi_pred < first_id as i128 {
        first_id
    } else if hi_pred > last_id as i128 {
        last_id
    } else {
        hi_pred as u64
    };
    (lo_id, hi_id)
}

} // verus!
