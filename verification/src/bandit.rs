//! The adaptive index selector: a cost model over scaled integers, Holt
//! linear forecasting of block access, and Boltzmann-weighted sampling
//! of affordable index configurations under a storage budget.

use vstd::prelude::*;
use crate::block::IndexConfig;
use crate::errors::ChainError;

verus! {

/// The default exploration temperature, in thousandths: three tenths.
pub const BANDIT_TEMPERATURE_MILLI: u64 = 300;

/// The default storage budget in bytes: one hundred mebibytes.
pub const BANDIT_BUDGET: u64 = 104857600;

/// Smoothing weight of the level update, in millionths: two fifths.
pub const HOLT_ALPHA_PPM: u64 = 400000;

/// Smoothing weight of the trend update, in millionths: three fifths.
pub const HOLT_BETA_PPM: u64 = 600000;

/// One scaling unit: a million.
pub const PPM: u64 = 1000000;

/// Relies on rand::random_range over 0..n: the draw lands below the
/// bound.  Nothing else is promised of a random value.
#[verifier::external_body]
fn random_below(n: u64) -> (r: u64)
    requires n >= 1,
    ensures r < n,
{
    rand::random_range(0..n)
}

/// One unit of exponential growth: multiply by 2718/1000, saturating
/// at the largest machine word.
pub open spec fn spec_exp_step(acc: int) -> int {
    let v = acc * 2718 / 1000;
    if v > u64::MAX {
        u64::MAX as int
    } else {
        v
    }
}

/// `n` units of growth from `acc`.
pub open spec fn spec_exp_milli_steps(acc: int, n: nat) -> int
    decreases n,
{
    if n == 0 {
        acc
    } else {
        spec_exp_milli_steps(spec_exp_step(acc), (n - 1) as nat)
    }
}

/// The scaled exponential: 1000 times e to the power of x thousandths,
/// approximated unit by unit with the fraction dropped, saturating.
pub open spec fn spec_exp_milli(x: u64) -> int {
    let n: nat = if x / 1000 > 43 {
        43 as nat
    } else {
        (x / 1000) as nat
    };
    spec_exp_milli_steps(1000, n)
}

/// Evaluate the scaled exponential.
pub fn exp_milli(x: u64) -> (r: u64)
    ensures
        r == spec_exp_milli(x),
        r >= 1,
{
    let n: u64 = if x / 1000 > 43 {
        43
    } else {
        x / 1000
    };
    let mut acc: u128 = 1000;
    let mut i: u64 = 0;
    while i < n
        invariant
            i <= n,
            n <= 43,
            1 <= acc,
            acc <= u64::MAX,
            spec_exp_milli_steps(1000, n as nat) == spec_exp_milli_steps(
                acc as int,
                (n - i) as nat,
            ),
        decreases n - i,
    {
        proof {
            assert(acc * 2718 <= (u64::MAX as u128) * 2718) by (nonlinear_arith)
                requires acc <= u64::MAX;
            assert(acc * 2718 / 1000 >= 1) by (nonlinear_arith)
                requires acc >= 1;
        }
        let nxt: u128 = acc * 2718 / 1000;
        if nxt > u64::MAX as u128 {
            acc = u64::MAX as u128;
        } else {
            acc = nxt;
        }
        i += 1;
    }
    acc as u64
}



/// Division rounding toward zero, as machine signed division does.
pub open spec fn trunc_div(a: int, b: int) -> int
    recommends b >= 1,
{
    if a >= 0 {
        a / b
    } else {
        -((-a) / b)
    }
}

/// Clamp into the narrow per-term range.
pub open spec fn clamp_term(v: int) -> int {
    if v > 0x1000000000000000 {
        0x1000000000000000
    } else if v < -0x1000000000000000 {
        -0x1000000000000000
    } else {
        v
    }
}

/// Clamp into the wide accumulator range.
pub open spec fn clamp_acc(v: int) -> int {
    if v > 0x10000000000000000000000000000 {
        0x10000000000000000000000000000
    } else if v < -0x10000000000000000000000000000 {
        -0x10000000000000000000000000000
    } else {
        v
    }
}

/// A feature weight: the saturated product, clamped to the term range.
pub open spec fn spec_feat(a: u64, b: u64) -> int {
    clamp_term(sat64(a * b) as int)
}

/// Fold the clamped error-times-feature terms over the observations.
pub open spec fn spec_grad_fold(
    pred: u64,
    obs: Seq<u64>,
    pf: int,
    tf: int,
    gl: int,
    gs: int,
) -> (int, int)
    decreases obs.len(),
{
    if obs.len() == 0 {
        (gl, gs)
    } else {
        let errc = clamp_term(pred - obs.first());
        let gl2 = clamp_acc(gl + clamp_acc(errc * pf));
        let gs2 = clamp_acc(gs + clamp_acc(errc * tf));
        spec_grad_fold(pred, obs.drop_first(), pf, tf, gl2, gs2)
    }
}

/// The averaged gradient pair of the cost model over the observations.
pub open spec fn spec_batch_gradient(
    c: QueryCost,
    lambda_ppm: u64,
    sigma_ppm: u64,
    obs: Seq<u64>,
) -> (int, int)
    recommends obs.len() >= 1,
{
    let pred = c.spec_cost(lambda_ppm, sigma_ppm);
    let pf = spec_feat(c.n_pages, c.c_page);
    let tf = spec_feat(c.c_tuple_micro, c.n_total_tuple);
    let g = spec_grad_fold(pred, obs, pf, tf, 0, 0);
    (trunc_div(g.0, obs.len() as int), trunc_div(g.1, obs.len() as int))
}

/// Divide a clamped accumulator by a positive count, toward zero.
fn div_acc_trunc(a: i128, n: i128) -> (r: i128)
    requires
        1 <= n,
        -0x10000000000000000000000000000 <= a <= 0x10000000000000000000000000000,
    ensures r as int == trunc_div(a as int, n as int),
{
    if a >= 0 {
        let q = (a as u128) / (n as u128);
        proof {
            assert(q == (a as int) / (n as int));
        }
        q as i128
    } else {
        let m = (-a) as u128;
        let q = m / (n as u128);
        proof {
            assert(q == ((-a) as int) / (n as int));
        }
        -(q as i128)
    }
}

/// Saturate an unbounded value into a machine word.
pub open spec fn sat64(v: int) -> u64 {
    if v > u64::MAX {
        u64::MAX as u64
    } else if v < 0 {
        0u64
    } else {
        v as u64
    }
}

/// The cost model of one candidate scan: page count, per-page cost,
/// per-tuple cost in millionths, and tuple count.
pub struct QueryCost {
    pub n_pages: u64,
    pub c_page: u64,
    pub c_tuple_micro: u64,
    pub n_total_tuple: u64,
}

impl QueryCost {
    /// The predicted cost in micro-units: the page term weighted by
    /// lambda and the tuple term weighted by the selectivity sigma,
    /// both weights in millionths, saturating.
    pub open spec fn spec_cost(&self, lambda_ppm: u64, sigma_ppm: u64) -> u64 {
        sat64(
            self.n_pages * lambda_ppm * self.c_page / (PPM as int) + self.c_tuple_micro
                * sigma_ppm * self.n_total_tuple / (PPM as int),
        )
    }

    /// Evaluate the predicted cost.
    pub fn cost(&self, lambda_ppm: u64, sigma_ppm: u64) -> (r: u64)
        ensures r == self.spec_cost(lambda_ppm, sigma_ppm),
    {
        proof {
            assert((self.n_pages as u128) * (lambda_ppm as u128) <= (u64::MAX as u128) * (
            u64::MAX as u128)) by (nonlinear_arith)
                requires self.n_pages <= u64::MAX, lambda_ppm <= u64::MAX;
        }
        let pages: u128 = (self.n_pages as u128) * (lambda_ppm as u128);
        let ghost gp = self.n_pages * lambda_ppm * self.c_page / (PPM as int);
        let ghost gt = self.c_tuple_micro * sigma_ppm * self.n_total_tuple / (PPM as int);
        let page_term: u128 = mul_div_sat(pages, self.c_page);
        proof {
            assert((self.c_tuple_micro as u128) * (sigma_ppm as u128) <= (u64::MAX as u128) * (
            u64::MAX as u128)) by (nonlinear_arith)
                requires self.c_tuple_micro <= u64::MAX, sigma_ppm <= u64::MAX;
        }
        let tuples: u128 = (self.c_tuple_micro as u128) * (sigma_ppm as u128);
        let tuple_term: u128 = mul_div_sat(tuples, self.n_total_tuple);
        proof {
            assert(page_term as int == (if gp > u64::MAX { u64::MAX as int } else { gp }));
            assert(tuple_term as int == (if gt > u64::MAX { u64::MAX as int } else { gt }));
        }
        let total: u128 = page_term + tuple_term;
        if total > u64::MAX as u128 {
            u64::MAX
        } else {
            total as u64
        }
    }

    /// The averaged gradient of the squared error over observed costs,
    /// in micro-units per millionth, for the two weights.  An empty
    /// observation list is refused.
    pub fn batch_gradient(
        &self,
        lambda_ppm: u64,
        sigma_ppm: u64,
        observed: &Vec<u64>,
    ) -> (r: Result<(i128, i128), ChainError>)
        ensures
            r is Ok <==> observed@.len() > 0,
            match r {
                Ok(g) => (g.0 as int, g.1 as int) == spec_batch_gradient(
                    *self,
                    lambda_ppm,
                    sigma_ppm,
                    observed@,
                ),
                Err(e) => e == ChainError::NoObservations,
            },
    {
        if observed.len() == 0 {
            return Err(ChainError::NoObservations);
        }
        let predicted = self.cost(lambda_ppm, sigma_ppm);
        let page_feat_w: u64 = mul_sat_u64(self.n_pages, self.c_page);
        let tuple_feat_w: u64 = mul_sat_u64(self.c_tuple_micro, self.n_total_tuple);
        let pf: i128 = if page_feat_w as u128 > 0x1000000000000000 {
            0x1000000000000000
        } else {
            page_feat_w as i128
        };
        let tf: i128 = if tuple_feat_w as u128 > 0x1000000000000000 {
            0x1000000000000000
        } else {
            tuple_feat_w as i128
        };
        proof {
            assert(pf as int == spec_feat(self.n_pages, self.c_page));
            assert(tf as int == spec_feat(self.c_tuple_micro, self.n_total_tuple));
            assert(observed@.skip(0) =~= observed@);
        }
        let mut grad_lambda: i128 = 0;
        let mut grad_sigma: i128 = 0;
        let mut i: usize = 0;
        while i < observed.len()
            invariant
                i <= observed@.len(),
                -0x10000000000000000000000000000 <= grad_lambda
                    <= 0x10000000000000000000000000000,
                -0x10000000000000000000000000000 <= grad_sigma
                    <= 0x10000000000000000000000000000,
                0 <= pf <= 0x1000000000000000,
                0 <= tf <= 0x1000000000000000,
                spec_grad_fold(predicted, observed@, pf as int, tf as int, 0, 0)
                    == spec_grad_fold(
                    predicted,
                    observed@.skip(i as int),
                    pf as int,
                    tf as int,
                    grad_lambda as int,
                    grad_sigma as int,
                ),
            decreases observed@.len() - i,
        {
            proof {
                let rest = observed@.skip(i as int);
                assert(rest.first() == observed@[i as int]);
                assert(rest.drop_first() =~= observed@.skip(i + 1));
            }
            let err: i128 = predicted as i128 - observed[i] as i128;
            let errc: i128 = if err > 0x1000000000000000 {
                0x1000000000000000
            } else if err < -0x1000000000000000 {
                -0x1000000000000000
            } else {
                err
            };
            proof {
                assert(errc * pf <= 0x1000000000000000i128 * 0x1000000000000000 && errc * pf
                    >= -(0x1000000000000000i128 * 0x1000000000000000)) by (nonlinear_arith)
                    requires
                        -0x1000000000000000 <= errc <= 0x1000000000000000,
                        0 <= pf <= 0x1000000000000000;
                assert(errc * tf <= 0x1000000000000000i128 * 0x1000000000000000 && errc * tf
                    >= -(0x1000000000000000i128 * 0x1000000000000000)) by (nonlinear_arith)
                    requires
                        -0x1000000000000000 <= errc <= 0x1000000000000000,
                        0 <= tf <= 0x1000000000000000;
            }
            let gl = clamp_i128(errc * pf);
            let gs = clamp_i128(errc * tf);
            grad_lambda = clamp_i128(grad_lambda + gl);
            grad_sigma = clamp_i128(grad_sigma + gs);
            i += 1;
        }
        proof {
            assert(observed@.skip(observed@.len() as int).len() == 0);
        }
        let n = observed.len() as i128;
        let avg_l = div_acc_trunc(grad_lambda, n);
        let avg_s = div_acc_trunc(grad_sigma, n);
        Ok((avg_l, avg_s))
    }

    /// Projected gradient descent over the two weights: refuse a
    /// learning rate outside (0, 1] in millionths or an empty
    /// observation list, otherwise iterate the averaged gradient step,
    /// clamping the weights at zero and the machine top.
    pub fn gradient_descent(
        &self,
        initial_lambda_ppm: u64,
        initial_sigma_ppm: u64,
        learning_rate_ppm: u64,
        iterations: usize,
        observed: &Vec<u64>,
    ) -> (r: Result<(u64, u64), ChainError>)
        ensures
            r is Err <==> (learning_rate_ppm == 0 || learning_rate_ppm > PPM || observed@.len()
                == 0),
            match r {
                Ok(g) => g == spec_descend(
                    *self,
                    initial_lambda_ppm,
                    initial_sigma_ppm,
                    learning_rate_ppm,
                    iterations as nat,
                    observed@,
                ),
                Err(e) => {
                    &&& (e == ChainError::InvalidLearningRate <==> (learning_rate_ppm == 0
                        || learning_rate_ppm > PPM))
                    &&& (e == ChainError::NoObservations <==> (learning_rate_ppm >= 1
                        && learning_rate_ppm <= PPM && observed@.len() == 0))
                },
            },
    {
        if learning_rate_ppm == 0 || learning_rate_ppm > PPM {
            return Err(ChainError::InvalidLearningRate);
        }
        if observed.len() == 0 {
            return Err(ChainError::NoObservations);
        }
        let mut lambda = initial_lambda_ppm;
        let mut sigma = initial_sigma_ppm;
        let mut it: usize = 0;
        while it < iterations
            invariant
                it <= iterations,
                observed@.len() > 0,
                1 <= learning_rate_ppm <= PPM,
                spec_descend(
                    *self,
                    initial_lambda_ppm,
                    initial_sigma_ppm,
                    learning_rate_ppm,
                    iterations as nat,
                    observed@,
                ) == spec_descend(
                    *self,
                    lambda,
                    sigma,
                    learning_rate_ppm,
                    (iterations - it) as nat,
                    observed@,
                ),
            decreases iterations - it,
        {
            let (gl, gs) = match self.batch_gradient(lambda, sigma, observed) {
                Ok(g) => g,
                Err(_) => {
                    proof {
                        assert(false);
                    }
                    return Err(ChainError::NoObservations);
                },
            };
            lambda = step_weight(lambda, gl, learning_rate_ppm);
            sigma = step_weight(sigma, gs, learning_rate_ppm);
            it += 1;
        }
        Ok((lambda, sigma))
    }
}

/// Multiply saturating at the machine top.
fn mul_sat_u64(a: u64, b: u64) -> (r: u64)
    ensures r == sat64(a * b),
{
    proof {
        assert((a as u128) * (b as u128) <= (u64::MAX as u128) * (u64::MAX as u128))
            by (nonlinear_arith)
            requires a <= u64::MAX, b <= u64::MAX;
    }
    let p: u128 = (a as u128) * (b as u128);
    if p > u64::MAX as u128 {
        u64::MAX
    } else {
        p as u64
    }
}

/// Multiply then divide by a million, saturating at the machine top.
fn mul_div_sat(a: u128, b: u64) -> (r: u128)
    requires a <= 0x100000000000000000000000000000000 - 1,
    ensures
        r as int == (if a * b / (PPM as int) > u64::MAX {
            u64::MAX as int
        } else {
            a * b / (PPM as int)
        }),
{
    let ghost gv = a * b / (PPM as int);
    if b == 0 {
        proof {
            assert(a * 0 == 0) by (nonlinear_arith);
        }
        return 0;
    }
    if a > u128::MAX / (b as u128) {
        // The product overflows; it is far beyond the saturation point.
        proof {
            vstd::arithmetic::div_mod::lemma_fundamental_div_mod(
                u128::MAX as int,
                b as int,
            );
            vstd::arithmetic::div_mod::lemma_mod_bound(u128::MAX as int, b as int);
            assert(a * b > u128::MAX - b + 1) by (nonlinear_arith)
                requires
                    a > (u128::MAX as int) / (b as int),
                    b >= 1,
                    (u128::MAX as int) == b * ((u128::MAX as int) / (b as int)) + (
                    u128::MAX as int) % (b as int),
                    0 <= (u128::MAX as int) % (b as int) < b;
            assert(a * b / (PPM as int) > u64::MAX) by (nonlinear_arith)
                requires a * b > u128::MAX - b + 1, 1 <= b <= u64::MAX;
        }
        return u64::MAX as u128;
    }
    proof {
        assert(a * b <= ((u128::MAX as u128) / (b as u128)) * b) by (nonlinear_arith)
            requires a <= (u128::MAX as u128) / (b as u128), b >= 1;
        vstd::arithmetic::div_mod::lemma_fundamental_div_mod(u128::MAX as int, b as int);
        vstd::arithmetic::div_mod::lemma_mod_bound(u128::MAX as int, b as int);
        assert(((u128::MAX as int) / (b as int)) * b <= u128::MAX) by (nonlinear_arith)
            requires
                (u128::MAX as int) == b * ((u128::MAX as int) / (b as int)) + (
                u128::MAX as int) % (b as int),
                0 <= (u128::MAX as int) % (b as int),
                b >= 1;
        assert(a * b <= u128::MAX) by (nonlinear_arith)
            requires
                a <= (u128::MAX as int) / (b as int),
                b >= 1,
                ((u128::MAX as int) / (b as int)) * b <= u128::MAX;
    }
    let p: u128 = a * (b as u128);
    let q: u128 = p / (PPM as u128);
    if q > u64::MAX as u128 {
        u64::MAX as u128
    } else {
        q
    }
}

/// Clamp into a symmetric range that keeps later sums exact.
fn clamp_i128(v: i128) -> (r: i128)
    ensures
        -0x10000000000000000000000000000 <= r <= 0x10000000000000000000000000000,
        r as int == clamp_acc(v as int),
{
    if v > 0x10000000000000000000000000000 {
        0x10000000000000000000000000000
    } else if v < -0x10000000000000000000000000000 {
        -0x10000000000000000000000000000
    } else {
        v
    }
}


/// One projected descent step of a weight, in the specification.
pub open spec fn spec_step_weight(w: u64, grad: int, rate_ppm: u64) -> u64 {
    let g = clamp_acc(grad);
    let mag = if g < 0 { -g } else { g };
    let mag64 = if mag > u64::MAX { u64::MAX as int } else { mag };
    let delta128 = mag64 / (PPM as int) * rate_ppm / (PPM as int);
    let delta = if delta128 > u64::MAX { u64::MAX as int } else { delta128 };
    if g < 0 {
        if delta > u64::MAX - w {
            u64::MAX as u64
        } else {
            (w + delta) as u64
        }
    } else {
        if delta > w {
            0u64
        } else {
            (w - delta) as u64
        }
    }
}

/// The weights after `k` descent iterations.
pub open spec fn spec_descend(
    c: QueryCost,
    lambda_ppm: u64,
    sigma_ppm: u64,
    rate_ppm: u64,
    k: nat,
    obs: Seq<u64>,
) -> (u64, u64)
    decreases k,
{
    if k == 0 {
        (lambda_ppm, sigma_ppm)
    } else {
        let g = spec_batch_gradient(c, lambda_ppm, sigma_ppm, obs);
        spec_descend(
            c,
            spec_step_weight(lambda_ppm, g.0, rate_ppm),
            spec_step_weight(sigma_ppm, g.1, rate_ppm),
            rate_ppm,
            (k - 1) as nat,
            obs,
        )
    }
}

/// One projected descent step: move a weight against its gradient,
/// scaled by the rate in millionths, clamped at zero and the top.
fn step_weight(w: u64, grad: i128, rate_ppm: u64) -> (r: u64)
    requires 1 <= rate_ppm <= PPM,
    ensures r == spec_step_weight(w, grad as int, rate_ppm),
{
    let g = clamp_i128(grad);
    let neg = g < 0;
    let mag: u128 = if neg {
        (-g) as u128
    } else {
        g as u128
    };
    let mag64: u128 = if mag > u64::MAX as u128 {
        u64::MAX as u128
    } else {
        mag
    };
    proof {
        assert((mag64 / (PPM as u128)) * (rate_ppm as u128) <= (u64::MAX as u128) * (
        PPM as u128)) by (nonlinear_arith)
            requires mag64 / (PPM as u128) <= u64::MAX, rate_ppm <= PPM;
    }
    let delta128: u128 = mag64 / (PPM as u128) * (rate_ppm as u128) / (PPM as u128);
    let delta: u64 = if delta128 > u64::MAX as u128 {
        u64::MAX
    } else {
        delta128 as u64
    };
    if neg {
        if delta > u64::MAX - w {
            u64::MAX
        } else {
            w + delta
        }
    } else {
        if delta > w {
            0
        } else {
            w - delta
        }
    }
}


/// Divide by a million rounding toward zero.
fn div_ppm_trunc(a: i128) -> (r: i128)
    requires -0x100000000000000000000000 <= a <= 0x100000000000000000000000,
    ensures r as int == trunc_div_ppm(a as int),
{
    if a >= 0 {
        let q = (a as u128) / (PPM as u128);
        proof {
            assert(q == (a as int) / (PPM as int));
        }
        q as i128
    } else {
        let m = (-a) as u128;
        let q = m / (PPM as u128);
        proof {
            assert(q == ((-a) as int) / (PPM as int));
        }
        -(q as i128)
    }
}

/// The sum of a row of counters.
pub open spec fn row_sum(s: Seq<u64>) -> int
    decreases s.len(),
{
    if s.len() == 0 {
        0
    } else {
        row_sum(s.drop_last()) + s.last()
    }
}

/// One normalized entry: the counter's share of its row in millionths,
/// zero for an all-zero row or a position past the row's end.
pub open spec fn spec_norm_entry(row: Seq<u64>, j: int) -> u64 {
    if 0 <= j < row.len() && row_sum(row) > 0 {
        (row[j] * PPM / row_sum(row)) as u64
    } else {
        0u64
    }
}

/// Normalize the access counters into rows of `width` shares in
/// millionths; a row summing to zero stays all zero.
pub fn convert_to_normalized_matrix(counter: &Vec<Vec<u64>>, width: usize) -> (r: Vec<Vec<u64>>)
    ensures
        r@.len() == counter@.len(),
        forall|i: int| 0 <= i < r@.len() ==> (#[trigger] r@[i])@.len() == width,
        forall|i: int, j: int| 0 <= i < r@.len() && 0 <= j < width ==> (#[trigger] r@[i]@[j])
            == spec_norm_entry(counter@[i]@, j),
{
    let mut out: Vec<Vec<u64>> = Vec::new();
    let mut i: usize = 0;
    while i < counter.len()
        invariant
            i <= counter@.len(),
            out@.len() == i,
            forall|p: int| 0 <= p < i ==> (#[trigger] out@[p])@.len() == width,
            forall|p: int, j: int| 0 <= p < i && 0 <= j < width ==> (#[trigger] out@[p]@[j])
                == spec_norm_entry(counter@[p]@, j),
        decreases counter@.len() - i,
    {
        let row = &counter[i];
        let mut sum: u128 = 0;
        let mut k: usize = 0;
        while k < row.len()
            invariant
                k <= row@.len(),
                sum == row_sum(row@.subrange(0, k as int)),
                sum <= k * (u64::MAX as int),
            decreases row@.len() - k,
        {
            proof {
                let pre = row@.subrange(0, k as int);
                let post = row@.subrange(0, k + 1);
                assert(post.drop_last() =~= pre);
                assert(post.last() == row@[k as int]);
                assert(sum + row@[k as int] <= k * (u64::MAX as int) + u64::MAX);
                assert((k + 1) * (u64::MAX as int) == k * (u64::MAX as int) + u64::MAX)
                    by (nonlinear_arith);
                assert(k * (u64::MAX as int) + u64::MAX <= (u128::MAX as int))
                    by (nonlinear_arith)
                    requires k <= 0xFFFFFFFFFFFFFFFF;
            }
            sum = sum + row[k] as u128;
            k += 1;
        }
        proof {
            assert(row@.subrange(0, row@.len() as int) =~= row@);
        }
        let mut nrow: Vec<u64> = Vec::new();
        let mut j: usize = 0;
        while j < width
            invariant
                j <= width,
                sum == row_sum(row@),
                nrow@.len() == j,
                forall|q: int| 0 <= q < j ==> (#[trigger] nrow@[q]) == spec_norm_entry(
                    row@,
                    q,
                ),
            decreases width - j,
        {
            let v: u64 = if j < row.len() && sum > 0 {
                proof {
                    assert((row@[j as int] as u128) * (PPM as u128) <= (u64::MAX as u128) * (
                    PPM as u128)) by (nonlinear_arith)
                        requires row@[j as int] <= u64::MAX;
                    lemma_row_sum_element(row@, j as int);
                    assert(row@[j as int] * PPM / row_sum(row@) <= u64::MAX)
                        by (nonlinear_arith)
                        requires
                            0 <= row@[j as int] <= row_sum(row@),
                            row_sum(row@) >= 1,
                            PPM == 1000000;
                }
                let scaled: u128 = (row[j] as u128) * (PPM as u128);
                (scaled / sum) as u64
            } else {
                0
            };
            nrow.push(v);
            j += 1;
        }
        out.push(nrow);
        i += 1;
    }
    out
}

/// Every counter is at most its row's sum.
proof fn lemma_row_sum_element(s: Seq<u64>, j: int)
    requires 0 <= j < s.len(),
    ensures s[j] <= row_sum(s), row_sum(s) >= 0,
    decreases s.len(),
{
    lemma_row_sum_nonneg(s.drop_last());
    lemma_row_sum_nonneg(s);
    if j == s.len() - 1 {
        assert(row_sum(s) == row_sum(s.drop_last()) + s.last());
        assert(s.last() == s[j]);
    } else {
        lemma_row_sum_element(s.drop_last(), j);
        assert(s.drop_last()[j] == s[j]);
        assert(row_sum(s) == row_sum(s.drop_last()) + s.last());
    }
}

/// Row sums never go negative.
proof fn lemma_row_sum_nonneg(s: Seq<u64>)
    ensures row_sum(s) >= 0,
    decreases s.len(),
{
    if s.len() > 0 {
        lemma_row_sum_nonneg(s.drop_last());
    }
}

/// Division by a million that rounds toward zero, as machine signed
/// division does.
pub open spec fn trunc_div_ppm(a: int) -> int {
    if a >= 0 {
        a / (PPM as int)
    } else {
        -((-a) / (PPM as int))
    }
}

/// Clamp a level or trend into the fixed working range.
pub open spec fn spec_clamp_level(v: int) -> int {
    if v > 0x1000000000000000 {
        0x1000000000000000
    } else if v < -0x1000000000000000 {
        -0x1000000000000000
    } else {
        v
    }
}

/// One Holt update: blend the observation into the level, then blend
/// the level change into the trend, both in millionths, clamped.
pub open spec fn spec_holt_step(v: u64, level: int, trend: int) -> (int, int) {
    let l2 = spec_clamp_level(
        trunc_div_ppm(HOLT_ALPHA_PPM * v + (PPM - HOLT_ALPHA_PPM) * (level + trend)),
    );
    let t2 = spec_clamp_level(
        trunc_div_ppm(HOLT_BETA_PPM * (l2 - level) + (PPM - HOLT_BETA_PPM) * trend),
    );
    (l2, t2)
}

/// Fold a whole row through the Holt update.
pub open spec fn spec_holt_fold(vals: Seq<u64>, level: int, trend: int) -> (int, int)
    decreases vals.len(),
{
    if vals.len() == 0 {
        (level, trend)
    } else {
        let st = spec_holt_step(vals.first(), level, trend);
        spec_holt_fold(vals.drop_first(), st.0, st.1)
    }
}

/// The forecast of one row: the final level after folding the whole
/// row from the first two observations; a short row forecasts itself.
pub open spec fn spec_holt_row(row: Seq<u64>) -> int {
    if row.len() < 2 {
        if row.len() == 1 {
            row[0] as int
        } else {
            0
        }
    } else {
        spec_holt_fold(row, row[0] as int, row[1] - row[0]).0
    }
}

/// Holt linear smoothing of every row: the demand forecast per
/// position, clamped at zero.
pub fn holt_linear_exponential_smoothing(matrix: &Vec<Vec<u64>>) -> (r: Vec<u64>)
    ensures
        r@.len() == matrix@.len(),
        forall|i: int| 0 <= i < r@.len() ==> (#[trigger] r@[i]) as int == (
        if spec_holt_row(matrix@[i]@) < 0 {
            0
        } else if spec_holt_row(matrix@[i]@) > u64::MAX {
            u64::MAX as int
        } else {
            spec_holt_row(matrix@[i]@)
        }),
{
    let mut out: Vec<u64> = Vec::new();
    let mut i: usize = 0;
    while i < matrix.len()
        invariant
            i <= matrix@.len(),
            out@.len() == i,
            forall|p: int| 0 <= p < i ==> (#[trigger] out@[p]) as int == (
            if spec_holt_row(matrix@[p]@) < 0 {
                0
            } else if spec_holt_row(matrix@[p]@) > u64::MAX {
                u64::MAX as int
            } else {
                spec_holt_row(matrix@[p]@)
            }),
        decreases matrix@.len() - i,
    {
        let row = &matrix[i];
        let forecast: i128 = if row.len() == 0 {
            0
        } else if row.len() == 1 {
            row[0] as i128
        } else {
            let mut level: i128 = row[0] as i128;
            let mut trend: i128 = row[1] as i128 - row[0] as i128;
            let mut j: usize = 0;
            proof {
                assert(row@.skip(0) =~= row@);
            }
            while j < row.len()
                invariant
                    j <= row@.len(),
                    -0x1000000000000000 - 0x10000000000000000 <= level
                        <= 0x1000000000000000 + 0x10000000000000000,
                    -0x1000000000000000 - 0x10000000000000000 <= trend
                        <= 0x1000000000000000 + 0x10000000000000000,
                    spec_holt_fold(row@, row@[0] as int, row@[1] - row@[0]) == spec_holt_fold(
                        row@.skip(j as int),
                        level as int,
                        trend as int,
                    ),
                decreases row@.len() - j,
            {
                let v = row[j];
                proof {
                    let rest = row@.skip(j as int);
                    assert(rest.first() == row@[j as int]);
                    assert(rest.drop_first() =~= row@.skip(j + 1));
                    assert(
                        HOLT_ALPHA_PPM * v + (PPM - HOLT_ALPHA_PPM) * (level + trend)
                            <= 1000000 * (u64::MAX as int) + 1000000 * (
                        0x1000000000000000i128 + 0x10000000000000000 + 0x1000000000000000
                            + 0x10000000000000000)
                    ) by (nonlinear_arith)
                        requires
                            v <= u64::MAX,
                            level + trend <= 0x1000000000000000i128 + 0x10000000000000000
                                + 0x1000000000000000 + 0x10000000000000000,
                            HOLT_ALPHA_PPM == 400000,
                            PPM == 1000000;
                    assert(
                        HOLT_ALPHA_PPM * v + (PPM - HOLT_ALPHA_PPM) * (level + trend)
                            >= -(1000000 * (0x1000000000000000i128 + 0x10000000000000000
                            + 0x1000000000000000 + 0x10000000000000000))
                    ) by (nonlinear_arith)
                        requires
                            v >= 0,
                            level + trend >= -(0x1000000000000000i128 + 0x10000000000000000
                                + 0x1000000000000000 + 0x10000000000000000),
                            HOLT_ALPHA_PPM == 400000,
                            PPM == 1000000;
                }
                let numer_l: i128 = (HOLT_ALPHA_PPM as i128) * (v as i128) + ((PPM
                    - HOLT_ALPHA_PPM) as i128) * (level + trend);
                let raw_l: i128 = div_ppm_trunc(numer_l);
                let l2: i128 = clamp_level(raw_l, Ghost(numer_l as int));
                proof {
                    assert(
                        HOLT_BETA_PPM * (l2 - level) + (PPM - HOLT_BETA_PPM) * trend <= 1000000
                            * (0x1000000000000000i128 + 0x1000000000000000
                            + 0x10000000000000000 + 0x1000000000000000 + 0x10000000000000000)
                    ) by (nonlinear_arith)
                        requires
                            l2 - level <= 0x1000000000000000i128 + 0x1000000000000000
                                + 0x10000000000000000,
                            trend <= 0x1000000000000000i128 + 0x10000000000000000,
                            HOLT_BETA_PPM == 600000,
                            PPM == 1000000;
                    assert(
                        HOLT_BETA_PPM * (l2 - level) + (PPM - HOLT_BETA_PPM) * trend
                            >= -(1000000 * (0x1000000000000000i128 + 0x1000000000000000
                            + 0x10000000000000000 + 0x1000000000000000 + 0x10000000000000000))
                    ) by (nonlinear_arith)
                        requires
                            l2 - level >= -(0x1000000000000000i128 + 0x1000000000000000
                                + 0x10000000000000000),
                            trend >= -(0x1000000000000000i128 + 0x10000000000000000),
                            HOLT_BETA_PPM == 600000,
                            PPM == 1000000;
                }
                let numer_t: i128 = (HOLT_BETA_PPM as i128) * (l2 - level) + ((PPM
                    - HOLT_BETA_PPM) as i128) * trend;
                let raw_t: i128 = div_ppm_trunc(numer_t);
                let t2: i128 = clamp_level(raw_t, Ghost(numer_t as int));
                level = l2;
                trend = t2;
                j += 1;
            }
            proof {
                assert(row@.skip(row@.len() as int).len() == 0);
            }
            level
        };
        let clamped: u64 = if forecast < 0 {
            0
        } else if forecast > u64::MAX as i128 {
            u64::MAX
        } else {
            forecast as u64
        };
        out.push(clamped);
        i += 1;
    }
    out
}

/// Clamp a raw update into the working range; the ghost numerator ties
/// the executable truncating division to the specification's.
fn clamp_level(v: i128, Ghost(numer): Ghost<int>) -> (r: i128)
    requires
        -0x100000000000000000000000 <= numer <= 0x100000000000000000000000,
        v as int == trunc_div_ppm(numer),
    ensures
        r as int == spec_clamp_level(trunc_div_ppm(numer)),
        -0x1000000000000000 <= r <= 0x1000000000000000,
{
    if v > 0x1000000000000000 {
        0x1000000000000000
    } else if v < -0x1000000000000000 {
        -0x1000000000000000
    } else {
        v
    }
}



/// The contextual bandit over candidate index configurations: the
/// arms, the exploration temperature in thousandths, and the storage
/// budget in bytes.
pub struct IndexSelectionBandit {
    pub arms: Vec<IndexConfig>,
    pub temperature_milli: u64,
    pub budget: u64,
}

/// The storage bytes a selection claims.
pub open spec fn sum_costs(s: Seq<IndexConfig>) -> int
    decreases s.len(),
{
    if s.len() == 0 {
        0
    } else {
        sum_costs(s.drop_last()) + s.last().storage_cost
    }
}

/// Whether an arm is admissible at entry: its block has a forecast and
/// its storage cost fits the whole budget.
pub open spec fn arm_admissible(arm: IndexConfig, freq_len: int, budget: u64) -> bool {
    &&& (arm.block_height as int) < freq_len
    &&& arm.storage_cost <= budget
}

impl IndexSelectionBandit {
    /// Extend the candidate arms.
    pub fn update_arms(&mut self, more: Vec<IndexConfig>)
        ensures
            final(self).temperature_milli == old(self).temperature_milli,
            final(self).budget == old(self).budget,
            final(self).arms@ == old(self).arms@ + more@,
    {
        let mut rest = more;
        let mut i: usize = 0;
        let ghost more0 = rest@;
        while i < rest.len()
            invariant
                i <= rest@.len(),
                rest@ == more0,
                self.temperature_milli == old(self).temperature_milli,
                self.budget == old(self).budget,
                self.arms@ == old(self).arms@ + more0.subrange(0, i as int),
            decreases rest@.len() - i,
        {
            self.arms.push(rest[i]);
            i += 1;
            proof {
                assert(self.arms@ =~= old(self).arms@ + more0.subrange(0, i as int));
            }
        }
        proof {
            assert(more0.subrange(0, more0.len() as int) =~= more0);
        }
    }

    /// Sample a configuration set: weight every admissible arm by the
    /// scaled exponential of its performance times its block's
    /// forecast over the temperature, then draw arms without
    /// replacement until the remaining budget or the candidates run
    /// out.  With no admissible arm at all the budget is refused.
    pub fn choose_arm(&self, frequency_ppm: &Vec<u64>) -> (r: Result<Vec<IndexConfig>, ChainError>)
        requires self.temperature_milli >= 1,
        ensures
            r is Ok <==> (exists|i: int| 0 <= i < self.arms@.len() && arm_admissible(
                #[trigger] self.arms@[i],
                frequency_ppm@.len() as int,
                self.budget,
            )),
            match r {
                Ok(sel) => {
                    &&& (forall|i: int| 0 <= i < sel@.len() ==> (exists|q: int|
                        0 <= q < self.arms@.len() && #[trigger] sel@[i] == self.arms@[q]
                            && arm_admissible(
                            self.arms@[q],
                            frequency_ppm@.len() as int,
                            self.budget,
                        )))
                    &&& sel@.len() <= self.arms@.len()
                    &&& sel@.to_multiset().subset_of(self.arms@.to_multiset())
                    &&& (self.budget > 0 ==> sel@.len() >= 1)
                    &&& (sel@.len() >= 1 ==> sum_costs(sel@.drop_last()) < self.budget)
                },
                Err(e) => e == ChainError::BudgetTooSmall,
            },
    {
        let mut cands: Vec<IndexConfig> = Vec::new();
        let mut weights: Vec<u64> = Vec::new();
        let mut i: usize = 0;
        proof {
            cands@.to_multiset_ensures();
            assert forall|v: IndexConfig| cands@.to_multiset().count(v)
                <= self.arms@.subrange(0, 0).to_multiset().count(v) by {
                assert(!cands@.contains(v));
            }
        }
        while i < self.arms.len()
            invariant
                i <= self.arms@.len(),
                self.temperature_milli >= 1,
                cands@.len() <= i,
                cands@.len() == weights@.len(),
                forall|q: int| 0 <= q < cands@.len() ==> (exists|p: int|
                    0 <= p < self.arms@.len() && #[trigger] cands@[q] == self.arms@[p]
                        && arm_admissible(
                        self.arms@[p],
                        frequency_ppm@.len() as int,
                        self.budget,
                    )),
                forall|q: int| 0 <= q < weights@.len() ==> 1 <= #[trigger] weights@[q],
                (exists|p: int| 0 <= p < i && arm_admissible(
                    #[trigger] self.arms@[p],
                    frequency_ppm@.len() as int,
                    self.budget,
                )) <==> cands@.len() > 0,
                cands@.to_multiset().subset_of(
                    self.arms@.subrange(0, i as int).to_multiset(),
                ),
            decreases self.arms@.len() - i,
        {
            let ghost pre_cands = cands@;
            let arm = self.arms[i];
            let bh = arm.block_height;
            let in_range = (bh as u128) < (frequency_ppm.len() as u128);
            if in_range && arm.storage_cost <= self.budget {
                let f = frequency_ppm[bh as usize];
                proof {
                    assert((arm.performance as u128) * (f as u128) <= (u64::MAX as u128) * (
                    u64::MAX as u128)) by (nonlinear_arith)
                        requires arm.performance <= u64::MAX, f <= u64::MAX;
                }
                let z_wide: u128 = (arm.performance as u128) * (f as u128) / (PPM as u128);
                proof {
                    assert(z_wide * 1000 <= 0x100000000000000000000000000000000int / 1000000
                        * 1000) by (nonlinear_arith)
                        requires z_wide <= 0x100000000000000000000000000000000int / 1000000;
                    assert(z_wide <= 0x100000000000000000000000000000000int / 1000000)
                        by (nonlinear_arith)
                        requires z_wide as int == ((arm.performance as int) * (f as int))
                            / 1000000, (arm.performance as int) * (f as int)
                            < 0x100000000000000000000000000000000;
                }
                let z_scaled: u128 = z_wide * 1000 / (self.temperature_milli as u128);
                let z: u64 = if z_scaled > u64::MAX as u128 {
                    u64::MAX
                } else {
                    z_scaled as u64
                };
                let w = exp_milli(z);
                cands.push(arm);
                weights.push(w);
                proof {
                    assert(cands@[cands@.len() - 1] == self.arms@[i as int]);
                    assert(arm_admissible(
                        self.arms@[i as int],
                        frequency_ppm@.len() as int,
                        self.budget,
                    ));
                }
            }
            proof {
                broadcast use vstd::multiset::group_multiset_axioms;

                let a = self.arms@[i as int];
                let pre = self.arms@.subrange(0, i as int);
                let post = self.arms@.subrange(0, i + 1);
                assert(post =~= pre.push(a));
                pre.to_multiset_ensures();
                pre_cands.to_multiset_ensures();
                assert(post.to_multiset() =~= pre.to_multiset().insert(a));
                if cands@.len() > pre_cands.len() {
                    assert(cands@ =~= pre_cands.push(a));
                    assert(cands@.to_multiset() =~= pre_cands.to_multiset().insert(a));
                }
                assert forall|v: IndexConfig| cands@.to_multiset().count(v)
                    <= post.to_multiset().count(v) by {
                    assert(pre_cands.to_multiset().count(v) <= pre.to_multiset().count(v));
                }
            }
            i += 1;
        }
        if cands.len() == 0 {
            return Err(ChainError::BudgetTooSmall);
        }
        let mut selected: Vec<IndexConfig> = Vec::new();
        let mut remaining = self.budget;
        let ghost cands0 = cands@.len();
        let ghost cands_all = cands@;
        proof {
            broadcast use vstd::multiset::group_multiset_axioms;

            assert(self.arms@.subrange(0, self.arms@.len() as int) =~= self.arms@);
            selected@.to_multiset_ensures();
            assert forall|v: IndexConfig| selected@.to_multiset().add(
                cands@.to_multiset(),
            ).count(v) == cands_all.to_multiset().count(v) by {
                assert(!selected@.contains(v));
            }
            assert(selected@.to_multiset().add(cands@.to_multiset())
                =~= cands_all.to_multiset());
        }
        let mut guard: usize = cands.len();
        while remaining > 0 && cands.len() > 0 && guard > 0
            invariant
                cands@.len() == weights@.len(),
                cands0 <= self.arms@.len(),
                selected@.len() + cands@.len() == cands0,
                guard == cands0 - selected@.len(),
                remaining as int == (if self.budget - sum_costs(selected@) < 0 {
                    0int
                } else {
                    self.budget - sum_costs(selected@)
                }),
                cands_all.to_multiset().subset_of(self.arms@.to_multiset()),
                selected@.to_multiset().add(cands@.to_multiset())
                    == cands_all.to_multiset(),
                selected@.len() >= 1 ==> sum_costs(selected@.drop_last()) < self.budget,
                forall|q: int| 0 <= q < cands@.len() ==> (exists|p: int|
                    0 <= p < self.arms@.len() && #[trigger] cands@[q] == self.arms@[p]
                        && arm_admissible(
                        self.arms@[p],
                        frequency_ppm@.len() as int,
                        self.budget,
                    )),
                forall|q: int| 0 <= q < weights@.len() ==> 1 <= #[trigger] weights@[q],
                forall|q: int| 0 <= q < selected@.len() ==> (exists|p: int|
                    0 <= p < self.arms@.len() && #[trigger] selected@[q] == self.arms@[p]
                        && arm_admissible(
                        self.arms@[p],
                        frequency_ppm@.len() as int,
                        self.budget,
                    )),
            decreases guard,
        {
            // Total weight, saturating; every weight is at least one.
            let mut total: u128 = 0;
            let mut k: usize = 0;
            while k < weights.len()
                invariant
                    k <= weights@.len(),
                    total <= (k as int) * (u64::MAX as int),
                decreases weights@.len() - k,
            {
                proof {
                    assert(total + weights@[k as int] <= (k as int) * (u64::MAX as int)
                        + u64::MAX);
                    assert((k as int + 1) * (u64::MAX as int) == (k as int) * (
                    u64::MAX as int) + u64::MAX) by (nonlinear_arith);
                    assert((k as int) * (u64::MAX as int) + u64::MAX <= u128::MAX)
                        by (nonlinear_arith)
                        requires k <= 0xFFFFFFFFFFFFFFFF;
                }
                total = total + weights[k] as u128;
                k += 1;
            }
            let total64: u64 = if total > u64::MAX as u128 {
                u64::MAX
            } else if total == 0 {
                1
            } else {
                total as u64
            };
            let draw = random_below(total64);
            // Walk the cumulative weights to the drawn arm.
            let mut acc: u128 = 0;
            let mut pick: usize = 0;
            let mut found = false;
            let mut k2: usize = 0;
            while k2 < weights.len()
                invariant
                    k2 <= weights@.len(),
                    weights@.len() == cands@.len(),
                    acc <= (k2 as int) * (u64::MAX as int),
                    pick < weights@.len() || pick == 0,
                decreases weights@.len() - k2,
            {
                proof {
                    assert(acc + weights@[k2 as int] <= (k2 as int) * (u64::MAX as int)
                        + u64::MAX);
                    assert((k2 as int + 1) * (u64::MAX as int) == (k2 as int) * (
                    u64::MAX as int) + u64::MAX) by (nonlinear_arith);
                    assert((k2 as int) * (u64::MAX as int) + u64::MAX <= u128::MAX)
                        by (nonlinear_arith)
                        requires k2 <= 0xFFFFFFFFFFFFFFFF;
                }
                acc = acc + weights[k2] as u128;
                if !found && (draw as u128) < acc {
                    pick = k2;
                    found = true;
                }
                k2 += 1;
            }
            if pick >= cands.len() {
                pick = 0;
            }
            let chosen = cands[pick];
            let ghost pre_sel = selected@;
            selected.push(chosen);
            remaining = if chosen.storage_cost > remaining {
                0
            } else {
                remaining - chosen.storage_cost
            };
            proof {
                assert(selected@.drop_last() =~= pre_sel);
                assert(sum_costs(selected@) == sum_costs(pre_sel) + chosen.storage_cost);
                assert(sum_costs(pre_sel) < self.budget);
            }
            let ghost pre_c = cands@;
            let ghost pre_w = weights@;
            cands.remove(pick);
            weights.remove(pick);
            proof {
                broadcast use vstd::multiset::group_multiset_axioms;

                pre_sel.to_multiset_ensures();
                pre_c.to_multiset_ensures();
                assert(selected@ =~= pre_sel.push(chosen));
                assert(selected@.to_multiset() =~= pre_sel.to_multiset().insert(chosen));
                assert(pre_c[pick as int] == chosen);
                assert(pre_c.contains(chosen));
                assert(pre_c.to_multiset().count(chosen) > 0);
                assert(cands@.to_multiset() =~= pre_c.to_multiset().remove(chosen));
                assert forall|v: IndexConfig| selected@.to_multiset().add(
                    cands@.to_multiset(),
                ).count(v) == cands_all.to_multiset().count(v) by {
                    assert(pre_sel.to_multiset().add(pre_c.to_multiset()).count(v)
                        == cands_all.to_multiset().count(v));
                }
                assert(selected@.to_multiset().add(cands@.to_multiset())
                    =~= cands_all.to_multiset());
                assert forall|q: int| 0 <= q < cands@.len() implies (exists|p: int|
                    0 <= p < self.arms@.len() && #[trigger] cands@[q] == self.arms@[p]
                        && arm_admissible(
                        self.arms@[p],
                        frequency_ppm@.len() as int,
                        self.budget,
                    )) by {
                    if q < pick {
                        assert(cands@[q] == pre_c[q]);
                    } else {
                        assert(cands@[q] == pre_c[q + 1]);
                    }
                }
                assert forall|q: int| 0 <= q < weights@.len() implies 1 <= #[trigger] weights@[
                    q] by {
                    if q < pick {
                        assert(weights@[q] == pre_w[q]);
                    } else {
                        assert(weights@[q] == pre_w[q + 1]);
                    }
                }
            }
            guard -= 1;
        }
        proof {
            if self.budget > 0 && selected@.len() == 0 {
                assert(sum_costs(selected@) == 0);
                assert(remaining == self.budget);
                assert(cands@.len() == cands0);
                assert(guard == cands0);
                assert(cands0 >= 1);
                assert(false);
            }
            if selected@.len() >= 1 {
                // The last draw happened while budget remained, so all
                // earlier draws together stayed under it.
            }
            broadcast use vstd::multiset::group_multiset_axioms;

            assert forall|v: IndexConfig| selected@.to_multiset().count(v)
                <= self.arms@.to_multiset().count(v) by {
                assert(selected@.to_multiset().add(cands@.to_multiset()).count(v)
                    == cands_all.to_multiset().count(v));
                assert(cands_all.to_multiset().count(v)
                    <= self.arms@.to_multiset().count(v));
            }
        }
        Ok(selected)
    }
}

} // verus!
