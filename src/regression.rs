//! The least-squares estimator over a paired integer sample.

use vstd::prelude::*;

use crate::moments::{
    co_moment, deviations, dot, dot_to, ints, lemma_deviations, lemma_residual_zero,
    lemma_residuals, lemma_squares, lemma_var_moment, on_fitted_line, residuals, sum, sum_to,
    var_moment,
};

verus! {

/// Largest sample size: counts are held as `u32`.
pub const MAX_COUNT: usize = 4294967295;

/// Why a statistic cannot be computed.
#[derive(Debug, Clone, Copy, PartialEq, Eq, Structural)]
pub enum RegressionError {
    /// The sample holds no observation.
    EmptySample,
    /// All `x` values are equal: the slope would divide by zero.
    DegenerateFit,
    /// All `y` values are equal: R squared would divide by zero.
    DegenerateScore,
    /// A sequence of predictions does not have one value per observation.
    LengthMismatch,
}

/// An exact fraction `num / den`, with `den > 0`.
#[derive(Debug, Clone, Copy, PartialEq, Eq, Structural)]
pub struct Ratio {
    pub num: i128,
    pub den: i128,
}

/// The least-squares line, kept in exact integer form.
///
/// With `n = count`, `vx = var_x` and `cxy = cov_xy`, the slope is `cxy / vx` and the
/// intercept is `(sum_y * vx - cxy * sum_x) / (n * vx)`.
#[derive(Debug, Clone, Copy, PartialEq, Eq, Structural)]
pub struct FitResult {
    pub count: i128,
    pub sum_x: i128,
    pub sum_y: i128,
    /// `n * sum(x^2) - sum(x)^2`
    pub var_x: i128,
    /// `n * sum(x*y) - sum(x) * sum(y)`
    pub cov_xy: i128,
}

/// R squared in exact form: `cov_xy^2 / (var_x * var_y)`.
#[derive(Debug, Clone, Copy, PartialEq, Eq, Structural)]
pub struct Score {
    pub cov_xy: i128,
    pub var_x: i128,
    pub var_y: i128,
}

/// Sums over a whole sample.
#[derive(Debug, Clone, Copy, PartialEq, Eq, Structural)]
pub struct Moments {
    pub count: i128,
    pub sum_x: i128,
    pub sum_y: i128,
    pub sum_xx: i128,
    pub sum_xy: i128,
    pub sum_yy: i128,
}

impl FitResult {
    /// Slope as a pair (numerator, denominator).
    pub open spec fn slope(&self) -> (int, int) {
        (self.cov_xy as int, self.var_x as int)
    }

    /// Intercept as a pair (numerator, denominator).
    pub open spec fn intercept(&self) -> (int, int) {
        (
            self.sum_y * self.var_x - self.cov_xy * self.sum_x,
            self.count * self.var_x,
        )
    }
}

impl Score {
    /// R squared as a pair (numerator, denominator).
    pub open spec fn r_squared(&self) -> (int, int) {
        (self.cov_xy * self.cov_xy, self.var_x * self.var_y)
    }
}

/// A paired sample: `x_values[i]` goes with `y_values[i]`.
pub struct InputNumbers {
    x_values: Vec<i32>,
    y_values: Vec<i32>,
}

proof fn lemma_product_bound(a: int, b: int, ka: int, kb: int)
    requires
        -ka <= a <= ka,
        -kb <= b <= kb,
    ensures
        -(ka * kb) <= a * b <= ka * kb,
{
    assert(-(ka * kb) <= a * b <= ka * kb) by (nonlinear_arith)
        requires
            -ka <= a <= ka,
            -kb <= b <= kb,
    ;
}

/// `n * s_ab - s_a * s_b`, from sums over `n` observations of `i32` values.
fn centred(n: i128, s_ab: i128, s_a: i128, s_b: i128) -> (r: i128)
    requires
        0 <= n <= MAX_COUNT,
        -(n * 0x4000_0000_0000_0000) <= s_ab <= n * 0x4000_0000_0000_0000,
        -(n * 0x8000_0000) <= s_a <= n * 0x8000_0000,
        -(n * 0x8000_0000) <= s_b <= n * 0x8000_0000,
    ensures
        r == n * s_ab - s_a * s_b,
{
    proof {
        let k = MAX_COUNT as int;
        lemma_product_bound(n as int, s_ab as int, k, k * 0x4000_0000_0000_0000);
        lemma_product_bound(s_a as int, s_b as int, k * 0x8000_0000, k * 0x8000_0000);
        assert((k * 0x8000_0000) * (k * 0x8000_0000) == k * (k * 0x4000_0000_0000_0000))
            by (nonlinear_arith);
    }
    n * s_ab - s_a * s_b
}

impl InputNumbers {
    /// The `x` values, as integers.
    pub closed spec fn xs(&self) -> Seq<int> {
        ints(self.x_values@)
    }

    /// The `y` values, as integers.
    pub closed spec fn ys(&self) -> Seq<int> {
        ints(self.y_values@)
    }

    pub open spec fn count(&self) -> int {
        self.xs().len() as int
    }

    /// Both sequences have one value per observation, and the count fits a `u32`.
    pub open spec fn wf(&self) -> bool {
        &&& self.xs().len() == self.ys().len()
        &&& self.xs().len() <= MAX_COUNT
    }

    /// Builds a sample from two sequences of equal length.
    pub fn new(x_values: Vec<i32>, y_values: Vec<i32>) -> (r: InputNumbers)
        requires
            x_values@.len() == y_values@.len(),
            x_values@.len() <= MAX_COUNT,
        ensures
            r.wf(),
            r.xs() == ints(x_values@),
            r.ys() == ints(y_values@),
    {
        InputNumbers { x_values, y_values }
    }

    /// The `x` values, in order.
    pub fn x_values(&self) -> (r: &Vec<i32>)
        ensures
            ints(r@) == self.xs(),
    {
        &self.x_values
    }

    /// The `y` values, in order.
    pub fn y_values(&self) -> (r: &Vec<i32>)
        ensures
            ints(r@) == self.ys(),
    {
        &self.y_values
    }

    /// Number of observations.
    pub fn len(&self) -> (r: usize)
        ensures
            r == self.count(),
    {
        self.x_values.len()
    }

    /// Sums of the values, their squares and their products, in one pass.
    pub fn moments(&self) -> (m: Moments)
        requires
            self.wf(),
        ensures
            m.count == self.count(),
            m.sum_x == sum(self.xs()),
            m.sum_y == sum(self.ys()),
            m.sum_xx == dot(self.xs(), self.xs()),
            m.sum_xy == dot(self.xs(), self.ys()),
            m.sum_yy == dot(self.ys(), self.ys()),
            0 <= m.sum_xx <= m.count * 0x4000_0000_0000_0000,
            0 <= m.sum_yy <= m.count * 0x4000_0000_0000_0000,
            -(m.count * 0x4000_0000_0000_0000) <= m.sum_xy <= m.count * 0x4000_0000_0000_0000,
            -(m.count * 0x8000_0000) <= m.sum_x <= m.count * 0x8000_0000,
            -(m.count * 0x8000_0000) <= m.sum_y <= m.count * 0x8000_0000,
    {
        let n = self.x_values.len();
        let ghost xs = self.xs();
        let ghost ys = self.ys();
        let mut sx: i128 = 0;
        let mut sy: i128 = 0;
        let mut sxx: i128 = 0;
        let mut sxy: i128 = 0;
        let mut syy: i128 = 0;
        let mut i: usize = 0;
        while i < n
            invariant
                n == self.count(),
                self.wf(),
                xs == self.xs(),
                ys == self.ys(),
                0 <= i <= n,
                sx == sum_to(xs, i as int),
                sy == sum_to(ys, i as int),
                sxx == dot_to(xs, xs, i as int),
                sxy == dot_to(xs, ys, i as int),
                syy == dot_to(ys, ys, i as int),
                0 <= sxx <= i * 0x4000_0000_0000_0000,
                0 <= syy <= i * 0x4000_0000_0000_0000,
                -(i * 0x4000_0000_0000_0000) <= sxy <= i * 0x4000_0000_0000_0000,
                -(i * 0x8000_0000) <= sx <= i * 0x8000_0000,
                -(i * 0x8000_0000) <= sy <= i * 0x8000_0000,
            decreases n - i,
        {
            let a = self.x_values[i] as i128;
            let b = self.y_values[i] as i128;
            assert(xs[i as int] == a && ys[i as int] == b);
            proof {
                lemma_product_bound(a as int, a as int, 0x8000_0000, 0x8000_0000);
                lemma_product_bound(a as int, b as int, 0x8000_0000, 0x8000_0000);
                lemma_product_bound(b as int, b as int, 0x8000_0000, 0x8000_0000);
                assert(a * a >= 0 && b * b >= 0) by (nonlinear_arith);
            }
            sx = sx + a;
            sy = sy + b;
            sxx = sxx + a * a;
            sxy = sxy + a * b;
            syy = syy + b * b;
            i = i + 1;
        }
        Moments { count: n as i128, sum_x: sx, sum_y: sy, sum_xx: sxx, sum_xy: sxy, sum_yy: syy }
    }

    /// The means of `x` and of `y`, as exact fractions over the count.
    pub fn find_mean(&self) -> (r: Result<(Ratio, Ratio), RegressionError>)
        requires
            self.wf(),
        ensures
            match r {
                Ok((mx, my)) => {
                    &&& self.count() > 0
                    &&& mx.num == sum(self.xs()) && mx.den == self.count()
                    &&& my.num == sum(self.ys()) && my.den == self.count()
                },
                Err(e) => self.count() == 0 && e == RegressionError::EmptySample,
            },
    {
        let m = self.moments();
        if m.count == 0 {
            return Err(RegressionError::EmptySample);
        }
        Ok((Ratio { num: m.sum_x, den: m.count }, Ratio { num: m.sum_y, den: m.count }))
    }

    /// The least-squares line through the sample.
    pub fn find_intercept_and_slope(&self) -> (r: Result<FitResult, RegressionError>)
        requires
            self.wf(),
        ensures
            match r {
                Ok(f) => {
                    &&& self.count() > 0
                    &&& f.count == self.count()
                    &&& f.sum_x == sum(self.xs())
                    &&& f.sum_y == sum(self.ys())
                    &&& f.var_x == var_moment(self.xs())
                    &&& f.cov_xy == co_moment(self.xs(), self.ys())
                    &&& f.var_x > 0
                },
                Err(e) => {
                    ||| self.count() == 0 && e == RegressionError::EmptySample
                    ||| self.count() > 0 && var_moment(self.xs()) == 0 && e
                        == RegressionError::DegenerateFit
                },
            },
    {
        let m = self.moments();
        if m.count == 0 {
            return Err(RegressionError::EmptySample);
        }
        proof {
            lemma_var_moment(self.xs());
        }
        let var_x = centred(m.count, m.sum_xx, m.sum_x, m.sum_x);
        if var_x == 0 {
            return Err(RegressionError::DegenerateFit);
        }
        let cov_xy = centred(m.count, m.sum_xy, m.sum_x, m.sum_y);
        Ok(FitResult { count: m.count, sum_x: m.sum_x, sum_y: m.sum_y, var_x, cov_xy })
    }

    /// R squared of the least-squares line on the sample it was fitted to.
    pub fn calculate_score(&self) -> (r: Result<Score, RegressionError>)
        requires
            self.wf(),
        ensures
            match r {
                Ok(s) => {
                    &&& self.count() > 0
                    &&& s.cov_xy == co_moment(self.xs(), self.ys())
                    &&& s.var_x == var_moment(self.xs())
                    &&& s.var_y == var_moment(self.ys())
                    &&& s.var_x > 0
                    &&& s.var_y > 0
                },
                Err(e) => {
                    ||| self.count() == 0 && e == RegressionError::EmptySample
                    ||| self.count() > 0 && var_moment(self.xs()) == 0 && e
                        == RegressionError::DegenerateFit
                    ||| self.count() > 0 && var_moment(self.xs()) != 0 && var_moment(self.ys())
                        == 0 && e == RegressionError::DegenerateScore
                },
            },
    {
        let m = self.moments();
        if m.count == 0 {
            return Err(RegressionError::EmptySample);
        }
        proof {
            lemma_var_moment(self.xs());
            lemma_var_moment(self.ys());
        }
        let var_x = centred(m.count, m.sum_xx, m.sum_x, m.sum_x);
        if var_x == 0 {
            return Err(RegressionError::DegenerateFit);
        }
        let var_y = centred(m.count, m.sum_yy, m.sum_y, m.sum_y);
        if var_y == 0 {
            return Err(RegressionError::DegenerateScore);
        }
        let cov_xy = centred(m.count, m.sum_xy, m.sum_x, m.sum_y);
        Ok(Score { cov_xy, var_x, var_y })
    }

    /// The number of observations that a sequence of `predicted_len` predictions is
    /// scored against: the root-mean-squared error divides by it.
    pub fn prediction_count(&self, predicted_len: usize) -> (r: Result<u32, RegressionError>)
        requires
            self.wf(),
        ensures
            match r {
                Ok(c) => predicted_len == self.count() && c == self.count() && c > 0,
                Err(e) => {
                    ||| predicted_len != self.count() && e == RegressionError::LengthMismatch
                    ||| predicted_len == self.count() && self.count() == 0 && e
                        == RegressionError::EmptySample
                },
            },
    {
        let n = self.x_values.len();
        if predicted_len != n {
            return Err(RegressionError::LengthMismatch);
        }
        if n == 0 {
            return Err(RegressionError::EmptySample);
        }
        Ok(n as u32)
    }
}

/// For a sample whose `x` and `y` values both vary, R squared of its least-squares line,
/// `co_moment^2 / (var_x * var_y)`, lies between 0 and 1; it equals
/// `1 - SS_res / SS_tot`, with `SS_res` the sum of squared residuals of the line and
/// `SS_tot` the sum of squared deviations of `y` from its mean; and it is 1 exactly when
/// every observation lies on the line.
pub proof fn lemma_score_bounds(s: InputNumbers)
    requires
        s.wf(),
        s.count() > 0,
        var_moment(s.xs()) != 0,
        var_moment(s.ys()) != 0,
    ensures
        ({
            let xs = s.xs();
            let ys = s.ys();
            let vx = var_moment(xs);
            let vy = var_moment(ys);
            let c = co_moment(xs, ys);
            let ss_res = dot(residuals(xs, ys), residuals(xs, ys));
            let ss_tot = dot(deviations(xs, ys), deviations(xs, ys));
            &&& vx > 0 && vy > 0
            &&& 0 <= c * c <= vx * vy
            &&& (c * c) * (vx * vx * ss_tot) == (vx * vy) * (vx * vx * ss_tot - ss_res)
            &&& (c * c == vx * vy <==> forall|i: int|
                0 <= i < s.count() ==> on_fitted_line(xs, ys, i))
        }),
{
    let xs = s.xs();
    let ys = s.ys();
    let n = s.count();
    let vx = var_moment(xs);
    let vy = var_moment(ys);
    let c = co_moment(xs, ys);
    let r = residuals(xs, ys);
    let ss_res = dot(r, r);
    let ss_tot = dot(deviations(xs, ys), deviations(xs, ys));
    lemma_var_moment(xs);
    lemma_var_moment(ys);
    lemma_residuals(xs, ys);
    lemma_deviations(xs, ys);
    lemma_squares(r);
    assert(c * c >= 0) by (nonlinear_arith);
    assert(ss_res == (n * vx) * (vx * vy - c * c)) by (nonlinear_arith)
        requires
            ss_res == n * vx * (vx * vy - c * c),
    ;
    assert(n * vx > 0) by (nonlinear_arith)
        requires
            n > 0,
            vx > 0,
    ;
    assert(vx * vy - c * c >= 0) by (nonlinear_arith)
        requires
            ss_res == (n * vx) * (vx * vy - c * c),
            ss_res >= 0,
            n * vx > 0,
    ;
    assert(ss_res == 0 <==> vx * vy - c * c == 0) by (nonlinear_arith)
        requires
            ss_res == (n * vx) * (vx * vy - c * c),
            n * vx > 0,
    ;
    assert((c * c) * (vx * vx * ss_tot) == (vx * vy) * (vx * vx * ss_tot - ss_res))
        by (nonlinear_arith)
        requires
            ss_res == n * vx * (vx * vy - c * c),
            ss_tot == n * vy,
    ;
    assert forall|i: int| 0 <= i < n implies (r[i] == 0 <==> on_fitted_line(xs, ys, i)) by {
        lemma_residual_zero(xs, ys, i);
    }
    assert(r.len() == n);
    if c * c == vx * vy {
        assert forall|i: int| 0 <= i < n implies on_fitted_line(xs, ys, i) by {
            assert(r[i] == 0);
        }
    }
    if forall|i: int| 0 <= i < n ==> on_fitted_line(xs, ys, i) {
        assert forall|i: int| 0 <= i < r.len() implies r[i] == 0 by {
            assert(on_fitted_line(xs, ys, i));
        }
        assert(ss_res == 0);
    }
}

/// When every observation lies on the least-squares line, its residuals are all zero, so
/// the squared prediction errors on that sample sum to zero.
pub proof fn lemma_exact_fit_has_no_error(s: InputNumbers)
    requires
        s.wf(),
        forall|i: int| 0 <= i < s.count() ==> on_fitted_line(s.xs(), s.ys(), i),
    ensures
        dot(residuals(s.xs(), s.ys()), residuals(s.xs(), s.ys())) == 0,
{
    let r = residuals(s.xs(), s.ys());
    assert forall|i: int| 0 <= i < r.len() implies r[i] == 0 by {
        lemma_residual_zero(s.xs(), s.ys(), i);
    }
    lemma_squares(r);
}

/// A non-empty sample has a degenerate fit exactly when all its `x` values are equal.
pub proof fn lemma_degenerate_fit(s: InputNumbers)
    requires
        s.wf(),
        s.count() > 0,
    ensures
        var_moment(s.xs()) == 0 <==> forall|i: int, j: int|
            0 <= i < s.count() && 0 <= j < s.count() ==> s.xs()[i] == s.xs()[j],
{
    lemma_var_moment(s.xs());
}

} // verus!
