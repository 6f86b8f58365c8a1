//! Mathematical model of a paired sample: prefix sums, dot products and the
//! centred second moments that least squares is built from.

use vstd::prelude::*;

verus! {

/// The integer values of a vector of `i32`.
pub open spec fn ints(v: Seq<i32>) -> Seq<int> {
    v.map_values(|e: i32| e as int)
}

/// Sum of the first `n` elements of `s`.
pub open spec fn sum_to(s: Seq<int>, n: int) -> int
    decreases n,
{
    if n <= 0 {
        0
    } else {
        sum_to(s, n - 1) + s[n - 1]
    }
}

/// Sum of `a[i] * b[i]` over the first `n` indices.
pub open spec fn dot_to(a: Seq<int>, b: Seq<int>, n: int) -> int
    decreases n,
{
    if n <= 0 {
        0
    } else {
        dot_to(a, b, n - 1) + a[n - 1] * b[n - 1]
    }
}

/// Sum of all elements of `s`.
pub open spec fn sum(s: Seq<int>) -> int {
    sum_to(s, s.len() as int)
}

/// Sum of `a[i] * b[i]` over the indices of `a`.
pub open spec fn dot(a: Seq<int>, b: Seq<int>) -> int {
    dot_to(a, b, a.len() as int)
}

/// The element-wise affine combination `p * x[i] + q * y[i] + c`.
pub open spec fn comb(x: Seq<int>, y: Seq<int>, p: int, q: int, c: int) -> Seq<int> {
    Seq::new(x.len(), |i: int| p * x[i] + q * y[i] + c)
}

/// `n * sum(x*y) - sum(x) * sum(y)`: `n` squared times the sample covariance.
pub open spec fn co_moment(x: Seq<int>, y: Seq<int>) -> int {
    x.len() * dot(x, y) - sum(x) * sum(y)
}

/// `n` squared times the sample variance of `x`.
pub open spec fn var_moment(x: Seq<int>) -> int {
    co_moment(x, x)
}

/// `a * (u + v + w)` distributes over the sum.
proof fn lemma_distribute(a: int, u: int, v: int, w: int)
    ensures
        a * (u + v + w) == a * u + a * v + a * w,
{
    assert(a * (u + v + w) == a * u + a * v + a * w) by (nonlinear_arith);
}

/// A product of three factors may be regrouped.
proof fn lemma_associate(a: int, b: int, c: int)
    ensures
        a * (b * c) == (a * b) * c,
        a * (b * c) == (a * c) * b,
{
    assert(a * (b * c) == (a * b) * c) by (nonlinear_arith);
    assert(a * (b * c) == (a * c) * b) by (nonlinear_arith);
}

/// Multiplication commutes.
proof fn lemma_commute(a: int, b: int)
    ensures
        a * b == b * a,
{
}

/// A dot product is linear in its first argument.
proof fn lemma_dot_linear_left(x: Seq<int>, y: Seq<int>, z: Seq<int>, p: int, q: int, c: int, k: int)
    requires
        x.len() == y.len(),
        0 <= k <= x.len(),
        k <= z.len(),
    ensures
        dot_to(comb(x, y, p, q, c), z, k) == p * dot_to(x, z, k) + q * dot_to(y, z, k) + c
            * sum_to(z, k),
    decreases k,
{
    if k > 0 {
        lemma_dot_linear_left(x, y, z, p, q, c, k - 1);
        let a = x[k - 1];
        let b = y[k - 1];
        let w = z[k - 1];
        let dx = dot_to(x, z, k - 1);
        let dy = dot_to(y, z, k - 1);
        let sz = sum_to(z, k - 1);
        assert((p * a + q * b + c) * w == p * (a * w) + q * (b * w) + c * w) by (nonlinear_arith);
        assert(p * (dx + a * w) + q * (dy + b * w) + c * (sz + w) == p * dx + q * dy + c * sz + (p
            * (a * w) + q * (b * w) + c * w)) by (nonlinear_arith);
    }
}

/// A dot product is symmetric.
proof fn lemma_dot_symmetric(a: Seq<int>, b: Seq<int>, k: int)
    requires
        0 <= k <= a.len(),
        k <= b.len(),
    ensures
        dot_to(a, b, k) == dot_to(b, a, k),
    decreases k,
{
    if k > 0 {
        lemma_dot_symmetric(a, b, k - 1);
        assert(a[k - 1] * b[k - 1] == b[k - 1] * a[k - 1]) by (nonlinear_arith);
    }
}

/// The sum of an affine combination.
proof fn lemma_sum_comb(x: Seq<int>, y: Seq<int>, p: int, q: int, c: int, k: int)
    requires
        x.len() == y.len(),
        0 <= k <= x.len(),
    ensures
        sum_to(comb(x, y, p, q, c), k) == p * sum_to(x, k) + q * sum_to(y, k) + k * c,
    decreases k,
{
    if k > 0 {
        lemma_sum_comb(x, y, p, q, c, k - 1);
        let sx = sum_to(x, k - 1);
        let sy = sum_to(y, k - 1);
        let a = x[k - 1];
        let b = y[k - 1];
        let s_prev = sum_to(comb(x, y, p, q, c), k - 1);
        let s_k = sum_to(comb(x, y, p, q, c), k);
        let e = comb(x, y, p, q, c)[k - 1];
        let tx = sum_to(x, k);
        let ty = sum_to(y, k);
        assert(s_k == p * tx + q * ty + k * c) by (nonlinear_arith)
            requires
                s_k == s_prev + e,
                s_prev == p * sx + q * sy + (k - 1) * c,
                e == p * a + q * b + c,
                tx == sx + a,
                ty == sy + b,
        ;
    } else {
        assert(p * 0 + q * 0 + 0 * c == 0) by (nonlinear_arith);
    }
}

/// Expansion of a dot product of two affine combinations of `x` and `y`.
pub proof fn lemma_dot_comb(
    x: Seq<int>,
    y: Seq<int>,
    p1: int,
    q1: int,
    c1: int,
    p2: int,
    q2: int,
    c2: int,
)
    requires
        x.len() == y.len(),
    ensures
        dot(comb(x, y, p1, q1, c1), comb(x, y, p2, q2, c2)) == p1 * p2 * dot(x, x) + (p1 * q2
            + q1 * p2) * dot(x, y) + q1 * q2 * dot(y, y) + (p1 * c2 + c1 * p2) * sum(x) + (q1
            * c2 + c1 * q2) * sum(y) + x.len() * (c1 * c2),
{
    let n = x.len() as int;
    let u = comb(x, y, p1, q1, c1);
    let v = comb(x, y, p2, q2, c2);
    lemma_dot_linear_left(x, y, v, p1, q1, c1, n);
    lemma_dot_symmetric(x, v, n);
    lemma_dot_symmetric(y, v, n);
    lemma_dot_linear_left(x, y, x, p2, q2, c2, n);
    lemma_dot_linear_left(x, y, y, p2, q2, c2, n);
    lemma_dot_symmetric(x, y, n);
    lemma_sum_comb(x, y, p2, q2, c2, n);
    let xx = dot(x, x);
    let xy = dot(x, y);
    let yy = dot(y, y);
    let sx = sum(x);
    let sy = sum(y);
    lemma_distribute(p1, p2 * xx, q2 * xy, c2 * sx);
    lemma_distribute(q1, p2 * xy, q2 * yy, c2 * sy);
    lemma_distribute(c1, p2 * sx, q2 * sy, n * c2);
    lemma_associate(p1, p2, xx);
    lemma_associate(p1, q2, xy);
    lemma_associate(p1, c2, sx);
    lemma_associate(q1, p2, xy);
    lemma_associate(q1, q2, yy);
    lemma_associate(q1, c2, sy);
    lemma_associate(c1, p2, sx);
    lemma_associate(c1, q2, sy);
    lemma_associate(c1, n, c2);
    lemma_associate(n, c1, c2);
    lemma_distribute(xy, p1 * q2, q1 * p2, 0);
    lemma_distribute(sx, p1 * c2, c1 * p2, 0);
    lemma_distribute(sy, q1 * c2, c1 * q2, 0);
    lemma_commute(xy, p1 * q2 + q1 * p2);
    lemma_commute(sx, p1 * c2 + c1 * p2);
    lemma_commute(sy, q1 * c2 + c1 * q2);
    lemma_commute(xy, p1 * q2);
    lemma_commute(xy, q1 * p2);
    lemma_commute(sx, p1 * c2);
    lemma_commute(sx, c1 * p2);
    lemma_commute(sy, q1 * c2);
    lemma_commute(sy, c1 * q2);
}

/// A prefix sum of squares is never negative, and is zero only where every term is.
pub proof fn lemma_squares_to(s: Seq<int>, k: int)
    requires
        0 <= k <= s.len(),
    ensures
        dot_to(s, s, k) >= 0,
        dot_to(s, s, k) == 0 <==> forall|i: int| 0 <= i < k ==> s[i] == 0,
    decreases k,
{
    if k > 0 {
        lemma_squares_to(s, k - 1);
        let v = s[k - 1];
        assert(v * v >= 0) by (nonlinear_arith);
        assert(v != 0 ==> v * v > 0) by (nonlinear_arith);
        if dot_to(s, s, k) == 0 {
            assert forall|i: int| 0 <= i < k implies s[i] == 0 by {
                if i < k - 1 {
                }
            }
        }
    }
}

/// A sum of squares is never negative, and is zero only where every term is.
pub proof fn lemma_squares(s: Seq<int>)
    ensures
        dot(s, s) >= 0,
        dot(s, s) == 0 <==> forall|i: int| 0 <= i < s.len() ==> s[i] == 0,
{
    lemma_squares_to(s, s.len() as int);
}

/// `n` times the deviations `y[i] - mean(y)`.
pub open spec fn deviations(x: Seq<int>, y: Seq<int>) -> Seq<int> {
    comb(x, y, 0, x.len() as int, -sum(y))
}

/// `n * var_moment(x)` times the residuals `y[i] - (intercept + slope * x[i])` of the
/// least-squares line, whose slope is `co_moment / var_moment` and which passes through
/// the point of means.
pub open spec fn residuals(x: Seq<int>, y: Seq<int>) -> Seq<int> {
    let n = x.len() as int;
    comb(
        x,
        y,
        -(n * co_moment(x, y)),
        n * var_moment(x),
        co_moment(x, y) * sum(x) - var_moment(x) * sum(y),
    )
}

/// The polynomial identity behind the residual sum of squares, over the raw sums.
proof fn lemma_residual_algebra(n: int, xx: int, xy: int, yy: int, sx: int, sy: int)
    ensures
        ({
            let a = n * xx - sx * sx;
            let b = n * xy - sx * sy;
            let c = n * yy - sy * sy;
            let p = -(n * b);
            let q = n * a;
            let r = b * sx - a * sy;
            p * p * xx + (p * q + q * p) * xy + q * q * yy + (p * r + r * p) * sx + (q * r + r
                * q) * sy + n * (r * r) == n * a * (a * c - b * b)
        }),
{
    let a = n * xx - sx * sx;
    let b = n * xy - sx * sy;
    let c = n * yy - sy * sy;
    let p = -(n * b);
    let q = n * a;
    let r = b * sx - a * sy;
    let u = b * sx;
    let w = a * sy;
    let t1 = b * b * (n * xx);
    let t2 = 2 * a * b * (n * xy);
    let t3 = a * a * (n * yy);
    let t4 = 2 * r * (b * sx - a * sy);
    let inner = t1 - t2 + t3 - t4 + r * r;
    assert(p * p * xx == n * t1) by (nonlinear_arith)
        requires
            p == -(n * b),
            t1 == b * b * (n * xx),
    ;
    assert((p * q + q * p) * xy == n * -t2) by (nonlinear_arith)
        requires
            p == -(n * b),
            q == n * a,
            t2 == 2 * a * b * (n * xy),
    ;
    assert(q * q * yy == n * t3) by (nonlinear_arith)
        requires
            q == n * a,
            t3 == a * a * (n * yy),
    ;
    assert((p * r + r * p) * sx == n * (-2 * (r * u))) by (nonlinear_arith)
        requires
            p == -(n * b),
            u == b * sx,
    ;
    assert((q * r + r * q) * sy == n * (2 * (r * w))) by (nonlinear_arith)
        requires
            q == n * a,
            w == a * sy,
    ;
    assert(-t4 == -2 * (r * u) + 2 * (r * w)) by (nonlinear_arith)
        requires
            t4 == 2 * r * (b * sx - a * sy),
            u == b * sx,
            w == a * sy,
    ;
    assert(n * (-2 * (r * u)) + n * (2 * (r * w)) == n * -t4) by (nonlinear_arith)
        requires
            -t4 == -2 * (r * u) + 2 * (r * w),
    ;
    assert(n * (r * r) + n * t1 + n * -t2 + n * t3 + n * -t4 == n * inner) by (nonlinear_arith)
        requires
            inner == t1 - t2 + t3 - t4 + r * r,
    ;
    assert(t1 == a * (b * b) + u * u) by (nonlinear_arith)
        requires
            t1 == b * b * (n * xx),
            n * xx == a + sx * sx,
            u == b * sx,
    ;
    assert(t2 == 2 * (a * (b * b)) + 2 * (u * w)) by (nonlinear_arith)
        requires
            t2 == 2 * a * b * (n * xy),
            n * xy == b + sx * sy,
            u == b * sx,
            w == a * sy,
    ;
    assert(t3 == a * (a * c) + w * w) by (nonlinear_arith)
        requires
            t3 == a * a * (n * yy),
            n * yy == c + sy * sy,
            w == a * sy,
    ;
    assert(t4 == 2 * (r * r)) by (nonlinear_arith)
        requires
            t4 == 2 * r * (b * sx - a * sy),
            r == b * sx - a * sy,
    ;
    assert(r * r == u * u - 2 * (u * w) + w * w) by (nonlinear_arith)
        requires
            r == u - w,
    ;
    assert(a * (a * c - b * b) == a * (a * c) - a * (b * b)) by (nonlinear_arith);
    assert(n * inner == n * (a * (a * c - b * b)));
    assert(n * (a * (a * c - b * b)) == n * a * (a * c - b * b)) by (nonlinear_arith);
}

/// The squared deviations sum to `n * var_moment`.
pub proof fn lemma_deviations(x: Seq<int>, y: Seq<int>)
    requires
        x.len() == y.len(),
    ensures
        dot(deviations(x, y), deviations(x, y)) == x.len() * var_moment(y),
{
    let n = x.len() as int;
    let sy = sum(y);
    let yy = dot(y, y);
    lemma_dot_comb(x, y, 0, n, -sy, 0, n, -sy);
    let l = dot(deviations(x, y), deviations(x, y));
    assert(l == n * (n * yy - sy * sy)) by (nonlinear_arith)
        requires
            l == 0 * 0 * dot(x, x) + (0 * n + n * 0) * dot(x, y) + n * n * yy + (0 * -sy + -sy
                * 0) * sum(x) + (n * -sy + -sy * n) * sy + n * (-sy * -sy),
    ;
}

/// The squared residuals of the least-squares line sum to
/// `n * var_moment(x) * (var_moment(x) * var_moment(y) - co_moment(x, y)^2)`.
pub proof fn lemma_residuals(x: Seq<int>, y: Seq<int>)
    requires
        x.len() == y.len(),
    ensures
        dot(residuals(x, y), residuals(x, y)) == x.len() * var_moment(x) * (var_moment(x)
            * var_moment(y) - co_moment(x, y) * co_moment(x, y)),
{
    let n = x.len() as int;
    let a = var_moment(x);
    let b = co_moment(x, y);
    let p = -(n * b);
    let q = n * a;
    let r = b * sum(x) - a * sum(y);
    lemma_dot_comb(x, y, p, q, r, p, q, r);
    lemma_dot_symmetric(x, y, n);
    lemma_residual_algebra(n, dot(x, x), dot(x, y), dot(y, y), sum(x), sum(y));
}

/// `var_moment` is `n` times a sum of squares: never negative, and zero exactly when
/// all values are equal.
pub proof fn lemma_var_moment(x: Seq<int>)
    requires
        x.len() > 0,
    ensures
        var_moment(x) >= 0,
        var_moment(x) == 0 <==> forall|i: int, j: int|
            0 <= i < x.len() && 0 <= j < x.len() ==> x[i] == x[j],
{
    let n = x.len() as int;
    let d = deviations(x, x);
    lemma_deviations(x, x);
    lemma_squares(d);
    assert(n * var_moment(x) >= 0 ==> var_moment(x) >= 0) by (nonlinear_arith)
        requires
            n > 0,
    ;
    if var_moment(x) == 0 {
        assert forall|i: int, j: int| 0 <= i < x.len() && 0 <= j < x.len() implies x[i] == x[j] by {
            assert(d[i] == 0 && d[j] == 0);
            assert(n * x[i] == n * x[j]);
            assert(x[i] == x[j]) by (nonlinear_arith)
                requires
                    n * x[i] == n * x[j],
                    n > 0,
            ;
        }
    }
    if forall|i: int, j: int| 0 <= i < x.len() && 0 <= j < x.len() ==> x[i] == x[j] {
        lemma_sum_constant(x, x[0], n);
        assert forall|i: int| 0 <= i < d.len() implies d[i] == 0 by {
            assert(x[i] == x[0]);
            assert(n * x[i] == n * x[0]);
        }
        assert(n * var_moment(x) == 0);
        assert(var_moment(x) == 0) by (nonlinear_arith)
            requires
                n * var_moment(x) == 0,
                n > 0,
        ;
    }
}

/// The first `k` elements of a constant sequence sum to `k` times the constant.
proof fn lemma_sum_constant(x: Seq<int>, v: int, k: int)
    requires
        0 <= k <= x.len(),
        forall|i: int| 0 <= i < x.len() ==> x[i] == v,
    ensures
        sum_to(x, k) == k * v,
    decreases k,
{
    if k > 0 {
        lemma_sum_constant(x, v, k - 1);
        assert(k * v == (k - 1) * v + v) by (nonlinear_arith);
    } else {
        assert(0 * v == 0);
    }
}

/// Observation `i` lies exactly on the least-squares line of the sample: with
/// `vx = var_moment(x)` and `cxy = co_moment(x, y)`, the line has slope `cxy / vx` and
/// intercept `(sum(y) * vx - cxy * sum(x)) / (n * vx)`.
pub open spec fn on_fitted_line(x: Seq<int>, y: Seq<int>, i: int) -> bool {
    let n = x.len() as int;
    let vx = var_moment(x);
    let cxy = co_moment(x, y);
    n * vx * y[i] == (sum(y) * vx - cxy * sum(x)) + n * cxy * x[i]
}

/// A residual is zero exactly where its observation lies on the fitted line.
pub proof fn lemma_residual_zero(x: Seq<int>, y: Seq<int>, i: int)
    requires
        x.len() == y.len(),
        0 <= i < x.len(),
    ensures
        residuals(x, y)[i] == 0 <==> on_fitted_line(x, y, i),
{
    let n = x.len() as int;
    let vx = var_moment(x);
    let cxy = co_moment(x, y);
    assert(residuals(x, y)[i] == -(n * cxy) * x[i] + (n * vx) * y[i] + (cxy * sum(x) - vx * sum(
        y,
    )));
    assert(-(n * cxy) * x[i] == -(n * cxy * x[i])) by (nonlinear_arith);
    assert(sum(y) * vx == vx * sum(y)) by (nonlinear_arith);
}

} // verus!
