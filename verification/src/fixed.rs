//! Fixed-point scalar arithmetic for the layout solver.
//!
//! A coordinate is an `i64` holding a real value scaled by `SCALE`
//! (so `SCALE` itself stands for 1.0). Coordinates are kept within
//! [-COORD_LIMIT, COORD_LIMIT] by clamping every update, which keeps
//! every intermediate product inside `i128`.

use vstd::prelude::*;

verus! {

/// Number of fixed-point units that stand for the real value 1.0.
pub const SCALE: i64 = 1_000_000;

/// Guard against division by zero in force magnitudes: 0.001 in units.
pub const EPS: i64 = 1_000;

/// Coordinates are clamped into [-COORD_LIMIT, COORD_LIMIT].
pub const COORD_LIMIT: i64 = 1_000_000_000_000;

/// Upper bound on every configuration scalar, so that magnitudes fit `i128`.
pub const CFG_MAX: i64 = 1_000_000_000_000;

/// Largest value `distance` can return for in-range coordinates.
pub const DIST_MAX: i64 = 7_000_000_000_000;

/// 2 to the 63rd power.
pub const POW2_63: u128 = 0x8000000000000000;

/// 2 to the 126th power.
pub const POW2_126: u128 = 0x40000000000000000000000000000000;

/// 2 to the 44th power: bound on coordinate differences fed to `mul_div`.
pub const POW2_44: u128 = 0x100000000000;

/// 2 to the 80th power: bound on force magnitudes fed to `mul_div`.
pub const POW2_80: u128 = 0x100000000000000000000;

/// 2 to the 124th power.
pub const POW2_124: u128 = 0x10000000000000000000000000000000;

/// Clamp an integer into the inclusive range [lo, hi].
pub open spec fn clamp_spec(x: int, lo: int, hi: int) -> int {
    if x < lo {
        lo
    } else if x > hi {
        hi
    } else {
        x
    }
}

/// Clamp a wide intermediate value into an inclusive `i64` range.
pub fn clamp_i128(x: i128, lo: i64, hi: i64) -> (r: i64)
    requires
        lo <= hi,
    ensures
        r == clamp_spec(x as int, lo as int, hi as int),
{
    if x < lo as i128 {
        lo
    } else if x > hi as i128 {
        hi
    } else {
        x as i64
    }
}

/// Floor of the square root, defined by counting up.
pub open spec fn sqrt_floor(n: int) -> int
    recommends
        n >= 0,
    decreases n,
{
    if n <= 0 {
        0
    } else {
        let r = sqrt_floor(n - 1);
        if (r + 1) * (r + 1) <= n {
            r + 1
        } else {
            r
        }
    }
}

/// `sqrt_floor(n)` squares to at most `n`, and the next integer squares past it.
pub proof fn lemma_sqrt_floor_bounds(n: int)
    requires
        n >= 0,
    ensures
        0 <= sqrt_floor(n),
        sqrt_floor(n) * sqrt_floor(n) <= n,
        n < (sqrt_floor(n) + 1) * (sqrt_floor(n) + 1),
    decreases n,
{
    if n > 0 {
        lemma_sqrt_floor_bounds(n - 1);
        let r = sqrt_floor(n - 1);
        if (r + 1) * (r + 1) <= n {
            assert(sqrt_floor(n) == r + 1);
            assert(n <= (r + 1) * (r + 1)) by {
                assert(n - 1 < (r + 1) * (r + 1));
            }
            assert(n < ((r + 1) + 1) * ((r + 1) + 1)) by (nonlinear_arith)
                requires
                    n <= (r + 1) * (r + 1),
                    r >= 0,
            ;
        } else {
            assert(sqrt_floor(n) == r);
            assert(r * r <= n - 1);
        }
    } else {
        assert(sqrt_floor(n) == 0);
    }
}

/// Any `r` satisfying the square-root bracketing equals `sqrt_floor(n)`.
pub proof fn lemma_sqrt_floor_unique(n: int, r: int)
    requires
        0 <= r,
        r * r <= n,
        n < (r + 1) * (r + 1),
    ensures
        r == sqrt_floor(n),
{
    let s = sqrt_floor(n);
    lemma_sqrt_floor_bounds(n);
    if r < s {
        assert((r + 1) * (r + 1) <= s * s) by (nonlinear_arith)
            requires
                r + 1 <= s,
                r >= 0,
        ;
    } else if s < r {
        assert((s + 1) * (s + 1) <= r * r) by (nonlinear_arith)
            requires
                s + 1 <= r,
                s >= 0,
        ;
    }
}

/// Floor square root of a wide unsigned value, by binary search.
pub fn isqrt(x: u128) -> (r: u64)
    requires
        x < POW2_126,
    ensures
        r as int == sqrt_floor(x as int),
        (r as int) * (r as int) <= x as int,
        (x as int) < ((r as int + 1) * (r as int + 1)),
{
    let mut lo: u128 = 0;
    let mut hi: u128 = POW2_63;
    assert(POW2_63 * POW2_63 == POW2_126) by (nonlinear_arith)
        requires
            POW2_63 == 0x8000000000000000u128,
            POW2_126 == 0x40000000000000000000000000000000u128,
    ;
    while hi - lo > 1
        invariant
            lo < hi <= POW2_63,
            (lo as int) * (lo as int) <= x as int,
            (x as int) < (hi as int) * (hi as int),
        decreases hi - lo,
    {
        let mid: u128 = lo + (hi - lo) / 2;
        assert(lo < mid < hi);
        assert(mid * mid < POW2_126) by (nonlinear_arith)
            requires
                0 <= mid < POW2_63,
        ;
        if mid * mid <= x {
            lo = mid;
        } else {
            hi = mid;
        }
    }
    proof {
        assert(hi == lo + 1);
        lemma_sqrt_floor_unique(x as int, lo as int);
        assert(lo < POW2_63);
        assert(lo <= u64::MAX as u128);
        lemma_sqrt_floor_bounds(x as int);
    }
    lo as u64
}

/// Truncating scaled multiply: `a * num / den`, rounded toward zero,
/// with `num >= 0` and `den > 0`.
pub open spec fn mul_div_spec(a: int, num: int, den: int) -> int
    recommends
        num >= 0,
        den > 0,
{
    if a >= 0 {
        (a * num) / den
    } else {
        -(((-a) * num) / den)
    }
}

/// Rounding toward zero makes the scaled multiply odd in its first argument.
pub proof fn lemma_mul_div_antisym(a: int, num: int, den: int)
    requires
        num >= 0,
        den > 0,
    ensures
        mul_div_spec(-a, num, den) == -mul_div_spec(a, num, den),
{
    if a == 0 {
        assert(0 * num == 0);
        vstd::arithmetic::div_mod::lemma_div_of0(den);
        assert(mul_div_spec(0, num, den) == 0);
    } else if a > 0 {
        assert((-(-a)) * num == a * num);
        assert(mul_div_spec(-a, num, den) == -((a * num) / den));
    } else {
        assert(mul_div_spec(-a, num, den) == ((-a) * num) / den);
        assert(-mul_div_spec(a, num, den) == ((-a) * num) / den);
    }
}

/// Executable truncating scaled multiply on a signed coordinate difference.
pub fn mul_div(a: i64, num: u128, den: u128) -> (r: i128)
    requires
        0 < den,
        num < POW2_80,
        -(POW2_44 as i64) < a < POW2_44 as i64,
    ensures
        r == mul_div_spec(a as int, num as int, den as int),
{
    let abs_a: u128 = if a >= 0 {
        a as u128
    } else {
        (-(a as i128)) as u128
    };
    assert(abs_a < POW2_44);
    assert(abs_a * num < POW2_44 * POW2_80) by (nonlinear_arith)
        requires
            abs_a < POW2_44,
            num < POW2_80,
    ;
    assert(POW2_44 * POW2_80 == POW2_124) by (nonlinear_arith)
        requires
            POW2_44 == 0x100000000000u128,
            POW2_80 == 0x100000000000000000000u128,
            POW2_124 == 0x10000000000000000000000000000000u128,
    ;
    assert(POW2_124 < POW2_126);
    let p: u128 = (abs_a * num) / den;
    proof {
        vstd::arithmetic::div_mod::lemma_div_nonincreasing((abs_a * num) as int, den as int);
        assert(p <= abs_a * num);
    }
    if a >= 0 {
        assert(abs_a as int == a as int);
        p as i128
    } else {
        assert(abs_a as int == -(a as int));
        -(p as i128)
    }
}

/// Truncating scaled multiply with a signed factor: `a * b / den`,
/// rounded toward zero, with `den > 0`.
pub open spec fn mul_div2_spec(a: int, b: int, den: int) -> int
    recommends
        den > 0,
{
    if b >= 0 {
        mul_div_spec(a, b, den)
    } else {
        mul_div_spec(-a, -b, den)
    }
}

/// The signed scaled multiply is odd in its first argument.
pub proof fn lemma_mul_div2_antisym(a: int, b: int, den: int)
    requires
        den > 0,
    ensures
        mul_div2_spec(-a, b, den) == -mul_div2_spec(a, b, den),
{
    if b >= 0 {
        lemma_mul_div_antisym(a, b, den);
    } else {
        lemma_mul_div_antisym(-a, -b, den);
        assert(-(-a) == a);
    }
}

/// The magnitude of the scaled multiply is within `(abound * nbound) / den`.
pub proof fn lemma_mul_div_magnitude(a: int, num: int, den: int, abound: int, nbound: int)
    requires
        num >= 0,
        den > 0,
        -abound <= a <= abound,
        num <= nbound,
        0 <= abound,
        0 <= nbound,
    ensures
        -((abound * nbound) / den) <= mul_div_spec(a, num, den) <= (abound * nbound) / den,
{
    let aa = if a >= 0 {
        a
    } else {
        -a
    };
    assert(aa * num <= abound * nbound) by (nonlinear_arith)
        requires
            0 <= aa <= abound,
            0 <= num <= nbound,
    ;
    assert(0 <= aa * num) by (nonlinear_arith)
        requires
            0 <= aa,
            0 <= num,
    ;
    vstd::arithmetic::div_mod::lemma_div_is_ordered(aa * num, abound * nbound, den);
    vstd::arithmetic::div_mod::lemma_div_pos_is_pos(aa * num, den);
    if a >= 0 {
    } else {
        assert(mul_div_spec(a, num, den) == -((aa * num) / den));
    }
}

/// Executable signed scaled multiply.
pub fn mul_div_signed(a: i64, b: i128, den: u128) -> (r: i128)
    requires
        0 < den,
        -(POW2_80 as i128) < b < POW2_80 as i128,
        -(POW2_44 as i64) < a < POW2_44 as i64,
    ensures
        r == mul_div2_spec(a as int, b as int, den as int),
{
    if b >= 0 {
        mul_div(a, b as u128, den)
    } else {
        let r = mul_div(-a, (-b) as u128, den);
        proof {
            assert(mul_div2_spec(a as int, b as int, den as int) == mul_div_spec(
                -(a as int),
                -(b as int),
                den as int,
            ));
        }
        r
    }
}

/// Squared Euclidean distance over the first `k` coordinates.
pub open spec fn dist_sq(a: Seq<i64>, b: Seq<i64>, k: int) -> int
    recommends
        k <= a.len(),
        k <= b.len(),
    decreases k,
{
    if k <= 0 {
        0
    } else {
        dist_sq(a, b, k - 1) + (b[k - 1] - a[k - 1]) * (b[k - 1] - a[k - 1])
    }
}

/// Squared distance is symmetric in its two endpoints.
pub proof fn lemma_dist_sq_sym(a: Seq<i64>, b: Seq<i64>, k: int)
    ensures
        dist_sq(a, b, k) == dist_sq(b, a, k),
    decreases k,
{
    if k > 0 {
        lemma_dist_sq_sym(a, b, k - 1);
        let d = b[k - 1] - a[k - 1];
        assert(d * d == (-d) * (-d)) by (nonlinear_arith);
    }
}

/// Squared distance is a sum of squares, hence non-negative and bounded
/// when every coordinate is in range.
pub proof fn lemma_dist_sq_bounds(a: Seq<i64>, b: Seq<i64>, k: int)
    requires
        0 <= k,
        forall|i: int| 0 <= i < k ==> -COORD_LIMIT <= #[trigger] a[i] <= COORD_LIMIT,
        forall|i: int| 0 <= i < k ==> -COORD_LIMIT <= #[trigger] b[i] <= COORD_LIMIT,
    ensures
        0 <= dist_sq(a, b, k),
        dist_sq(a, b, k) <= k * (4 * COORD_LIMIT * COORD_LIMIT),
    decreases k,
{
    if k <= 0 {
    } else {
        lemma_dist_sq_bounds(a, b, k - 1);
        let d = b[k - 1] - a[k - 1];
        assert(-2 * COORD_LIMIT <= d <= 2 * COORD_LIMIT);
        assert(0 <= d * d <= 4 * COORD_LIMIT * COORD_LIMIT) by (nonlinear_arith)
            requires
                -2 * COORD_LIMIT <= d <= 2 * COORD_LIMIT,
        ;
        assert(dist_sq(a, b, k) == dist_sq(a, b, k - 1) + d * d);
        assert(dist_sq(a, b, k - 1) <= (k - 1) * (4 * COORD_LIMIT * COORD_LIMIT));
        assert((k - 1) * (4 * COORD_LIMIT * COORD_LIMIT) + (4 * COORD_LIMIT * COORD_LIMIT) == k * (
        4 * COORD_LIMIT * COORD_LIMIT)) by (nonlinear_arith);
        assert(dist_sq(a, b, k) <= k * (4 * COORD_LIMIT * COORD_LIMIT));
    }
}

/// Every coordinate of `p` lies in the clamped range.
pub open spec fn coords_in_range(p: Seq<i64>) -> bool {
    forall|i: int| 0 <= i < p.len() ==> -COORD_LIMIT <= #[trigger] p[i] <= COORD_LIMIT
}

/// Fixed-point Euclidean distance over the first `dims` coordinates:
/// the floor square root of the sum of squared coordinate differences.
pub fn distance(a: &Vec<i64>, b: &Vec<i64>, dims: usize) -> (r: i64)
    requires
        dims <= a.len(),
        dims <= b.len(),
        dims <= 10,
        coords_in_range(a@),
        coords_in_range(b@),
    ensures
        r as int == sqrt_floor(dist_sq(a@, b@, dims as int)),
        0 <= r <= DIST_MAX,
{
    let mut sum: u128 = 0;
    let mut k: usize = 0;
    while k < dims
        invariant
            k <= dims,
            dims <= a.len(),
            dims <= b.len(),
            dims <= 10,
            coords_in_range(a@),
            coords_in_range(b@),
            sum as int == dist_sq(a@, b@, k as int),
            sum as int <= (k as int) * (4 * COORD_LIMIT * COORD_LIMIT),
        decreases dims - k,
    {
        let ak: i64 = a[k];
        let bk: i64 = b[k];
        assert(-COORD_LIMIT <= ak <= COORD_LIMIT);
        assert(-COORD_LIMIT <= bk <= COORD_LIMIT);
        let d: i128 = bk as i128 - ak as i128;
        assert(0 <= d * d <= 4 * COORD_LIMIT * COORD_LIMIT) by (nonlinear_arith)
            requires
                -2 * COORD_LIMIT <= d <= 2 * COORD_LIMIT,
        ;
        let sq: i128 = d * d;
        assert((k as int) * (4 * COORD_LIMIT * COORD_LIMIT) + (4 * COORD_LIMIT * COORD_LIMIT) == ((
        k + 1) as int) * (4 * COORD_LIMIT * COORD_LIMIT)) by (nonlinear_arith);
        assert(((k + 1) as int) * (4 * COORD_LIMIT * COORD_LIMIT) <= 10 * (4 * COORD_LIMIT
            * COORD_LIMIT)) by (nonlinear_arith)
            requires
                k + 1 <= 10,
        ;
        assert(10 * (4 * COORD_LIMIT * COORD_LIMIT) < POW2_126) by (nonlinear_arith)
            requires
                COORD_LIMIT == 1_000_000_000_000i64,
                POW2_126 == 0x40000000000000000000000000000000u128,
        ;
        assert(POW2_126 < u128::MAX);
        sum = sum + (sq as u128);
        k = k + 1;
    }
    proof {
        assert((10 as int) * (4 * COORD_LIMIT * COORD_LIMIT) < POW2_126 as int) by (nonlinear_arith)
            requires
                COORD_LIMIT == 1_000_000_000_000i64,
                POW2_126 == 0x40000000000000000000000000000000u128,
        ;
        assert((dims as int) * (4 * COORD_LIMIT * COORD_LIMIT) <= (10 as int) * (4 * COORD_LIMIT
            * COORD_LIMIT)) by (nonlinear_arith)
            requires
                dims <= 10,
        ;
    }
    let r = isqrt(sum);
    proof {
        let rn = r as int;
        if rn > DIST_MAX as int {
            assert(rn * rn > (DIST_MAX as int) * (DIST_MAX as int)) by (nonlinear_arith)
                requires
                    rn > DIST_MAX as int,
                    DIST_MAX > 0,
            ;
            assert((DIST_MAX as int) * (DIST_MAX as int) >= (10 as int) * (4 * COORD_LIMIT
                * COORD_LIMIT)) by (nonlinear_arith)
                requires
                    COORD_LIMIT == 1_000_000_000_000i64,
                    DIST_MAX == 7_000_000_000_000i64,
            ;
            assert((dims as int) * (4 * COORD_LIMIT * COORD_LIMIT) <= (10 as int) * (4 * COORD_LIMIT
                * COORD_LIMIT)) by (nonlinear_arith)
                requires
                    dims <= 10,
            ;
        }
    }
    r as i64
}

} // verus!
