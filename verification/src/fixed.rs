//! Fixed-point arithmetic on `i32`.
//!
//! Every quantity of the renderer is an `i32` scaled by a power of two. The
//! arithmetic is two's complement: a sum, difference, product or left shift
//! that leaves the `i32` range keeps its low 32 bits. Callers who want
//! geometrically meaningful pictures keep their magnitudes small enough for
//! that never to happen; the functions here are total either way.
use vstd::prelude::*;

verus! {

/// Position of the binary point. Some values carry a multiple or a fraction
/// of this many fractional bits; comments mark them FP1, FP2, FP0.5.
pub const FP_POS: i32 = 8;

/// The `i32` that has the same low 32 bits as `v`.
pub open spec fn wrap(v: int) -> i32 {
    let m: int = v % 0x1_0000_0000;
    if m >= 0x8000_0000 {
        (m - 0x1_0000_0000) as i32
    } else {
        m as i32
    }
}

/// Quotient rounded toward zero, as machine division rounds; `0` for a zero divisor.
pub open spec fn quot(a: int, b: int) -> int {
    if b == 0 {
        0
    } else if a >= 0 && b > 0 {
        a / b
    } else if a < 0 && b < 0 {
        (-a) / (-b)
    } else if a < 0 {
        -((-a) / b)
    } else {
        -(a / (-b))
    }
}

/// `r` is the integer square root of `n`, rounded down.
pub open spec fn is_floor_sqrt(n: int, r: int) -> bool {
    0 <= r && r * r <= n < (r + 1) * (r + 1)
}

/// Integer square root rounded down; `0` for negative `n`.
pub open spec fn sqrt_floor(n: int) -> int {
    if n < 0 {
        0
    } else {
        choose|r: int| is_floor_sqrt(n, r)
    }
}

/// A value inside the `i32` range is its own wrapping.
pub proof fn lemma_wrap_fits(v: int)
    requires
        i32::MIN <= v <= i32::MAX,
    ensures
        wrap(v) == v,
{
    if v >= 0 {
        assert(v % 0x1_0000_0000 == v);
    } else {
        assert(v % 0x1_0000_0000 == v + 0x1_0000_0000);
    }
}

/// Wrapping differs from the exact value by a multiple of 2^32.
pub proof fn lemma_wrap_congruent(v: int)
    ensures
        (wrap(v) - v) % 0x1_0000_0000 == 0,
        wrap(v) == v - 0x1_0000_0000 * ((v + 0x8000_0000) / 0x1_0000_0000),
{
    let q: int = v / 0x1_0000_0000;
    let m: int = v % 0x1_0000_0000;
    assert(v == 0x1_0000_0000 * q + m);
    if m >= 0x8000_0000 {
        assert((v + 0x8000_0000) / 0x1_0000_0000 == q + 1);
        assert(wrap(v) - v == 0x1_0000_0000 * (-(q + 1)));
    } else {
        assert((v + 0x8000_0000) / 0x1_0000_0000 == q);
        assert(wrap(v) - v == 0x1_0000_0000 * (-q));
    }
}

/// Two values that differ by a multiple of 2^32 wrap to the same `i32`.
pub proof fn lemma_wrap_shift(v: int, k: int)
    ensures
        wrap(v + 0x1_0000_0000 * k) == wrap(v),
{
    assert((v + 0x1_0000_0000 * k) % 0x1_0000_0000 == v % 0x1_0000_0000) by {
        vstd::arithmetic::div_mod::lemma_mod_multiples_vanish(k, v, 0x1_0000_0000);
    }
}

/// Wrapping an operand first does not change a wrapped sum.
pub proof fn lemma_wrap_add_inner(a: int, b: int)
    ensures
        wrap(wrap(a) + b) == wrap(a + b),
{
    lemma_wrap_congruent(a);
    let k: int = (a + 0x8000_0000) / 0x1_0000_0000;
    lemma_wrap_shift(a + b, -k);
    assert(wrap(a) + b == a + b + 0x1_0000_0000 * (-k));
}

/// Wrapping sum.
pub fn wadd(a: i32, b: i32) -> (r: i32)
    ensures
        r == wrap(a + b),
{
    proof {
        let s: int = a + b;
        if s > i32::MAX {
            lemma_wrap_shift(s - 0x1_0000_0000, 1);
            lemma_wrap_fits(s - 0x1_0000_0000);
        } else if s < i32::MIN {
            lemma_wrap_shift(s + 0x1_0000_0000, -1);
            lemma_wrap_fits(s + 0x1_0000_0000);
        } else {
            lemma_wrap_fits(s);
        }
    }
    a.wrapping_add(b)
}

/// Wrapping difference.
pub fn wsub(a: i32, b: i32) -> (r: i32)
    ensures
        r == wrap(a - b),
{
    proof {
        let s: int = a - b;
        if s > i32::MAX {
            lemma_wrap_shift(s - 0x1_0000_0000, 1);
            lemma_wrap_fits(s - 0x1_0000_0000);
        } else if s < i32::MIN {
            lemma_wrap_shift(s + 0x1_0000_0000, -1);
            lemma_wrap_fits(s + 0x1_0000_0000);
        } else {
            lemma_wrap_fits(s);
        }
    }
    a.wrapping_sub(b)
}

/// Wrapping product.
pub fn wmul(a: i32, b: i32) -> (r: i32)
    ensures
        r == wrap(a * b),
{
    a.wrapping_mul(b)
}

/// `a << 8`: a value gains [`FP_POS`] fractional bits.
pub fn up(a: i32) -> (r: i32)
    ensures
        r == wrap(a * 256),
{
    wmul(a, 256)
}

/// `a << 4`: a value gains half of [`FP_POS`] fractional bits.
pub fn up_half(a: i32) -> (r: i32)
    ensures
        r == wrap(a * 16),
{
    wmul(a, 16)
}

/// `a >> 8`: a value loses [`FP_POS`] fractional bits, rounding down.
pub fn down(a: i32) -> (r: i32)
    ensures
        r == a / 256,
{
    let r: i32 = a >> 8;
    assert(a >> 8 == a / 256) by (bit_vector);
    r
}

/// `a >> 4`: a value loses half of [`FP_POS`] fractional bits, rounding down.
pub fn down_half(a: i32) -> (r: i32)
    ensures
        r == a / 16,
{
    let r: i32 = a >> 4;
    assert(a >> 4 == a / 16) by (bit_vector);
    r
}

/// Wrapping quotient rounded toward zero; `b` is not zero.
pub fn wdiv(a: i32, b: i32) -> (r: i32)
    requires
        b != 0,
    ensures
        r == wrap(quot(a as int, b as int)),
{
    match a.checked_div(b) {
        Some(q) => {
            proof {
                lemma_wrap_fits(q as int);
            }
            q
        },
        None => {
            proof {
                lemma_wrap_shift(i32::MIN as int, 1);
                lemma_wrap_fits(i32::MIN as int);
            }
            i32::MIN
        },
    }
}

/// A number has at most one floor square root.
pub proof fn lemma_floor_sqrt_unique(n: int, r1: int, r2: int)
    requires
        is_floor_sqrt(n, r1),
        is_floor_sqrt(n, r2),
    ensures
        r1 == r2,
{
    if r1 < r2 {
        assert((r1 + 1) * (r1 + 1) <= r2 * r2) by (nonlinear_arith)
            requires
                0 <= r1 + 1 <= r2,
        ;
    }
    if r2 < r1 {
        assert((r2 + 1) * (r2 + 1) <= r1 * r1) by (nonlinear_arith)
            requires
                0 <= r2 + 1 <= r1,
        ;
    }
}

/// Every non-negative number has a floor square root, and [`sqrt_floor`] is it.
pub proof fn lemma_sqrt_floor_is_root(n: int)
    requires
        0 <= n,
    ensures
        is_floor_sqrt(n, sqrt_floor(n)),
    decreases n,
{
    if n == 0 {
        assert(is_floor_sqrt(0, 0));
    } else {
        lemma_sqrt_floor_is_root(n - 1);
        let r: int = sqrt_floor(n - 1);
        if (r + 1) * (r + 1) <= n {
            assert((r + 2) * (r + 2) > (r + 1) * (r + 1)) by (nonlinear_arith)
                requires
                    0 <= r,
            ;
            assert(is_floor_sqrt(n, r + 1));
        } else {
            assert(is_floor_sqrt(n, r));
        }
    }
}

/// The square root of zero is zero.
pub proof fn lemma_sqrt_floor_zero()
    ensures
        sqrt_floor(0) == 0,
{
    lemma_sqrt_floor_is_root(0);
    assert(is_floor_sqrt(0, 0));
    lemma_floor_sqrt_unique(0, 0, sqrt_floor(0));
}

/// The square root of a perfect square `k * k` is `k`, for every `k >= 0`.
pub proof fn lemma_sqrt_floor_square(k: int)
    requires
        0 <= k,
    ensures
        sqrt_floor(k * k) == k,
{
    assert(0 <= k * k < (k + 1) * (k + 1)) by (nonlinear_arith)
        requires
            0 <= k,
    ;
    lemma_sqrt_floor_is_root(k * k);
    assert(is_floor_sqrt(k * k, k));
    lemma_floor_sqrt_unique(k * k, k, sqrt_floor(k * k));
}

/// The square root never decreases when its argument grows.
pub proof fn lemma_sqrt_floor_monotonic(a: int, b: int)
    requires
        a <= b,
    ensures
        sqrt_floor(a) <= sqrt_floor(b),
{
    if b >= 0 {
        lemma_sqrt_floor_is_root(b);
    }
    if a >= 0 {
        lemma_sqrt_floor_is_root(a);
        let ra: int = sqrt_floor(a);
        let rb: int = sqrt_floor(b);
        if rb < ra {
            assert((rb + 1) * (rb + 1) <= ra * ra) by (nonlinear_arith)
                requires
                    0 <= rb + 1 <= ra,
            ;
        }
    }
}

/// One of the sixteen binary digits' weights that a root of an `i32` can have.
pub open spec fn is_digit(b: int) -> bool {
    b == 1 || b == 2 || b == 4 || b == 8 || b == 16 || b == 32 || b == 64 || b == 128 || b == 256
        || b == 512 || b == 1024 || b == 2048 || b == 4096 || b == 8192 || b == 16384 || b
        == 32768
}

/// Integer square root, rounded down, by the digit-by-digit method: each
/// binary digit of the root is tried from the highest down and kept when the
/// square still fits. A negative `num` gives `0`.
pub fn isqrt(num: i32) -> (r: i32)
    ensures
        r == sqrt_floor(num as int),
        0 <= r <= 46340,
        num >= 0 ==> r * r <= num < (r + 1) * (r + 1),
{
    let mut v: i32 = num;
    let mut n: i32 = 0;
    let mut b: i32 = 0x8000;
    while b != 0
        invariant
            b == 0 || is_digit(b as int),
            0 <= n,
            n + 2 * b <= 65536,
            num < 0 ==> n == 0 && v == num,
            num >= 0 ==> v >= 0 && n * n + v == num,
            num >= 0 && b != 0 ==> num < (n + 2 * b) * (n + 2 * b),
            num >= 0 && b == 0 ==> num < (n + 1) * (n + 1),
        decreases b,
    {
        assert(n <= 46340) by (nonlinear_arith)
            requires
                0 <= n,
                num >= 0 ==> n * n <= num,
                num < 0 ==> n == 0,
                num <= 0x7fff_ffff,
        ;
        assert(0 < (2 * n + b) * b <= 0x7fff_ffff && (2 * n + b) * b == (n + b) * (n + b) - n * n)
            by (nonlinear_arith)
            requires
                0 <= n <= 46340,
                n + 2 * b <= 65536,
                0 < b <= 32768,
        ;
        // (n + b)^2 - n^2: what the square gains if this digit is set
        let tmp: i32 = (2 * n + b) * b;
        if v >= tmp {
            n = n + b;
            v = v - tmp;
        }
        b = b / 2;
    }
    proof {
        if num >= 0 {
            assert(is_floor_sqrt(num as int, n as int));
            lemma_sqrt_floor_is_root(num as int);
            lemma_floor_sqrt_unique(num as int, n as int, sqrt_floor(num as int));
            assert(n <= 46340) by (nonlinear_arith)
                requires
                    0 <= n,
                    n * n <= num,
                    num <= 0x7fff_ffff,
            ;
        }
    }
    n
}

/// Half of `a`, rounded toward zero.
pub fn half(a: i32) -> (r: i32)
    ensures
        r == quot(a as int, 2),
{
    proof {
        lemma_wrap_fits(quot(a as int, 2));
    }
    wdiv(a, 2)
}

} // verus!
