//! How close the approximation comes to the inverse square root.
//!
//! The inverse square root `r` of `x` is the positive number with
//! `x * r * r == 1`, so an estimate `y` lies within the fraction `q` of it
//! exactly when `x * y * y` lies between `(1 - q)^2` and `(1 + q)^2`. With
//! `x` and `y` in units of `2^-149` that is a statement about whole numbers.
use crate::ieee::format::{significand, scale, units};
use crate::rsqrt::{positive_normal, seed, MAGIC};
use vstd::arithmetic::power2::{lemma2_to64, lemma_pow2_adds, lemma_pow2_pos, pow2};
use vstd::prelude::*;

verus! {

/// One as the cube of a unit: `x * y * y` is this number exactly when `y` is
/// the inverse square root of `x`, both counted in units.
pub open spec fn one_cubed() -> int {
    pow2(447) as int
}

/// The square of a number times a factor is never more than the cube of a
/// third of their sum, doubled where the number counts twice.
proof fn lemma_product_below_cube(a: int, b: int)
    requires
        a >= 0,
        b >= 0,
    ensures
        27 * (a * (b * b)) <= (a + 2 * b) * ((a + 2 * b) * (a + 2 * b)),
{
    let s = a + 2 * b;
    let gap = (a - b) * (a - b);
    assert(s * (s * s) - 27 * (a * (b * b)) == gap * (a + 8 * b)) by (nonlinear_arith)
        requires
            s == a + 2 * b,
            gap == (a - b) * (a - b),
    ;
    assert(gap * (a + 8 * b) >= 0) by (nonlinear_arith)
        requires
            gap == (a - b) * (a - b),
            a >= 0,
            b >= 0,
    ;
}

/// The cubic of the seed for an odd exponent, from below.
proof fn lemma_cubic_low_odd(m: int, p: int)
    requires
        0 <= m <= 4194303,
        p == (8388608 + 2 * m) * ((16210399 - m) * (16210399 - m)),
    ensures
        p >= 2200622781017254669583,
{
    assert(p >= 2200622781017254669583) by (nonlinear_arith)
        requires
            0 <= m <= 4194303,
            p == (8388608 + 2 * m) * ((16210399 - m) * (16210399 - m)),
    ;
}

/// The cubic of the seed for an even exponent and a small fraction, from
/// below.
proof fn lemma_cubic_low_even_small(m: int, p: int)
    requires
        0 <= m <= 3627487,
        p == (8388608 + 2 * m) * ((12016095 - m) * (12016095 - m)),
    ensures
        p >= 1100311390508627334792,
{
    assert(p >= 1100311390508627334792) by (nonlinear_arith)
        requires
            0 <= m <= 3627487,
            p == (8388608 + 2 * m) * ((12016095 - m) * (12016095 - m)),
    ;
}

/// The cubic of the seed for an even exponent and a large fraction, from
/// below.
proof fn lemma_cubic_low_even_large(m: int, p: int)
    requires
        3627488 <= m <= 4194303,
        p == (8388608 + 2 * m) * ((20404703 - m) * (20404703 - m)),
    ensures
        p >= 4401245562034509339165,
{
    assert(p >= 4401245562034509339165) by (nonlinear_arith)
        requires
            3627488 <= m <= 4194303,
            p == (8388608 + 2 * m) * ((20404703 - m) * (20404703 - m)),
    ;
}

/// The product `x * y * y` of a number and its first guess, both in units,
/// from the fields of their patterns: the significands multiply, and the
/// scales add up to a power of two that depends on the case only.
proof fn lemma_seed_product(x: u32, shift: nat, k: int, m: int, bit: int)
    requires
        positive_normal(x),
        m == (x as int % 0x80_0000) / 2,
        bit == (x as int % 0x80_0000) % 2,
        seed(x) as int % 0x80_0000 == k - 0x80_0000 - m,
        shift == scale(x as int) + 2 * scale(seed(x) as int),
        0x80_0000 <= seed(x) < 0x7f80_0000,
    ensures
        units(x as int) * (units(seed(x) as int) * units(seed(x) as int)) == ((0x80_0000 + 2 * m
            + bit) * ((k - m) * (k - m))) * pow2(shift),
{
    let y = seed(x) as int;
    let sx = significand(x as int);
    let sy = significand(y);
    let px = pow2(scale(x as int)) as int;
    let py = pow2(scale(y)) as int;
    lemma_pow2_adds(scale(y), scale(y));
    lemma_pow2_adds(scale(x as int), 2 * scale(y));
    assert(sx == 0x80_0000 + 2 * m + bit);
    assert(sy == k - m);
    assert((sx * px) * ((sy * py) * (sy * py)) == (sx * (sy * sy)) * (px * (py * py)))
        by (nonlinear_arith);
}

/// The first guess `y` for a positive normal number `x` has `x * y * y`
/// between 0.932 and 1.0695.
pub proof fn lemma_seed_accuracy(x: u32)
    requires
        positive_normal(x),
    ensures
        932 * one_cubed() <= 1000 * (units(x as int) * (units(seed(x) as int) * units(
            seed(x) as int,
        ))),
        10000 * (units(x as int) * (units(seed(x) as int) * units(seed(x) as int))) <= 10695
            * one_cubed(),
{
    let h: int = 0x80_0000;
    let e = x as int / h;
    let f = x as int % h;
    let m = f / 2;
    let bit = f % 2;
    let y = seed(x) as int;
    let ey = y / h;
    let g = y % h;
    let whole = units(x as int) * (units(y) * units(y));
    assert(y == MAGIC - x as int / 2);
    assert(1 <= e <= 254);
    assert(62 <= ey <= 190);
    lemma2_to64();
    let c: int = 0x80_0000;
    if e % 2 == 1 {
        let k: int = 16210399;
        assert(ey == 189 - e / 2);
        assert(g == 7821791 - m);
        let shift: nat = 376;
        lemma_seed_product(x, shift, k, m, bit);
        let p_low = (c + 2 * m) * ((k - m) * (k - m));
        let p = (c + 2 * m + bit) * ((k - m) * (k - m));
        lemma_cubic_low_odd(m, p_low);
        lemma_cubic_bit(c, k, m, bit, 40809407);
        lemma_pow2_adds(64, 7);
        lemma_pow2_adds(376, 71);
        lemma_pow2_pos(376);
        lemma_scaled_bounds(p, pow2(376) as int, pow2(71) as int, whole);
    } else if m <= 3627487 {
        let k: int = 12016095;
        assert(ey == 190 - e / 2);
        assert(g == 3627487 - m);
        let shift: nat = 377;
        lemma_seed_product(x, shift, k, m, bit);
        let p_low = (c + 2 * m) * ((k - m) * (k - m));
        let p = (c + 2 * m + bit) * ((k - m) * (k - m));
        lemma_cubic_low_even_small(m, p_low);
        lemma_cubic_bit(c, k, m, bit, 32420799);
        lemma_pow2_adds(64, 6);
        lemma_pow2_adds(377, 70);
        lemma_pow2_pos(377);
        lemma_scaled_bounds(p, pow2(377) as int, pow2(70) as int, whole);
    } else {
        let k: int = 20404703;
        assert(ey == 189 - e / 2);
        assert(g == 12016095 - m);
        let shift: nat = 375;
        lemma_seed_product(x, shift, k, m, bit);
        let p_low = (c + 2 * m) * ((k - m) * (k - m));
        let p = (c + 2 * m + bit) * ((k - m) * (k - m));
        lemma_cubic_low_even_large(m, p_low);
        lemma_cubic_bit(c, k, m, bit, 49198015);
        lemma_pow2_adds(64, 8);
        lemma_pow2_adds(375, 72);
        lemma_pow2_pos(375);
        lemma_scaled_bounds(p, pow2(375) as int, pow2(72) as int, whole);
    }
}

/// The cubic with the lowest bit of the fraction, against the cubic without
/// it and against the cube of a third of the sum of its factors.
proof fn lemma_cubic_bit(c: int, k: int, m: int, bit: int, s: int)
    requires
        c >= 0,
        0 <= m <= k,
        bit == 0 || bit == 1,
        s == c + 2 * k + 1,
    ensures
        (c + 2 * m + bit) * ((k - m) * (k - m)) >= (c + 2 * m) * ((k - m) * (k - m)),
        27 * ((c + 2 * m + bit) * ((k - m) * (k - m))) <= s * (s * s),
{
    let sq = (k - m) * (k - m);
    assert(sq >= 0) by (nonlinear_arith)
        requires
            sq == (k - m) * (k - m),
    ;
    assert((c + 2 * m + bit) * sq >= (c + 2 * m) * sq) by (nonlinear_arith)
        requires
            bit >= 0,
            sq >= 0,
    ;
    let a = c + 2 * m + bit;
    let b = k - m;
    lemma_product_below_cube(a, b);
    let t = a + 2 * b;
    assert(t * (t * t) <= s * (s * s)) by (nonlinear_arith)
        requires
            0 <= t <= s,
    ;
}

/// Bounds of a product with a power of two, from bounds of the other factor
/// against the complementary power of two.
proof fn lemma_scaled_bounds(p: int, scale_up: int, rest: int, whole: int)
    requires
        scale_up > 0,
        whole == p * scale_up,
        scale_up * rest == one_cubed(),
        932 * rest <= 1000 * p,
        10000 * p <= 10695 * rest,
    ensures
        932 * one_cubed() <= 1000 * whole,
        10000 * whole <= 10695 * one_cubed(),
{
    assert(932 * (scale_up * rest) <= 1000 * (p * scale_up) && 10000 * (p * scale_up) <= 10695 * (
    scale_up * rest)) by (nonlinear_arith)
        requires
            scale_up > 0,
            932 * rest <= 1000 * p,
            10000 * p <= 10695 * rest,
    ;
}

/// A common positive factor can be dropped from both sides.
pub proof fn lemma_cancel(a: int, b: int, k: int)
    requires
        k > 0,
        a * k <= b * k,
    ensures
        a <= b,
{
    assert(a <= b) by (nonlinear_arith)
        requires
            k > 0,
            a * k <= b * k,
    ;
}

/// Among numbers that are not negative, the one with the larger square is
/// the larger.
pub proof fn lemma_root_order(a: int, b: int)
    requires
        a >= 0,
        b >= 0,
        a * a <= b * b,
    ensures
        a <= b,
{
    assert(a <= b) by (nonlinear_arith)
        requires
            a >= 0,
            b >= 0,
            a * a <= b * b,
    ;
}

/// Products of numbers that are not negative keep the order of their
/// factors.
pub proof fn lemma_product_order(a: int, b: int, c: int, d: int)
    requires
        0 <= a <= b,
        0 <= c <= d,
    ensures
        0 <= a * c <= b * d,
{
    assert(0 <= a * c <= b * d) by (nonlinear_arith)
        requires
            0 <= a <= b,
            0 <= c <= d,
    ;
}

/// What Newton's step falls short of one by: with `a` the distance of `w`
/// from one, `4 - w * (3 - w)^2` is `a^2 * (3 + a)`. Here one is `n`.
proof fn lemma_step_shortfall(n: int, a: int)
    ensures
        4 * (n * (n * n)) - (n - a) * ((2 * n + a) * (2 * n + a)) == (a * a) * (3 * n + a),
{
    assert(4 * (n * (n * n)) - (n - a) * ((2 * n + a) * (2 * n + a)) == (a * a) * (3 * n + a))
        by (nonlinear_arith);
}

/// Newton's step never overshoots: `w * (3 - w)^2 <= 4`, and near `w == 1`
/// it falls short by little. Here `w` and one are `big` and `n`.
pub proof fn lemma_step_polynomial(big: int, n: int)
    requires
        n > 0,
        9319 * n <= 10000 * big,
        10000 * big <= 10696 * n,
    ensures
        big * ((3 * n - big) * (3 * n - big)) <= 4 * (n * (n * n)),
        10000 * (big * ((3 * n - big) * (3 * n - big))) >= 39850 * (n * (n * n)),
{
    let gap = n - big;
    let far = 3 * n + gap;
    let sq = gap * gap;
    let nn = n * n;
    let cube = n * nn;
    lemma_step_shortfall(n, gap);
    assert(4 * cube - big * ((3 * n - big) * (3 * n - big)) == sq * far);
    // The gap is at most 0.0696 n in size and the far factor at most 3.0681 n.
    let size = if gap >= 0 {
        10000 * gap
    } else {
        -10000 * gap
    };
    lemma_product_order(size, 696 * n, size, 696 * n);
    assert(size * size == 100000000 * sq && (696 * n) * (696 * n) == 484416 * nn)
        by (nonlinear_arith)
        requires
            size == 10000 * gap || size == -10000 * gap,
            sq == gap * gap,
            nn == n * n,
    ;
    assert(sq >= 0);
    assert(0 <= 10000 * far <= 30681 * n);
    lemma_product_order(100000000 * sq, 484416 * nn, 10000 * far, 30681 * n);
    assert((100000000 * sq) * (10000 * far) == 1000000000000 * (sq * far)) by (nonlinear_arith);
    assert((484416 * nn) * (30681 * n) == 14862367296 * cube) by (nonlinear_arith)
        requires
            cube == n * nn,
    ;
    assert(sq * far >= 0);
}

} // verus!
