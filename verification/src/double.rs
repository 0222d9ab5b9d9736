//! Whole numbers as they come back from a double-precision variable.

use vstd::prelude::*;

verus! {

/// The distance between neighbouring double-precision numbers around `n`, where
/// that distance is at least one.
pub open spec fn double_spacing(n: int) -> int
    decreases n,
{
    if n < 0x20_0000_0000_0000 {
        1
    } else {
        2 * double_spacing(n / 2)
    }
}

/// The double-precision number nearest to `n`; halfway between two of them, the
/// one with the even significand.
pub open spec fn double_image(n: int) -> int {
    let s = double_spacing(n);
    let q = n / s;
    let r = n % s;
    if 2 * r < s || 2 * r == s && q % 2 == 0 {
        q * s
    } else {
        (q + 1) * s
    }
}

/// `n` after a conversion to double precision and back, where the way back
/// saturates.
pub fn through_double(n: i64) -> (r: i64)
    requires
        n >= 0,
    ensures
        r >= 0,
        r == if double_image(n as int) > i64::MAX {
            i64::MAX as int
        } else {
            double_image(n as int)
        },
{
    let wide: u64 = n as u64;
    let mut m: u64 = wide;
    let mut s: u64 = 1;
    while m >= 0x20_0000_0000_0000
        invariant
            1 <= s <= 2046,
            m * s <= wide,
            wide <= i64::MAX,
            double_spacing(wide as int) == s * double_spacing(m as int),
        decreases m,
    {
        let half: u64 = m / 2;
        assert(half * (2 * s) <= m * s) by (nonlinear_arith)
            requires
                half == m / 2,
        ;
        assert(s <= 1023) by (nonlinear_arith)
            requires
                m * s <= i64::MAX,
                m >= 0x20_0000_0000_0000,
        ;
        let ghost d = double_spacing(half as int);
        assert(s * (2 * d) == (2 * s) * d) by (nonlinear_arith);
        m = half;
        s = 2 * s;
    }
    let q: u64 = wide / s;
    let r: u64 = wide % s;
    proof {
        assert(q * s + r == wide && q * s <= wide) by (nonlinear_arith)
            requires
                q == wide / s,
                r == wide % s,
                s > 0,
        ;
        assert((q + 1) * s == q * s + s) by (nonlinear_arith);
    }
    let image: u64 = if 2 * r < s || (2 * r == s && q % 2 == 0) {
        q * s
    } else {
        (q + 1) * s
    };
    if image > i64::MAX as u64 {
        i64::MAX
    } else {
        image as i64
    }
}

/// Up to two to the power of 53 a whole number comes back as it was.
pub proof fn lemma_double_exact(n: int)
    requires
        0 <= n <= 0x20_0000_0000_0000,
    ensures
        double_image(n) == n,
{
    reveal_with_fuel(double_spacing, 3);
    if n < 0x20_0000_0000_0000 {
        assert(n / 1 == n && n % 1 == 0);
    }
}

/// The distance between neighbouring double-precision numbers around a large number is a
/// power of two that leaves a significand of 53 bits.
proof fn lemma_double_spacing(n: int) -> (e: nat)
    requires
        n >= 0x20_0000_0000_0000,
    ensures
        double_spacing(n) == vstd::arithmetic::power2::pow2(e),
        e > 0,
        0x10_0000_0000_0000 <= n / double_spacing(n) < 0x20_0000_0000_0000,
    decreases n,
{
    vstd::arithmetic::power2::lemma2_to64();
    if n / 2 < 0x20_0000_0000_0000 {
        assert(double_spacing(n / 2) == 1);
        assert(double_spacing(n) == 2);
        1
    } else {
        let d = lemma_double_spacing(n / 2);
        let s = double_spacing(n / 2);
        vstd::arithmetic::power2::lemma_pow2_unfold(d + 1);
        vstd::arithmetic::power2::lemma_pow2_pos(d);
        vstd::arithmetic::div_mod::lemma_div_denominator(n, 2, s);
        d + 1
    }
}

/// The image of a number is the nearest number with a significand of 53 bits, and the one
/// with the even significand where two are as near.
pub proof fn law_double_image_is_nearest(n: int)
    requires
        n >= 0,
    ensures
        n <= 0x20_0000_0000_0000 ==> double_image(n) == n,
        n > 0x20_0000_0000_0000 ==> exists|e: nat|
            ({
                let s = #[trigger] vstd::arithmetic::power2::pow2(e) as int;
                let image = double_image(n);
                &&& 0x10_0000_0000_0000 <= n / s < 0x20_0000_0000_0000
                &&& image % s == 0
                &&& -s <= 2 * (image - n) <= s
                &&& 2 * (image - n) == s || 2 * (image - n) == -s ==> (image / s) % 2 == 0
            }),
{
    if n <= 0x20_0000_0000_0000 {
        lemma_double_exact(n);
    } else {
        let e = lemma_double_spacing(n);
        let s = double_spacing(n);
        vstd::arithmetic::power2::lemma_pow2_unfold(e);
        vstd::arithmetic::power2::lemma_pow2_pos(e);
        let q = n / s;
        let r = n % s;
        vstd::arithmetic::div_mod::lemma_fundamental_div_mod(n, s);
        vstd::arithmetic::div_mod::lemma_mod_bound(n, s);
        assert(s * q == q * s && (q + 1) * s == q * s + s) by (nonlinear_arith);
        vstd::arithmetic::div_mod::lemma_div_multiples_vanish(q, s);
        vstd::arithmetic::div_mod::lemma_div_multiples_vanish(q + 1, s);
        assert(s * (q + 1) == (q + 1) * s) by (nonlinear_arith);
        vstd::arithmetic::div_mod::lemma_mod_multiples_basic(q, s);
        vstd::arithmetic::div_mod::lemma_mod_multiples_basic(q + 1, s);
        assert(vstd::arithmetic::power2::pow2(e) as int == s);
    }
}

} // verus!
