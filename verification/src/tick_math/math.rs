use vstd::prelude::*;
use vstd::arithmetic::div_mod::{lemma_fundamental_div_mod, lemma_fundamental_div_mod_converse};
use vstd::arithmetic::power2::{lemma2_to64, lemma_pow2_adds, lemma_pow2_pos, lemma_pow2_unfold, pow2};

use crate::float_bits;
use crate::float_bits::F64Bits;
use crate::float_math;
use crate::tick_math::error::MathError;

verus! {

/// The radix of a limb, `2^128`.
pub open spec fn limb_radix() -> int {
    0x1_0000_0000_0000_0000_0000_0000_0000_0000int
}

/// Multiplies two limbs: `hi * 2^128 + lo` is the exact product.
pub fn u128_wide_mul(a: u128, b: u128) -> (r: (u128, u128))
    ensures
        r.0 * limb_radix() + r.1 == a * b,
{
    let base: u128 = 0x1_0000_0000_0000_0000;
    let a0: u128 = a % base;
    let a1: u128 = a / base;
    let b0: u128 = b % base;
    let b1: u128 = b / base;
    proof {
        lemma_half_product(a0 as int, b0 as int);
        lemma_half_product(a0 as int, b1 as int);
        lemma_half_product(a1 as int, b0 as int);
        lemma_half_product(a1 as int, b1 as int);
    }
    let low: u128 = a0 * b0;
    let mid: u128 = a0 * b1 + low / base;
    let cross: u128 = a1 * b0 + mid % base;
    proof {
        lemma_split_product(a as int, b as int, a0 as int, a1 as int, b0 as int, b1 as int);
    }
    let hi: u128 = a1 * b1 + mid / base + cross / base;
    let lo: u128 = (cross % base) * base + low % base;
    (hi, lo)
}

proof fn lemma_half_product(x: int, y: int)
    requires
        0 <= x < 0x1_0000_0000_0000_0000,
        0 <= y < 0x1_0000_0000_0000_0000,
    ensures
        0 <= x * y <= 0xffff_ffff_ffff_ffff * 0xffff_ffff_ffff_ffff,
{
    assert(0 <= x * y <= 0xffff_ffff_ffff_ffff * 0xffff_ffff_ffff_ffff) by (nonlinear_arith)
        requires
            0 <= x <= 0xffff_ffff_ffff_ffff,
            0 <= y <= 0xffff_ffff_ffff_ffff,
    ;
}

proof fn lemma_split_product(a: int, b: int, a0: int, a1: int, b0: int, b1: int)
    requires
        a == a1 * 0x1_0000_0000_0000_0000 + a0,
        b == b1 * 0x1_0000_0000_0000_0000 + b0,
    ensures
        a * b == (a1 * b1) * limb_radix() + (a0 * b1 + a1 * b0) * 0x1_0000_0000_0000_0000 + a0 * b0,
{
    assert((a1 * 0x1_0000_0000_0000_0000 + a0) * (b1 * 0x1_0000_0000_0000_0000 + b0) == (a1 * b1)
        * 0x1_0000_0000_0000_0000_0000_0000_0000_0000 + (a0 * b1 + a1 * b0)
        * 0x1_0000_0000_0000_0000 + a0 * b0) by (nonlinear_arith);
}

/// One limb of a long division: brings `limb` down behind the running
/// remainder and divides by `d`, bit by bit.
fn div_limb(carry: u128, limb: u128, d: u128) -> (r: (u128, u128))
    requires
        carry < d,
    ensures
        carry * limb_radix() + limb == r.0 * d + r.1,
        r.1 < d,
{
    let mut rem: u128 = carry;
    let mut rest: u128 = limb;
    let mut q: u128 = 0;
    let mut k: u32 = 0;
    let ghost mut low: int = limb as int;
    let ghost total: int = carry * limb_radix() + limb;
    proof {
        lemma2_to64();
        lemma_pow2_adds(64, 64);
        assert(pow2(64) * pow2(64) == limb_radix()) by (nonlinear_arith)
            requires
                pow2(64) == 0x1_0000_0000_0000_0000,
                limb_radix() == 0x1_0000_0000_0000_0000_0000_0000_0000_0000int,
        ;
        assert(pow2(0) == 1);
        assert((0 * d + rem) * pow2(128) == carry * limb_radix());
    }
    while k < 128
        invariant
            k <= 128,
            rem < d,
            pow2(128) == limb_radix(),
            total == (q * d + rem) * pow2((128 - k) as nat) + low,
            0 <= low < pow2((128 - k) as nat),
            rest == low * pow2(k as nat),
            q < pow2(k as nat),
        decreases 128 - k,
    {
        let bit: u128 = if rest >= 0x8000_0000_0000_0000_0000_0000_0000_0000 { 1 } else { 0 };
        let ghost w: int = pow2((127 - k) as nat) as int;
        let ghost v: int = pow2(k as nat) as int;
        let ghost old_low: int = low;
        let ghost n: int = q * d + rem;
        let ghost old_q: int = q as int;
        let ghost old_rem: int = rem as int;
        proof {
            lemma_pow2_unfold((128 - k) as nat);
            lemma_pow2_unfold((k + 1) as nat);
            lemma_pow2_pos(k as nat);
            lemma_pow2_pos((127 - k) as nat);
            lemma_pow2_adds((127 - k) as nat, (k + 1) as nat);
            lemma_top_bit(old_low, w, v, rest as int, bit as int);
            lemma_pow2_adds((127 - k) as nat, k as nat);
        }
        rest = (rest - bit * 0x8000_0000_0000_0000_0000_0000_0000_0000) * 2;
        let gap: u128 = d - rem;
        proof {
            assert(2 * v <= limb_radix()) by (nonlinear_arith)
                requires
                    w * (2 * v) == limb_radix(),
                    w >= 1,
                    v >= 1,
            ;
        }
        if rem + bit >= gap {
            rem = rem + bit - gap;
            q = 2 * q + 1;
        } else {
            rem = rem + rem + bit;
            q = 2 * q;
        }
        proof {
            low = old_low - bit * w;
            lemma_bring_down(old_q, d as int, old_rem, q as int, rem as int, bit as int);
            lemma_shift_total(n, w, old_low, bit as int, low);
        }
        k = k + 1;
    }
    proof {
        assert(pow2(0) == 1);
        assert(low == 0);
        assert((q * d + rem) * 1 == q * d + rem);
    }
    (q, rem)
}

proof fn lemma_top_bit(low: int, w: int, v: int, rest: int, bit: int)
    requires
        w >= 1,
        v >= 1,
        w * (2 * v) == limb_radix(),
        0 <= low < 2 * w,
        rest == low * v,
        bit == (if rest >= 0x8000_0000_0000_0000_0000_0000_0000_0000int { 1int } else { 0int }),
    ensures
        0 <= low - bit * w < w,
        (rest - bit * 0x8000_0000_0000_0000_0000_0000_0000_0000) * 2 == (low - bit * w) * (2 * v),
        0 <= (rest - bit * 0x8000_0000_0000_0000_0000_0000_0000_0000) * 2 < limb_radix(),
{
    let half: int = 0x8000_0000_0000_0000_0000_0000_0000_0000int;
    assert(w * v == half) by (nonlinear_arith)
        requires
            w * (2 * v) == 2 * half,
    ;
    if bit == 1 {
        assert(low >= w) by (nonlinear_arith)
            requires
                low * v >= w * v,
                v >= 1,
        ;
        assert((low * v - w * v) * 2 == (low - 1 * w) * (2 * v)) by (nonlinear_arith);
    } else {
        assert(low < w) by (nonlinear_arith)
            requires
                low * v < w * v,
                v >= 1,
        ;
        assert(low * v * 2 == (low - 0 * w) * (2 * v)) by (nonlinear_arith);
    }
    let low2: int = low - bit * w;
    assert(low2 * (2 * v) < w * (2 * v)) by (nonlinear_arith)
        requires
            low2 < w,
            v >= 1,
    ;
    assert(0 <= low2 * (2 * v)) by (nonlinear_arith)
        requires
            low2 >= 0,
            v >= 1,
    ;
}

proof fn lemma_bring_down(q: int, d: int, rem: int, q2: int, rem2: int, bit: int)
    requires
        (q2 == 2 * q + 1 && rem2 == 2 * rem + bit - d) || (q2 == 2 * q && rem2 == 2 * rem + bit),
    ensures
        q2 * d + rem2 == 2 * (q * d + rem) + bit,
{
    assert((2 * q + 1) * d == 2 * (q * d) + d) by (nonlinear_arith);
    assert((2 * q) * d == 2 * (q * d)) by (nonlinear_arith);
}

proof fn lemma_shift_total(n: int, w: int, low: int, bit: int, low2: int)
    requires
        low2 == low - bit * w,
    ensures
        n * (2 * w) + low == (2 * n + bit) * w + low2,
{
    assert((2 * n + bit) * w == n * (2 * w) + bit * w) by (nonlinear_arith);
}

/// The quotient of `n` by a positive `d`, rounded toward minus infinity.
pub open spec fn floor_div(n: int, d: int) -> int {
    n / d
}

/// The quotient of `n` by a positive `d`, rounded toward plus infinity.
pub open spec fn ceil_div(n: int, d: int) -> int {
    -((-n) / d)
}

/// The quotient of `n` by a positive `d`, rounded toward zero.
pub open spec fn trunc_div(n: int, d: int) -> int {
    if n >= 0 {
        n / d
    } else {
        -((-n) / d)
    }
}

/// The magnitude of an integer.
pub open spec fn magnitude(n: int) -> int {
    if n >= 0 {
        n
    } else {
        -n
    }
}

/// Whether the truncated magnitude of `n / d` stays inside `i128`. The signed
/// divisions work on magnitudes, so this bound is what they report against.
pub open spec fn magnitude_fits(n: int, d: int) -> bool {
    magnitude(n) / d <= i128::MAX
}

/// Outcome of a signed division that rounds toward minus infinity.
pub open spec fn floor_outcome(n: int, d: int) -> Result<i128, MathError> {
    if d <= 0 {
        Err(MathError::DivisionByZero)
    } else if !magnitude_fits(n, d) {
        Err(MathError::Overflow)
    } else {
        Ok(floor_div(n, d) as i128)
    }
}

/// Outcome of a signed division that rounds toward plus infinity.
pub open spec fn ceil_outcome(n: int, d: int) -> Result<i128, MathError> {
    if d <= 0 {
        Err(MathError::DivisionByZero)
    } else if !magnitude_fits(n, d) || ceil_div(n, d) > i128::MAX {
        Err(MathError::Overflow)
    } else {
        Ok(ceil_div(n, d) as i128)
    }
}

/// Outcome of a signed division that rounds toward zero.
pub open spec fn trunc_outcome(n: int, d: int) -> Result<i128, MathError> {
    if d <= 0 {
        Err(MathError::DivisionByZero)
    } else if !magnitude_fits(n, d) {
        Err(MathError::Overflow)
    } else {
        Ok(trunc_div(n, d) as i128)
    }
}

/// Outcome of an unsigned division that rounds up.
pub open spec fn up_outcome(n: int, d: int) -> Result<u128, MathError> {
    if d == 0 {
        Err(MathError::DivisionByZero)
    } else if ceil_div(n, d) > u128::MAX {
        Err(MathError::Overflow)
    } else {
        Ok(ceil_div(n, d) as u128)
    }
}

/// Outcome of an unsigned division that rounds down.
pub open spec fn down_outcome(n: int, d: int) -> Result<u128, MathError> {
    if d == 0 {
        Err(MathError::DivisionByZero)
    } else if floor_div(n, d) > u128::MAX {
        Err(MathError::Overflow)
    } else {
        Ok(floor_div(n, d) as u128)
    }
}

/// Divides the two-limb magnitude `hi * 2^128 + lo` by `d`; a quotient of more
/// than one limb is an overflow.
fn div_u256_by_u128(hi: u128, lo: u128, d: u128) -> (r: Result<(u128, u128), MathError>)
    ensures
        d == 0 <==> r == Err::<(u128, u128), MathError>(MathError::DivisionByZero),
        d > 0 ==> {
            let n = hi * limb_radix() + lo;
            match r {
                Ok((q, rem)) => q == n / d as int && rem == n % d as int,
                Err(e) => e == MathError::Overflow && n / d as int > u128::MAX,
            }
        },
{
    if d == 0 {
        return Err(MathError::DivisionByZero);
    }
    let (q1, r1) = div_limb(0, hi, d);
    let (q0, r0) = div_limb(r1, lo, d);
    proof {
        let n: int = hi * limb_radix() + lo;
        let q: int = q1 * limb_radix() + q0;
        assert(n == q * d + r0) by (nonlinear_arith)
            requires
                n == hi * limb_radix() + lo,
                q == q1 * limb_radix() + q0,
                hi == q1 * d + r1,
                r1 * limb_radix() + lo == q0 * d + r0,
        ;
        lemma_fundamental_div_mod_converse(n, d as int, q, r0 as int);
    }
    if q1 != 0 {
        return Err(MathError::Overflow);
    }
    Ok((q0, r0))
}

/// Multiplies the two-limb magnitude `hi * 2^128 + lo` by `scalar`, giving
/// three limbs, most significant first.
fn wide_mul_u256_by_u128(hi: u128, lo: u128, scalar: u128) -> (r: (u128, u128, u128))
    ensures
        r.0 * limb_radix() * limb_radix() + r.1 * limb_radix() + r.2 == (hi * limb_radix() + lo)
            * scalar,
{
    let (lo_hi, lo_lo) = u128_wide_mul(lo, scalar);
    let (hi_hi, hi_lo) = u128_wide_mul(hi, scalar);
    proof {
        let m: int = 0xffff_ffff_ffff_ffff_ffff_ffff_ffff_ffffint;
        assert(hi * scalar <= m * m) by (nonlinear_arith)
            requires
                0 <= hi <= m,
                0 <= scalar <= m,
        ;
        assert(m * m == 0xffff_ffff_ffff_ffff_ffff_ffff_ffff_fffeint * limb_radix() + 1);
        assert((hi * limb_radix() + lo) * scalar == (hi * scalar) * limb_radix() + lo * scalar)
            by (nonlinear_arith);
    }
    let (limb1, carry) = match hi_lo.checked_add(lo_hi) {
        Some(sum) => (sum, 0u128),
        None => (hi_lo - (u128::MAX - lo_hi) - 1, 1u128),
    };
    let limb2: u128 = hi_hi + carry;
    proof {
        lemma_three_limbs(hi_hi as int, hi_lo as int, lo_hi as int, limb2 as int, limb1 as int, carry as int);
    }
    (limb2, limb1, lo_lo)
}

proof fn lemma_three_limbs(hi_hi: int, hi_lo: int, lo_hi: int, limb2: int, limb1: int, carry: int)
    requires
        limb2 == hi_hi + carry,
        limb1 == hi_lo + lo_hi - carry * limb_radix(),
    ensures
        limb2 * limb_radix() * limb_radix() + limb1 * limb_radix() == (hi_hi * limb_radix() + hi_lo)
            * limb_radix() + lo_hi * limb_radix(),
{
}

/// Divides the three-limb magnitude by `d`. The quotient is given as two
/// limbs; one that needs a third is an overflow.
fn div_u3limb_by_u128(limb2: u128, limb1: u128, limb0: u128, d: u128) -> (r: Result<
    (u128, u128, u128),
    MathError,
>)
    ensures
        d == 0 <==> r == Err::<(u128, u128, u128), MathError>(MathError::DivisionByZero),
        d > 0 ==> {
            let n = limb2 * limb_radix() * limb_radix() + limb1 * limb_radix() + limb0;
            match r {
                Ok((q_hi, q_lo, rem)) => q_hi * limb_radix() + q_lo == n / d as int && rem == n
                    % d as int,
                Err(e) => e == MathError::Overflow && n / d as int >= limb_radix() * limb_radix(),
            }
        },
{
    if d == 0 {
        return Err(MathError::DivisionByZero);
    }
    let (q2, r2) = div_limb(0, limb2, d);
    let (q1, r1) = div_limb(r2, limb1, d);
    let (q0, r0) = div_limb(r1, limb0, d);
    proof {
        let radix: int = limb_radix();
        let n: int = limb2 * radix * radix + limb1 * radix + limb0;
        let q: int = q2 * radix * radix + q1 * radix + q0;
        let high: int = limb2 * radix + limb1;
        let q_high: int = q2 * radix + q1;
        assert(high == q_high * d + r1) by (nonlinear_arith)
            requires
                high == limb2 * radix + limb1,
                q_high == q2 * radix + q1,
                limb2 == q2 * d + r2,
                r2 * radix + limb1 == q1 * d + r1,
        ;
        assert(n == q * d + r0) by (nonlinear_arith)
            requires
                n == limb2 * radix * radix + limb1 * radix + limb0,
                q == q2 * radix * radix + q1 * radix + q0,
                high == limb2 * radix + limb1,
                q_high == q2 * radix + q1,
                high == q_high * d + r1,
                r1 * radix + limb0 == q0 * d + r0,
        ;
        lemma_fundamental_div_mod_converse(n, d as int, q, r0 as int);
    }
    if q2 != 0 {
        return Err(MathError::Overflow);
    }
    Ok((q1, q0, r0))
}

/// The magnitude of a signed value; it always fits the unsigned type.
pub fn unsigned_magnitude(v: i128) -> (r: u128)
    ensures
        r == magnitude(v as int),
{
    if v >= 0 {
        v as u128
    } else {
        (-(v + 1)) as u128 + 1
    }
}

proof fn lemma_magnitude_product(a: int, b: int)
    ensures
        magnitude(a) * magnitude(b) == magnitude(a * b),
        a == 0 || b == 0 ==> a * b == 0,
        a != 0 && b != 0 ==> (a * b < 0 <==> ((a < 0) != (b < 0))),
        a != 0 && b != 0 ==> a * b != 0,
{
    assert(magnitude(a) * magnitude(b) == magnitude(a * b)) by (nonlinear_arith)
        requires
            magnitude(a) == (if a >= 0 { a } else { -a }),
            magnitude(b) == (if b >= 0 { b } else { -b }),
            magnitude(a * b) == (if a * b >= 0 { a * b } else { -(a * b) }),
    ;
    assert(a == 0 || b == 0 ==> a * b == 0) by (nonlinear_arith);
    assert(a != 0 && b != 0 ==> (a * b < 0 <==> ((a < 0) != (b < 0)))) by (nonlinear_arith);
    assert(a != 0 && b != 0 ==> a * b != 0) by (nonlinear_arith);
}

/// The three rounding directions in terms of the quotient and remainder of the
/// magnitude.
proof fn lemma_signed_rounding(n: int, d: int)
    requires
        d > 0,
    ensures
        n >= 0 ==> floor_div(n, d) == magnitude(n) / d,
        n >= 0 ==> ceil_div(n, d) == magnitude(n) / d + (if magnitude(n) % d == 0 { 0int } else { 1 }),
        n < 0 ==> ceil_div(n, d) == -(magnitude(n) / d),
        n < 0 ==> floor_div(n, d) == -(magnitude(n) / d) - (if magnitude(n) % d == 0 { 0int } else { 1 }),
        magnitude(n) / d >= 0,
        0int / d == 0,
{
    let m: int = magnitude(n);
    let q: int = m / d;
    let r: int = m % d;
    lemma_fundamental_div_mod(m, d);
    assert(q >= 0) by (nonlinear_arith)
        requires
            m >= 0,
            d > 0,
            q == m / d,
    ;
    if r == 0 {
        assert((-q) * d + 0 == -m) by (nonlinear_arith)
            requires
                m == d * q + r,
                r == 0,
        ;
        lemma_fundamental_div_mod_converse(-m, d, -q, 0);
    } else {
        assert((-q - 1) * d + (d - r) == -m) by (nonlinear_arith)
            requires
                m == d * q + r,
        ;
        lemma_fundamental_div_mod_converse(-m, d, -q - 1, d - r);
    }
    assert(0 * d + 0 == 0) by (nonlinear_arith);
    lemma_fundamental_div_mod_converse(0, d, 0, 0);
}

/// `floor(a * b / d)`, exact, for a positive `d`.
pub fn mul_div_floor(a: i128, b: i128, d: i128) -> (r: Result<i128, MathError>)
    ensures
        r == floor_outcome(a * b, d as int),
{
    if d <= 0 {
        return Err(MathError::DivisionByZero);
    }
    proof {
        lemma_magnitude_product(a as int, b as int);
        lemma_signed_rounding(a * b, d as int);
    }
    if a == 0 || b == 0 {
        return Ok(0);
    }
    let neg: bool = (a < 0) != (b < 0);
    let (hi, lo) = u128_wide_mul(unsigned_magnitude(a), unsigned_magnitude(b));
    match div_u256_by_u128(hi, lo, d as u128) {
        Err(e) => Err(e),
        Ok((q, rem)) => {
            if q > i128::MAX as u128 {
                Err(MathError::Overflow)
            } else if !neg {
                Ok(q as i128)
            } else if rem == 0 {
                Ok(-(q as i128))
            } else {
                Ok(-(q as i128) - 1)
            }
        },
    }
}

/// `ceil(a * b / d)`, exact, for a positive `d`.
pub fn mul_div_ceil(a: i128, b: i128, d: i128) -> (r: Result<i128, MathError>)
    ensures
        r == ceil_outcome(a * b, d as int),
{
    if d <= 0 {
        return Err(MathError::DivisionByZero);
    }
    proof {
        lemma_magnitude_product(a as int, b as int);
        lemma_signed_rounding(a * b, d as int);
    }
    if a == 0 || b == 0 {
        return Ok(0);
    }
    let neg: bool = (a < 0) != (b < 0);
    let (hi, lo) = u128_wide_mul(unsigned_magnitude(a), unsigned_magnitude(b));
    match div_u256_by_u128(hi, lo, d as u128) {
        Err(e) => Err(e),
        Ok((q, rem)) => {
            if q > i128::MAX as u128 {
                Err(MathError::Overflow)
            } else if neg {
                Ok(-(q as i128))
            } else if rem == 0 {
                Ok(q as i128)
            } else if q == i128::MAX as u128 {
                Err(MathError::Overflow)
            } else {
                Ok(q as i128 + 1)
            }
        },
    }
}

/// `a * b / d` rounded toward zero, exact, for a positive `d`. It differs from
/// [`mul_div_floor`] on a negative result with a remainder.
pub fn mul_div_trunc(a: i128, b: i128, d: i128) -> (r: Result<i128, MathError>)
    ensures
        r == trunc_outcome(a * b, d as int),
{
    if d <= 0 {
        return Err(MathError::DivisionByZero);
    }
    proof {
        lemma_magnitude_product(a as int, b as int);
        lemma_signed_rounding(a * b, d as int);
    }
    if a == 0 || b == 0 {
        return Ok(0);
    }
    let neg: bool = (a < 0) != (b < 0);
    let (hi, lo) = u128_wide_mul(unsigned_magnitude(a), unsigned_magnitude(b));
    match div_u256_by_u128(hi, lo, d as u128) {
        Err(e) => Err(e),
        Ok((q, _rem)) => {
            if q > i128::MAX as u128 {
                Err(MathError::Overflow)
            } else if neg {
                Ok(-(q as i128))
            } else {
                Ok(q as i128)
            }
        },
    }
}

/// `ceil(x * y / d)`, exact, on magnitudes.
pub fn mul_div_up(x: u128, y: u128, d: u128) -> (r: Result<u128, MathError>)
    ensures
        r == up_outcome(x * y, d as int),
{
    if d == 0 {
        return Err(MathError::DivisionByZero);
    }
    proof {
        lemma_magnitude_product(x as int, y as int);
        lemma_signed_rounding(x * y, d as int);
    }
    if x == 0 || y == 0 {
        return Ok(0);
    }
    let (hi, lo) = u128_wide_mul(x, y);
    match div_u256_by_u128(hi, lo, d) {
        Err(e) => Err(e),
        Ok((q, rem)) => {
            if rem == 0 {
                Ok(q)
            } else if q == u128::MAX {
                Err(MathError::Overflow)
            } else {
                Ok(q + 1)
            }
        },
    }
}

/// `floor(x * y / d)`, exact, on magnitudes.
pub fn mul_div_down(x: u128, y: u128, d: u128) -> (r: Result<u128, MathError>)
    ensures
        r == down_outcome(x * y, d as int),
{
    if d == 0 {
        return Err(MathError::DivisionByZero);
    }
    proof {
        lemma_magnitude_product(x as int, y as int);
        lemma_signed_rounding(x * y, d as int);
    }
    if x == 0 || y == 0 {
        return Ok(0);
    }
    let (hi, lo) = u128_wide_mul(x, y);
    match div_u256_by_u128(hi, lo, d) {
        Err(e) => Err(e),
        Ok((q, _rem)) => Ok(q),
    }
}

/// `floor(a * b * c / d)`, exact, for a positive `d`. The triple product is
/// formed first and divided once: two chained divisions would round twice.
pub fn mul3_div_floor_u32(a: i128, b: i128, c: u32, d: i128) -> (r: Result<i128, MathError>)
    ensures
        r == floor_outcome(a * b * c, d as int),
{
    if d <= 0 {
        return Err(MathError::DivisionByZero);
    }
    proof {
        lemma_magnitude_product(a as int, b as int);
        lemma_magnitude_product(a * b, c as int);
        lemma_signed_rounding(a * b * c, d as int);
    }
    if a == 0 || b == 0 || c == 0 {
        return Ok(0);
    }
    let neg: bool = (a < 0) != (b < 0);
    let (hi1, lo1) = u128_wide_mul(unsigned_magnitude(a), unsigned_magnitude(b));
    let (limb2, limb1, limb0) = wide_mul_u256_by_u128(hi1, lo1, c as u128);
    match div_u3limb_by_u128(limb2, limb1, limb0, d as u128) {
        Err(e) => Err(e),
        Ok((q_hi, q_lo, rem)) => {
            if q_hi != 0 || q_lo > i128::MAX as u128 {
                Err(MathError::Overflow)
            } else if !neg {
                Ok(q_lo as i128)
            } else if rem == 0 {
                Ok(-(q_lo as i128))
            } else {
                Ok(-(q_lo as i128) - 1)
            }
        },
    }
}

/// `ceil(a * b * c / d)`, exact, on magnitudes.
pub fn mul3_div_up_u32(a: u128, b: u128, c: u32, d: u128) -> (r: Result<u128, MathError>)
    ensures
        r == up_outcome(a * b * c, d as int),
{
    if d == 0 {
        return Err(MathError::DivisionByZero);
    }
    proof {
        lemma_magnitude_product(a as int, b as int);
        lemma_magnitude_product(a * b, c as int);
        lemma_signed_rounding(a * b * c, d as int);
    }
    if a == 0 || b == 0 || c == 0 {
        return Ok(0);
    }
    let (hi1, lo1) = u128_wide_mul(a, b);
    let (limb2, limb1, limb0) = wide_mul_u256_by_u128(hi1, lo1, c as u128);
    match div_u3limb_by_u128(limb2, limb1, limb0, d) {
        Err(e) => Err(e),
        Ok((q_hi, q_lo, rem)) => {
            if q_hi != 0 {
                Err(MathError::Overflow)
            } else if rem == 0 {
                Ok(q_lo)
            } else if q_lo == u128::MAX {
                Err(MathError::Overflow)
            } else {
                Ok(q_lo + 1)
            }
        },
    }
}

/// Floor and ceiling bracket the quotient and differ by at most one; truncation
/// is the ceiling below zero and the floor above it.
pub proof fn law_rounding_directions(n: int, d: int)
    requires
        d > 0,
    ensures
        floor_div(n, d) * d <= n <= ceil_div(n, d) * d,
        ceil_div(n, d) - floor_div(n, d) == (if n % d == 0 { 0int } else { 1 }),
        n >= 0 ==> trunc_div(n, d) == floor_div(n, d),
        n < 0 ==> trunc_div(n, d) == ceil_div(n, d),
        magnitude_fits(n, d) ==> i128::MIN <= floor_div(n, d) <= i128::MAX,
{
    lemma_fundamental_div_mod(n, d);
    lemma_fundamental_div_mod(-n, d);
    let q: int = n / d;
    let r: int = n % d;
    assert(q * d <= n) by (nonlinear_arith)
        requires
            n == d * q + r,
            r >= 0,
    ;
    if r == 0 {
        assert((-q) * d + 0 == -n) by (nonlinear_arith)
            requires
                n == d * q + r,
                r == 0,
        ;
        lemma_fundamental_div_mod_converse(-n, d, -q, 0);
    } else {
        assert((-q - 1) * d + (d - r) == -n) by (nonlinear_arith)
            requires
                n == d * q + r,
        ;
        lemma_fundamental_div_mod_converse(-n, d, -q - 1, d - r);
    }
    let c: int = ceil_div(n, d);
    assert(n <= c * d) by (nonlinear_arith)
        requires
            -n == d * (-c) + (-n) % d,
            (-n) % d >= 0,
    ;
    lemma_signed_rounding(n, d);
}

/// Dividing twice can only lose: the floor of the fused product is never below
/// the product of the floor.
pub proof fn law_fused_division_dominates(n: int, c: nat, d: int)
    requires
        d > 0,
    ensures
        floor_div(n, d) * c <= floor_div(n * c, d),
{
    let q: int = n / d;
    lemma_fundamental_div_mod(n, d);
    lemma_fundamental_div_mod(n * c, d);
    let fused: int = (n * c) / d;
    let r: int = n % d;
    let r2: int = (n * c) % d;
    assert(q * c <= fused) by (nonlinear_arith)
        requires
            n == d * q + r,
            n * c == d * fused + r2,
            0 <= r,
            r2 < d,
            d > 0,
            c >= 0,
    ;
}

/// A ceiling that is reported is representable.
pub proof fn lemma_ceil_in_range(n: int, d: int)
    requires
        d > 0,
        ceil_outcome(n, d) is Ok,
    ensures
        ceil_outcome(n, d)->Ok_0 == ceil_div(n, d),
{
    lemma_signed_rounding(n, d);
}

/// `a * b / d` in floats: each operand and each operation rounded.
pub open spec fn float_quotient(a: i128, b: i128, d: i128) -> F64Bits {
    float_math::quotient(
        float_math::product(float_math::of_integer(a as int), float_math::of_integer(b as int)),
        float_math::of_integer(d as int),
    )
}

/// What a float quotient comes to, its fraction cut off. The greatest integer
/// and the least one round to a power of two, which is still in range.
pub open spec fn approx_outcome(a: i128, b: i128, d: i128) -> Result<i128, MathError> {
    let q = float_quotient(a, b, d);
    if d == 0 {
        Err(MathError::DivisionByZero)
    } else if !float_bits::finite(q) || float_bits::less(float_math::of_integer(i128::MAX as int), q)
        || float_bits::less(q, float_math::of_integer(i128::MIN as int)) {
        Err(MathError::Overflow)
    } else {
        Ok(
            float_math::saturated(
                q,
                float_math::truncation(q),
                i128::MIN as int,
                i128::MAX as int,
            ) as i128,
        )
    }
}

/// `a * b / d` by way of floats, for rates that need no exactness.
pub fn mul_div_approx(a: i128, b: i128, d: i128) -> (r: Result<i128, MathError>)
    ensures
        r == approx_outcome(a, b, d),
{
    if d == 0 {
        return Err(MathError::DivisionByZero);
    }
    let q: F64Bits = F64Bits::of(a).times(F64Bits::of(b)).over(F64Bits::of(d));
    if !q.is_finite() {
        return Err(MathError::Overflow);
    }
    if F64Bits::of(i128::MAX).is_less(q) || q.is_less(F64Bits::of(i128::MIN)) {
        return Err(MathError::Overflow);
    }
    Ok(q.truncated())
}

} // verus!
