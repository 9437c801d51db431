//! Arithmetic on floats: each result is the exact one, rounded once.

use vstd::arithmetic::div_mod::{lemma_fundamental_div_mod, lemma_fundamental_div_mod_converse};
use vstd::arithmetic::power2::{lemma_pow2_adds, lemma_pow2_pos, lemma_pow2_strictly_increases, lemma_pow2_unfold, pow2};
use vstd::prelude::*;

use crate::float_bits;
use crate::float_bits::{F64Bits, NOT_A_NUMBER, ONE, TWO};
use crate::float_round;
use crate::float_round::{power_of_two, round_cut, round_root_cut, INFINITE};
use crate::tick_math::math::unsigned_magnitude;

verus! {

/// What is not a number.
pub open spec fn not_a_number() -> F64Bits {
    F64Bits(NOT_A_NUMBER)
}

/// Whether a float is infinite.
pub open spec fn infinite(f: F64Bits) -> bool {
    float_bits::mag(f) == INFINITE
}

/// Whether a float is zero, of either sign.
pub open spec fn zero(f: F64Bits) -> bool {
    float_bits::mag(f) == 0
}

/// A float by its sign and magnitude.
pub open spec fn with_sign(negative: bool, m: int) -> F64Bits {
    F64Bits((m + if negative { 0x8000_0000_0000_0000int } else { 0 }) as u64)
}

/// One, as a multiple of the least positive float.
pub open spec fn unit() -> int {
    pow2(1074) as int
}

/// What the magnitude of a finite float stands for, as a multiple of the least
/// positive float.
pub open spec fn size(f: F64Bits) -> int {
    float_round::multiple(float_bits::mag(f))
}

/// What a finite float stands for, as a multiple of the least positive float.
pub open spec fn value(f: F64Bits) -> int {
    if float_bits::signed(f) {
        -size(f)
    } else {
        size(f)
    }
}

/// The other sign.
pub open spec fn negated(f: F64Bits) -> F64Bits {
    with_sign(!float_bits::signed(f), float_bits::mag(f))
}

/// `a * b`.
#[verifier::opaque]
pub open spec fn product(a: F64Bits, b: F64Bits) -> F64Bits {
    let negative = float_bits::signed(a) != float_bits::signed(b);
    if float_bits::nan(a) || float_bits::nan(b) || (infinite(a) && zero(b)) || (zero(a) && infinite(b)) {
        not_a_number()
    } else if infinite(a) || infinite(b) {
        with_sign(negative, INFINITE as int)
    } else {
        with_sign(negative, float_round::rounded(size(a) * size(b), unit()))
    }
}

/// `a / b`.
#[verifier::opaque]
pub open spec fn quotient(a: F64Bits, b: F64Bits) -> F64Bits {
    let negative = float_bits::signed(a) != float_bits::signed(b);
    if float_bits::nan(a) || float_bits::nan(b) || (infinite(a) && infinite(b)) || (zero(a) && zero(b)) {
        not_a_number()
    } else if infinite(a) || zero(b) {
        with_sign(negative, INFINITE as int)
    } else if infinite(b) {
        with_sign(negative, 0)
    } else {
        with_sign(negative, float_round::rounded(size(a) * unit(), size(b)))
    }
}

/// `a + b`. An exact zero is positive unless both are negative.
#[verifier::opaque]
pub open spec fn sum(a: F64Bits, b: F64Bits) -> F64Bits {
    let total = value(a) + value(b);
    if float_bits::nan(a) || float_bits::nan(b) || (infinite(a) && infinite(b) && a != b) {
        not_a_number()
    } else if infinite(a) {
        a
    } else if infinite(b) {
        b
    } else if total == 0 {
        with_sign(float_bits::signed(a) && float_bits::signed(b), 0)
    } else if total < 0 {
        with_sign(true, float_round::rounded(-total, 1))
    } else {
        with_sign(false, float_round::rounded(total, 1))
    }
}

/// `a - b`.
pub open spec fn difference(a: F64Bits, b: F64Bits) -> F64Bits {
    sum(a, negated(b))
}

/// The float nearest to a whole number.
#[verifier::opaque]
pub open spec fn of_integer(v: int) -> F64Bits {
    if v < 0 {
        with_sign(true, float_round::rounded(-v * unit(), 1))
    } else {
        with_sign(false, float_round::rounded(v * unit(), 1))
    }
}

/// The magnitude that a finite nonzero magnitude stands for, with 53 binary
/// digits: `significand * 2^(exponent - 64)`.
fn parts(m: u64) -> (r: (u64, u64))
    requires
        0 < m < INFINITE,
    ensures
        0x10_0000_0000_0000 <= r.0 < 0x20_0000_0000_0000,
        12 <= r.1 <= 2109,
        float_round::multiple(m as int) * pow2(64) == r.0 * pow2(r.1 as nat),
{
    if m >= 0x10_0000_0000_0000 {
        let t: u64 = m / 0x10_0000_0000_0000 - 1;
        let significand: u64 = m - t * 0x10_0000_0000_0000;
        proof {
            float_round::lemma_parts(m as int);
            lemma_pow2_adds(t as nat, 64);
            let p = pow2(t as nat) as int;
            let w = pow2(64) as int;
            assert((significand * p) * w == significand * (p * w)) by (nonlinear_arith);
        }
        return (significand, t + 64);
    }
    let mut x: u64 = m;
    let mut e: u64 = 64;
    let ghost j: nat = 0;
    proof {
        float_round::lemma_parts(m as int);
        float_round::lemma_powers();
        assert(m * 1 == m);
        assert(float_round::multiple(m as int) == m);
    }
    while x < 0x10_0000_0000_0000
        invariant
            0 < m < 0x10_0000_0000_0000,
            x < 0x20_0000_0000_0000,
            e == 64 - j,
            j <= 52,
            x >= pow2(j),
            float_round::multiple(m as int) * pow2(64) == x * pow2(e as nat),
        decreases e,
    {
        proof {
            float_round::lemma_powers();
            lemma_pow2_unfold(e as nat);
            lemma_pow2_unfold((j + 1) as nat);
            let p = pow2((e - 1) as nat) as int;
            assert((x * 2) * p == x * (2 * p)) by (nonlinear_arith);
            j = j + 1;
        }
        x = x * 2;
        e = e - 1;
    }
    (x, e)
}

/// The magnitude of a product.
fn multiply(a: u64, b: u64) -> (r: u64)
    requires
        0 < a < INFINITE,
        0 < b < INFINITE,
    ensures
        r <= INFINITE,
        r == float_round::rounded(
            float_round::multiple(a as int) * float_round::multiple(b as int),
            unit(),
        ),
{
    let (sa, ea) = parts(a);
    let (sb, eb) = parts(b);
    proof {
        assert(sa * sb < 0x20_0000_0000_0000 * 0x20_0000_0000_0000) by (nonlinear_arith)
            requires
                sa < 0x20_0000_0000_0000,
                sb < 0x20_0000_0000_0000,
        ;
        assert(sa * sb > 0) by (nonlinear_arith)
            requires
                sa > 0,
                sb > 0,
        ;
    }
    let q: u128 = sa as u128 * sb as u128;
    let s: u64 = ea + eb + 2894;
    let r: u64 = round_cut(q, false, s);
    proof {
        let ma = float_round::multiple(a as int);
        let mb = float_round::multiple(b as int);
        let n = ma * mb;
        let w = pow2(64) as int;
        let pa = pow2(ea as nat) as int;
        let pb = pow2(eb as nat) as int;
        let ps = pow2(s as nat) as int;
        let big = pow2(float_round::bias()) as int;
        lemma_pow2_pos(1074);
        lemma_pow2_pos(64);
        lemma_pow2_pos(s as nat);
        lemma_pow2_adds(64, 64);
        lemma_pow2_adds(128, 3968);
        lemma_pow2_adds(ea as nat, eb as nat);
        lemma_pow2_adds((ea + eb) as nat, 3968);
        lemma_pow2_adds(s as nat, 1074);
        let rest = pow2(3968) as int;
        assert(q * ps * unit() == n * big) by (nonlinear_arith)
            requires
                ma * w == sa * pa,
                mb * w == sb * pb,
                n == ma * mb,
                q == sa * sb,
                big == w * w * rest,
                ps * unit() == pa * pb * rest,
        {
            assert((ma * w) * (mb * w) == (sa * pa) * (sb * pb));
            assert((ma * w) * (mb * w) == n * (w * w));
            assert((sa * pa) * (sb * pb) == q * (pa * pb));
            assert(n * (w * w * rest) == (n * (w * w)) * rest);
            assert(q * (pa * pb * rest) == (q * (pa * pb)) * rest);
            assert(q * ps * unit() == q * (ps * unit()));
        }
        assert(n >= 0) by (nonlinear_arith)
            requires
                ma * w == sa * pa,
                mb * w == sb * pb,
                n == ma * mb,
                w > 0,
                ma >= 0,
                mb >= 0,
        ;
        assert((q + 1) * ps * unit() > q * ps * unit()) by (nonlinear_arith)
            requires
                ps > 0,
                unit() > 0,
        ;
        assert(float_round::cut(n, unit(), q as int, false, s as nat));
        float_round::lemma_rounded(n, unit(), r as int);
    }
    r
}

/// The magnitude of a quotient.
fn divide(a: u64, b: u64) -> (r: u64)
    requires
        0 < a < INFINITE,
        0 < b < INFINITE,
    ensures
        r <= INFINITE,
        r == float_round::rounded(
            float_round::multiple(a as int) * unit(),
            float_round::multiple(b as int),
        ),
{
    let (sa, ea) = parts(a);
    let (sb, eb) = parts(b);
    let wide: u128 = sa as u128 * 0x1_0000_0000_0000_0000;
    let q: u128 = wide / sb as u128;
    let rest: u128 = wide % sb as u128;
    proof {
        lemma_fundamental_div_mod(wide as int, sb as int);
        assert(q >= 0x40_0000_0000_0000) by (nonlinear_arith)
            requires
                wide == sb * q + rest,
                rest < sb,
                sb < 0x20_0000_0000_0000,
                wide >= 0x10_0000_0000_0000 * 0x1_0000_0000_0000_0000,
        ;
    }
    let s: u64 = ea + 5106 - eb;
    let sticky: bool = rest != 0;
    let r: u64 = round_cut(q, sticky, s);
    proof {
        let ma = float_round::multiple(a as int);
        let mb = float_round::multiple(b as int);
        let n = ma * unit();
        let w = pow2(64) as int;
        let pa = pow2(ea as nat) as int;
        let pb = pow2(eb as nat) as int;
        let ps = pow2(s as nat) as int;
        let big = pow2(float_round::bias()) as int;
        float_round::lemma_powers();
        float_round::lemma_multiple_steps(a as int);
        lemma_pow2_pos(1074);
        lemma_pow2_pos(s as nat);
        lemma_pow2_pos(eb as nat);
        lemma_pow2_adds(1074, float_round::bias());
        lemma_pow2_adds(s as nat, eb as nat);
        lemma_pow2_adds(ea as nat, 5106);
        lemma_pow2_adds(64, 5106);
        let up = pow2(5106) as int;
        assert(ps * pb == pa * up);
        assert(unit() * big == w * up);
        // Both sides, times 2^64.
        assert((n * big) * w == (sa * w) * (pa * up)) by (nonlinear_arith)
            requires
                ma * w == sa * pa,
                n == ma * unit(),
                unit() * big == w * up,
        {
            assert((n * big) * w == (ma * w) * (unit() * big));
            assert((sa * pa) * (w * up) == (sa * w) * (pa * up));
        }
        assert(forall|x: int| #[trigger] (x * ps * mb) * w == (x * sb) * (pa * up)) by (nonlinear_arith)
            requires
                mb * w == sb * pb,
                ps * pb == pa * up,
        {
            assert forall|x: int| #[trigger] (x * ps * mb) * w == (x * sb) * (pa * up) by {
                assert((x * ps * mb) * w == (x * ps) * (mb * w));
                assert((x * ps) * (sb * pb) == (x * sb) * (ps * pb));
            }
        }
        let scale = pa * up;
        lemma_pow2_pos(ea as nat);
        lemma_pow2_pos(5106);
        assert(scale > 0) by (nonlinear_arith)
            requires
                pa > 0,
                up > 0,
                scale == pa * up,
        ;
        assert(mb > 0) by (nonlinear_arith)
            requires
                mb * w == sb * pb,
                sb > 0,
                pb > 0,
                w > 0,
        ;
        let low = q * ps * mb;
        let high = (q + 1) * ps * mb;
        let exact = n * big;
        assert(low * w == (q * sb) * scale);
        assert(high * w == ((q + 1) * sb) * scale);
        assert(exact * w == wide * scale);
        assert((q + 1) * sb == q * sb + sb) by (nonlinear_arith);
        assert(q * sb == sb * q) by (nonlinear_arith);
        assert(low <= exact < high && (low == exact <==> !sticky)) by (nonlinear_arith)
            requires
                low * w == (q * sb) * scale,
                high * w == ((q + 1) * sb) * scale,
                exact * w == wide * scale,
                q * sb <= wide < (q + 1) * sb,
                (q * sb == wide) <==> !sticky,
                scale > 0,
                w > 0,
        ;
        assert(n >= 0) by (nonlinear_arith)
            requires
                n == ma * unit(),
                ma >= 0,
                unit() > 0,
        ;
        assert(float_round::cut(n, mb, q as int, sticky, s as nat));
        float_round::lemma_rounded(n, mb, r as int);
    }
    r
}

/// Two significands on one scale, the second with its rest cut off.
struct Aligned {
    first: u128,
    second: u128,
    rest: bool,
    scale: u64,
}

/// Whether two values are on one scale.
spec fn on_one_scale(sa: u64, ea: u64, sb: u64, eb: u64, r: Aligned) -> bool {
    let p = pow2(r.scale as nat) as int;
    let b = sb * pow2(eb as nat);
    &&& r.first * p == sa * pow2(ea as nat)
    &&& r.second * p <= b < (r.second + 1) * p
    &&& (r.second * p == b <==> !r.rest)
}

fn align(sa: u64, ea: u64, sb: u64, eb: u64) -> (r: Aligned)
    requires
        0x10_0000_0000_0000 <= sa < 0x20_0000_0000_0000,
        0x10_0000_0000_0000 <= sb < 0x20_0000_0000_0000,
        12 <= eb <= ea <= 2109,
    ensures
        on_one_scale(sa, ea, sb, eb, r),
        12 <= r.scale <= 2109,
        r.first <= 0x1f_ffff_ffff_ffff * 0x1_0000_0000_0000_0000,
        r.second < 0x20_0000_0000_0000,
        r.rest ==> r.first >= 0x10_0000_0000_0000 * 0x1_0000_0000_0000_0000,
{
    let diff: u64 = ea - eb;
    if diff <= 64 {
        let p: u128 = power_of_two(diff);
        proof {
            float_round::lemma_powers();
            if diff < 64 {
                lemma_pow2_strictly_increases(diff as nat, 64);
            }
            assert(sa * p <= 0x1f_ffff_ffff_ffff * 0x1_0000_0000_0000_0000) by (nonlinear_arith)
                requires
                    sa <= 0x1f_ffff_ffff_ffff,
                    p <= 0x1_0000_0000_0000_0000,
            ;
        }
        let first: u128 = sa as u128 * p;
        proof {
            lemma_pow2_adds(diff as nat, eb as nat);
            lemma_pow2_pos(eb as nat);
            let pe = pow2(eb as nat) as int;
            assert(first * pe == sa * (p * pe)) by (nonlinear_arith)
                requires
                    first == sa * p,
            ;
            assert((sb + 1) * pe > sb * pe) by (nonlinear_arith)
                requires
                    pe > 0,
            ;
        }
        return Aligned { first, second: sb as u128, rest: false, scale: eb };
    }
    let shift: u64 = diff - 64;
    let first: u128 = sa as u128 * 0x1_0000_0000_0000_0000;
    let scale: u64 = ea - 64;
    let ghost ps = pow2(shift as nat) as int;
    let ghost pe = pow2(eb as nat) as int;
    let ghost px = pow2(scale as nat) as int;
    proof {
        float_round::lemma_powers();
        lemma_pow2_adds(64, scale as nat);
        lemma_pow2_adds(shift as nat, eb as nat);
        lemma_pow2_pos(eb as nat);
        lemma_pow2_pos(shift as nat);
        assert(px == ps * pe);
        assert(first * px == sa * (0x1_0000_0000_0000_0000 * px)) by (nonlinear_arith)
            requires
                first == sa * 0x1_0000_0000_0000_0000,
        ;
    }
    if shift >= 53 {
        proof {
            if shift > 53 {
                lemma_pow2_strictly_increases(53, shift as nat);
            }
            assert(0 * px == 0 && 1 * px == px);
            assert(0 < sb * pe < px) by (nonlinear_arith)
                requires
                    px == ps * pe,
                    0 < sb < ps,
                    pe > 0,
            ;
        }
        return Aligned { first, second: 0, rest: true, scale };
    }
    let p: u128 = power_of_two(shift);
    let second: u128 = sb as u128 / p;
    let left: u128 = sb as u128 % p;
    proof {
        lemma_fundamental_div_mod(sb as int, p as int);
        assert(second < 0x20_0000_0000_0000) by (nonlinear_arith)
            requires
                sb == p * second + left,
                left >= 0,
                p > 0,
                sb < 0x20_0000_0000_0000,
        ;
        assert(second * px <= sb * pe < (second + 1) * px && (second * px == sb * pe <==> left == 0))
            by (nonlinear_arith)
            requires
                sb == ps * second + left,
                0 <= left < ps,
                px == ps * pe,
                pe > 0,
        {
            assert(sb * pe == second * (ps * pe) + left * pe);
            assert((second + 1) * px == second * (ps * pe) + ps * pe);
            assert(left * pe < ps * pe);
            assert(left > 0 ==> left * pe > 0);
        }
    }
    Aligned { first, second, rest: left != 0, scale }
}

/// A larger magnitude has no smaller exponent.
proof fn lemma_exponents_ordered(a: int, b: int, sa: int, ea: nat, sb: int, eb: nat)
    requires
        0 < b <= a,
        0 <= sa < 0x20_0000_0000_0000,
        0x10_0000_0000_0000 <= sb,
        float_round::multiple(a) * pow2(64) == sa * pow2(ea),
        float_round::multiple(b) * pow2(64) == sb * pow2(eb),
    ensures
        ea >= eb,
{
    if b < a {
        float_round::lemma_multiple_ascends(b, a);
    }
    float_round::lemma_powers();
    let w = pow2(64) as int;
    assert(sb * pow2(eb) <= sa * pow2(ea)) by (nonlinear_arith)
        requires
            float_round::multiple(b) <= float_round::multiple(a),
            w > 0,
            float_round::multiple(a) * w == sa * pow2(ea),
            float_round::multiple(b) * w == sb * pow2(eb),
    ;
    if ea < eb {
        lemma_pow2_unfold((ea + 1) as nat);
        if ea + 1 < eb {
            lemma_pow2_strictly_increases((ea + 1) as nat, eb);
        }
        lemma_pow2_pos(ea);
        let pa = pow2(ea) as int;
        let pb = pow2(eb) as int;
        assert(sa * pa < sb * pb) by (nonlinear_arith)
            requires
                0 <= sa < 0x20_0000_0000_0000,
                0x10_0000_0000_0000 <= sb,
                2 * pa <= pb,
                pa > 0,
        {
            assert(sa * pa < 0x20_0000_0000_0000 * pa);
            assert(sb * pb >= 0x10_0000_0000_0000 * pb);
        }
    }
}

/// From values on the scale of exponents to the scale of magnitudes.
proof fn lemma_rescaled(n: int, q: int, sticky: bool, x: nat, exact: int)
    requires
        n * pow2(64) == exact,
        q * pow2(x) <= exact < (q + 1) * pow2(x),
        q * pow2(x) == exact <==> !sticky,
    ensures
        float_round::cut(n, 1, q, sticky, (x + 4032) as nat),
{
    let p = pow2(x) as int;
    let up = pow2(4032) as int;
    let w = pow2(64) as int;
    lemma_pow2_adds(x, 4032);
    lemma_pow2_adds(64, 4032);
    lemma_pow2_pos(4032);
    let ps = pow2((x + 4032) as nat) as int;
    let big = pow2(float_round::bias()) as int;
    assert(n * big == exact * up) by (nonlinear_arith)
        requires
            n * w == exact,
            big == w * up,
    ;
    assert(q * ps * 1 == (q * p) * up) by (nonlinear_arith)
        requires
            ps == p * up,
    ;
    assert((q + 1) * ps * 1 == ((q + 1) * p) * up) by (nonlinear_arith)
        requires
            ps == p * up,
    ;
    let low = q * p;
    let high = (q + 1) * p;
    assert(low * up <= exact * up < high * up && (low * up == exact * up <==> low == exact))
        by (nonlinear_arith)
        requires
            low <= exact < high,
            up > 0,
    ;
}

/// The magnitude of a sum of two magnitudes, the larger one first.
fn add_sizes(a: u64, b: u64) -> (r: u64)
    requires
        0 < b <= a < INFINITE,
    ensures
        r <= INFINITE,
        r == float_round::rounded(float_round::multiple(a as int) + float_round::multiple(b as int), 1),
{
    let (sa, ea) = parts(a);
    let (sb, eb) = parts(b);
    proof {
        lemma_exponents_ordered(a as int, b as int, sa as int, ea as nat, sb as int, eb as nat);
    }
    let al: Aligned = align(sa, ea, sb, eb);
    proof {
        lemma_pow2_pos(al.scale as nat);
        lemma_pow2_pos(ea as nat);
        assert(al.first > 0) by (nonlinear_arith)
            requires
                al.first * pow2(al.scale as nat) == sa * pow2(ea as nat),
                sa > 0,
                pow2(ea as nat) > 0,
        ;
    }
    let q: u128 = al.first + al.second;
    let s: u64 = al.scale + 4032;
    let r: u64 = round_cut(q, al.rest, s);
    proof {
        let ma = float_round::multiple(a as int);
        let mb = float_round::multiple(b as int);
        let w = pow2(64) as int;
        let p = pow2(al.scale as nat) as int;
        float_round::lemma_multiple_steps(a as int);
        float_round::lemma_multiple_steps(b as int);
        let n = ma + mb;
        let exact = sa * pow2(ea as nat) + sb * pow2(eb as nat);
        assert(n * w == ma * w + mb * w) by (nonlinear_arith)
            requires
                n == ma + mb,
        ;
        assert(q * p == al.first * p + al.second * p) by (nonlinear_arith)
            requires
                q == al.first + al.second,
        ;
        assert((q + 1) * p == al.first * p + (al.second + 1) * p) by (nonlinear_arith)
            requires
                q == al.first + al.second,
        ;
        lemma_rescaled(n, q as int, al.rest, al.scale as nat, exact);
        float_round::lemma_rounded(n, 1, r as int);
    }
    r
}

/// The magnitude of a difference of two magnitudes, the larger one first.
fn subtract_sizes(a: u64, b: u64) -> (r: u64)
    requires
        0 < b < a < INFINITE,
    ensures
        r <= INFINITE,
        r == float_round::rounded(float_round::multiple(a as int) - float_round::multiple(b as int), 1),
{
    let (sa, ea) = parts(a);
    let (sb, eb) = parts(b);
    proof {
        lemma_exponents_ordered(a as int, b as int, sa as int, ea as nat, sb as int, eb as nat);
    }
    let al: Aligned = align(sa, ea, sb, eb);
    let ghost ma = float_round::multiple(a as int);
    let ghost mb = float_round::multiple(b as int);
    let ghost n = ma - mb;
    let ghost exact = sa * pow2(ea as nat) - sb * pow2(eb as nat);
    let ghost p = pow2(al.scale as nat) as int;
    proof {
        let w = pow2(64) as int;
        lemma_pow2_pos(64);
        lemma_pow2_pos(al.scale as nat);
        float_round::lemma_multiple_ascends(b as int, a as int);
        assert(n * w == ma * w - mb * w) by (nonlinear_arith)
            requires
                n == ma - mb,
        ;
        assert(n * w > 0) by (nonlinear_arith)
            requires
                n > 0,
                w > 0,
        ;
        assert(al.first > al.second) by (nonlinear_arith)
            requires
                al.first * p == sa * pow2(ea as nat),
                al.second * p <= sb * pow2(eb as nat),
                sa * pow2(ea as nat) - sb * pow2(eb as nat) > 0,
                p > 0,
        ;
    }
    let q: u128 = if al.rest {
        al.first - al.second - 1
    } else {
        al.first - al.second
    };
    let s: u64 = al.scale + 4032;
    let r: u64 = round_cut(q, al.rest, s);
    proof {
        assert((al.first - al.second) * p == al.first * p - al.second * p) by (nonlinear_arith);
        assert((al.first - al.second - 1) * p == al.first * p - (al.second + 1) * p) by (nonlinear_arith);
        assert((al.first - al.second + 1) * p == al.first * p - al.second * p + p) by (nonlinear_arith);
        lemma_rescaled(n, q as int, al.rest, al.scale as nat, exact);
        float_round::lemma_rounded(n, 1, r as int);
    }
    r
}

pub proof fn lemma_small_multiples()
    ensures
        float_round::multiple(0) == 0,
        float_round::multiple(1) == 1,
{
    float_round::lemma_powers();
    float_round::lemma_multiple(0, 0);
    float_round::lemma_multiple(0, 1);
}

/// Nothing rounds to nothing.
pub proof fn lemma_rounded_nothing(d: int)
    requires
        d > 0,
    ensures
        float_round::rounded(0, d) == 0,
{
    lemma_small_multiples();
    let least = float_round::multiple(0) + float_round::multiple(1);
    assert(least * d == d) by (nonlinear_arith)
        requires
            least == 1,
    ;
    float_round::lemma_rounded(0, d, 0);
}

/// What is representable stays as it is.
pub proof fn lemma_rounded_exact(m: int)
    requires
        0 <= m < INFINITE,
    ensures
        float_round::rounded(float_round::multiple(m), 1) == m,
{
    float_round::lemma_multiple_steps(m);
    if m > 0 {
        float_round::lemma_multiple_steps(m - 1);
    }
    float_round::lemma_rounded(float_round::multiple(m), 1, m);
}

fn signed_float(negative: bool, m: u64) -> (r: F64Bits)
    requires
        m <= INFINITE,
    ensures
        r == with_sign(negative, m as int),
{
    if negative {
        F64Bits(m + 0x8000_0000_0000_0000)
    } else {
        F64Bits(m)
    }
}

impl F64Bits {
    fn is_signed(self) -> (r: bool)
        ensures
            r == float_bits::signed(self),
    {
        self.0 >= 0x8000_0000_0000_0000
    }

    /// The other sign.
    pub fn opposite(self) -> (r: F64Bits)
        ensures
            r == negated(self),
    {
        if self.0 >= 0x8000_0000_0000_0000 {
            F64Bits(self.0 - 0x8000_0000_0000_0000)
        } else {
            F64Bits(self.0 + 0x8000_0000_0000_0000)
        }
    }

    /// The float nearest to a whole number.
    pub fn of(v: i128) -> (r: F64Bits)
        ensures
            r == of_integer(v as int),
    {
        proof {
            reveal(of_integer);
        }
        if v == 0 {
            proof {
                assert(0 * unit() == 0);
                lemma_rounded_nothing(1);
            }
            return F64Bits(0);
        }
        let q: u128 = unsigned_magnitude(v);
        let m: u64 = round_cut(q, false, 5170);
        proof {
            let n = q * unit();
            lemma_pow2_adds(1074, float_round::bias());
            lemma_pow2_pos(1074);
            lemma_pow2_pos(5170);
            let big = pow2(float_round::bias()) as int;
            let ps = pow2(5170) as int;
            assert(n * big == q * ps * 1) by (nonlinear_arith)
                requires
                    n == q * unit(),
                    ps == unit() * big,
            ;
            assert((q + 1) * ps * 1 > q * ps * 1) by (nonlinear_arith)
                requires
                    ps > 0,
            ;
            assert(n >= 0) by (nonlinear_arith)
                requires
                    n == q * unit(),
                    q >= 0,
                    unit() > 0,
            ;
            assert(float_round::cut(n, 1, q as int, false, 5170));
            float_round::lemma_rounded(n, 1, m as int);
        }
        signed_float(v < 0, m)
    }

    /// `self * other`.
    pub fn times(self, other: F64Bits) -> (r: F64Bits)
        ensures
            r == product(self, other),
    {
        proof {
            reveal(product);
        }
        let a: u64 = self.abs().0;
        let b: u64 = other.abs().0;
        let negative: bool = self.is_signed() != other.is_signed();
        if self.is_nan() || other.is_nan() || (a == INFINITE && b == 0) || (a == 0 && b == INFINITE) {
            return F64Bits(NOT_A_NUMBER);
        }
        if a == INFINITE || b == INFINITE {
            return signed_float(negative, INFINITE);
        }
        if a == 0 || b == 0 {
            proof {
                lemma_small_multiples();
                lemma_pow2_pos(1074);
                lemma_rounded_nothing(unit());
                assert(0 * size(other) == 0 && size(self) * 0 == 0);
            }
            return signed_float(negative, 0);
        }
        signed_float(negative, multiply(a, b))
    }

    /// `self / other`.
    pub fn over(self, other: F64Bits) -> (r: F64Bits)
        ensures
            r == quotient(self, other),
    {
        proof {
            reveal(quotient);
        }
        let a: u64 = self.abs().0;
        let b: u64 = other.abs().0;
        let negative: bool = self.is_signed() != other.is_signed();
        if self.is_nan() || other.is_nan() || (a == INFINITE && b == INFINITE) || (a == 0 && b == 0) {
            return F64Bits(NOT_A_NUMBER);
        }
        if a == INFINITE || b == 0 {
            return signed_float(negative, INFINITE);
        }
        if b == INFINITE {
            return signed_float(negative, 0);
        }
        if a == 0 {
            proof {
                lemma_small_multiples();
                float_round::lemma_multiple_ascends(0, b as int);
                lemma_rounded_nothing(size(other));
                assert(0 * unit() == 0);
            }
            return signed_float(negative, 0);
        }
        signed_float(negative, divide(a, b))
    }

    /// `self + other`.
    pub fn plus(self, other: F64Bits) -> (r: F64Bits)
        ensures
            r == sum(self, other),
    {
        proof {
            reveal(sum);
        }
        let a: u64 = self.abs().0;
        let b: u64 = other.abs().0;
        if self.is_nan() || other.is_nan() || (a == INFINITE && b == INFINITE && self.0 != other.0) {
            return F64Bits(NOT_A_NUMBER);
        }
        if a == INFINITE {
            return self;
        }
        if b == INFINITE {
            return other;
        }
        proof {
            lemma_small_multiples();
            lemma_rounded_exact(a as int);
            lemma_rounded_exact(b as int);
            if a > 0 {
                float_round::lemma_multiple_ascends(0, a as int);
            }
            if b > 0 {
                float_round::lemma_multiple_ascends(0, b as int);
            }
            if a < b {
                float_round::lemma_multiple_ascends(a as int, b as int);
            }
            if b < a {
                float_round::lemma_multiple_ascends(b as int, a as int);
            }
        }
        if a == 0 && b == 0 {
            return signed_float(self.is_signed() && other.is_signed(), 0);
        }
        if a == 0 {
            return other;
        }
        if b == 0 {
            return self;
        }
        let negative: bool = self.is_signed();
        if negative == other.is_signed() {
            let m: u64 = if a >= b {
                add_sizes(a, b)
            } else {
                add_sizes(b, a)
            };
            return signed_float(negative, m);
        }
        if a == b {
            return F64Bits(0);
        }
        if a > b {
            signed_float(negative, subtract_sizes(a, b))
        } else {
            signed_float(!negative, subtract_sizes(b, a))
        }
    }

    /// `self - other`.
    pub fn minus(self, other: F64Bits) -> (r: F64Bits)
        ensures
            r == difference(self, other),
    {
        self.plus(other.opposite())
    }
}

/// The whole part of a finite float's magnitude.
pub open spec fn whole(f: F64Bits) -> int {
    size(f) / unit()
}

/// What the whole part leaves, as a multiple of the least positive float.
pub open spec fn fraction(f: F64Bits) -> int {
    size(f) % unit()
}

/// How a fraction compares with one half.
#[derive(Clone, Copy, PartialEq, Eq, Structural)]
enum Part {
    Nothing,
    BelowHalf,
    Half,
    AboveHalf,
}

/// A magnitude below `2^128` by its whole part and its fraction.
struct Split {
    whole: u128,
    part: Part,
}

spec fn part_of(rest: int, one: int) -> Part {
    if rest == 0 {
        Part::Nothing
    } else if 2 * rest < one {
        Part::BelowHalf
    } else if 2 * rest == one {
        Part::Half
    } else {
        Part::AboveHalf
    }
}

fn compare_part(rest: u128, one: u128) -> (r: Part)
    requires
        rest < one,
    ensures
        r == part_of(rest as int, one as int),
{
    if rest == 0 {
        Part::Nothing
    } else if rest < one - rest {
        Part::BelowHalf
    } else if rest == one - rest {
        Part::Half
    } else {
        Part::AboveHalf
    }
}

proof fn lemma_part_scales(rest: int, one: int, p: int)
    requires
        p > 0,
    ensures
        part_of(rest * p, one * p) == part_of(rest, one),
{
    assert((rest * p == 0 <==> rest == 0) && (2 * (rest * p) < one * p <==> 2 * rest < one) && (2 * (rest
        * p) == one * p <==> 2 * rest == one)) by (nonlinear_arith)
        requires
            p > 0,
    ;
}

/// Magnitude bits of `2^128`.
pub const TWO_TO_128: u64 = 0x47f0_0000_0000_0000;

fn split(m: u64) -> (r: Split)
    requires
        m < TWO_TO_128,
    ensures
        r.whole == float_round::multiple(m as int) / unit(),
        r.part == part_of(float_round::multiple(m as int) % unit(), unit()),
        r.part != Part::Nothing ==> r.whole < 0x20_0000_0000_0000,
{
    let t: u64 = if m < 0x10_0000_0000_0000 {
        0
    } else {
        m / 0x10_0000_0000_0000 - 1
    };
    let significand: u64 = m - t * 0x10_0000_0000_0000;
    let ghost size = float_round::multiple(m as int);
    let ghost pt = pow2(t as nat) as int;
    proof {
        float_round::lemma_parts(m as int);
        float_round::lemma_powers();
        lemma_pow2_pos(t as nat);
        lemma_pow2_pos(1074);
    }
    if t >= 1074 {
        let p: u128 = power_of_two(t - 1074);
        proof {
            lemma_pow2_adds((t - 1074) as nat, 1074);
            if t < 1149 {
                lemma_pow2_strictly_increases((t - 1074) as nat, 75);
            }
            lemma_pow2_adds(64, 11);
            vstd::arithmetic::power2::lemma2_to64();
            assert(p <= 0x800_0000_0000_0000_0000);
            assert(significand * p <= 0x1f_ffff_ffff_ffff * 0x800_0000_0000_0000_0000) by (nonlinear_arith)
                requires
                    significand <= 0x1f_ffff_ffff_ffff,
                    p <= 0x800_0000_0000_0000_0000,
            ;
        }
        let whole: u128 = significand as u128 * p;
        proof {
            assert(size == whole * unit() + 0) by (nonlinear_arith)
                requires
                    size == significand * pt,
                    pt == p * unit(),
                    whole == significand * p,
            ;
            lemma_fundamental_div_mod_converse(size, unit(), whole as int, 0);
        }
        return Split { whole, part: Part::Nothing };
    }
    let shift: u64 = 1074 - t;
    proof {
        lemma_pow2_adds(shift as nat, t as nat);
        lemma_pow2_pos(shift as nat);
    }
    if shift >= 128 {
        proof {
            if shift > 128 {
                lemma_pow2_strictly_increases(128, shift as nat);
            }
            let one = pow2(shift as nat) as int;
            lemma_part_scales(significand as int, one, pt);
            assert(one * pt == unit());
            assert(0 <= size < unit()) by (nonlinear_arith)
                requires
                    size == significand * pt,
                    one * pt == unit(),
                    0 <= significand < one,
                    pt > 0,
            ;
            lemma_fundamental_div_mod_converse(size, unit(), 0, size);
        }
        return Split {
            whole: 0,
            part: if significand == 0 {
                Part::Nothing
            } else {
                Part::BelowHalf
            },
        };
    }
    let one: u128 = power_of_two(shift);
    let whole: u128 = significand as u128 / one;
    let rest: u128 = significand as u128 % one;
    proof {
        lemma_fundamental_div_mod(significand as int, one as int);
        lemma_part_scales(rest as int, one as int, pt);
        assert(one * pt == unit());
        assert(size == whole * unit() + rest * pt && 0 <= rest * pt < unit()) by (nonlinear_arith)
            requires
                size == significand * pt,
                significand == one * whole + rest,
                one * pt == unit(),
                0 <= rest < one,
                pt > 0,
        {
            assert((one * whole) * pt == whole * (one * pt));
            assert(rest * pt < one * pt);
        }
        lemma_fundamental_div_mod_converse(size, unit(), whole as int, rest * pt);
        assert(whole < 0x20_0000_0000_0000) by (nonlinear_arith)
            requires
                significand == one * whole + rest,
                0 <= rest,
                one > 0,
                significand < 0x20_0000_0000_0000,
        ;
    }
    Split { whole, part: compare_part(rest, one) }
}

/// The whole part with its sign.
pub open spec fn truncation(f: F64Bits) -> int {
    if float_bits::signed(f) {
        -whole(f)
    } else {
        whole(f)
    }
}

/// The nearest whole number, half rounded away from zero.
pub open spec fn nearest_integer(f: F64Bits) -> int {
    let up = if 2 * fraction(f) >= unit() {
        1int
    } else {
        0
    };
    if float_bits::signed(f) {
        -(whole(f) + up)
    } else {
        whole(f) + up
    }
}

/// The greatest whole number that is not above.
pub open spec fn floor_integer(f: F64Bits) -> int {
    if !float_bits::signed(f) {
        whole(f)
    } else if fraction(f) > 0 {
        -whole(f) - 1
    } else {
        -whole(f)
    }
}

/// The least whole number that is not below.
pub open spec fn ceil_integer(f: F64Bits) -> int {
    if float_bits::signed(f) {
        -whole(f)
    } else if fraction(f) > 0 {
        whole(f) + 1
    } else {
        whole(f)
    }
}

/// A number within bounds.
pub open spec fn bounded(v: int, least: int, greatest: int) -> int {
    if v < least {
        least
    } else if v > greatest {
        greatest
    } else {
        v
    }
}

/// A float that was made whole, within the range of an integer type: what is
/// not a number gives zero, and infinity the end of the range.
pub open spec fn saturated(f: F64Bits, made_whole: int, least: int, greatest: int) -> int {
    if float_bits::nan(f) {
        0
    } else if infinite(f) {
        if float_bits::signed(f) {
            least
        } else {
            greatest
        }
    } else {
        bounded(made_whole, least, greatest)
    }
}

/// From `2^128` on, floats are at least that large.
proof fn lemma_large(f: F64Bits)
    requires
        float_bits::mag(f) >= TWO_TO_128,
    ensures
        whole(f) >= 0x1_0000_0000_0000_0000_0000_0000_0000_0000,
{
    let m = float_bits::mag(f);
    float_round::lemma_powers();
    float_round::lemma_multiple(1150, 0x10_0000_0000_0000);
    lemma_pow2_adds(52, 1150);
    lemma_pow2_adds(128, 1074);
    lemma_pow2_pos(1074);
    if m > TWO_TO_128 {
        float_round::lemma_multiple_ascends(TWO_TO_128 as int, m);
    }
    lemma_fundamental_div_mod(size(f), unit());
    let q = whole(f);
    assert(q >= 0x1_0000_0000_0000_0000_0000_0000_0000_0000) by (nonlinear_arith)
        requires
            size(f) == unit() * q + size(f) % unit(),
            size(f) % unit() < unit(),
            size(f) >= 0x1_0000_0000_0000_0000_0000_0000_0000_0000 * unit(),
            unit() > 0,
    ;
}

/// A magnitude with a sign, within the range of the type.
fn capped(negative: bool, magnitude: u128) -> (r: i128)
    ensures
        r == bounded(
            if negative {
                -magnitude
            } else {
                magnitude as int
            },
            i128::MIN as int,
            i128::MAX as int,
        ),
{
    if negative {
        if magnitude >= 0x8000_0000_0000_0000_0000_0000_0000_0000 {
            i128::MIN
        } else {
            -(magnitude as i128)
        }
    } else if magnitude > 0x7fff_ffff_ffff_ffff_ffff_ffff_ffff_ffff {
        i128::MAX
    } else {
        magnitude as i128
    }
}

impl F64Bits {
    /// What becomes of a float that is not below `2^128` in magnitude.
    fn saturate(self) -> (r: i128)
        requires
            float_bits::mag(self) >= TWO_TO_128,
        ensures
            r == saturated(self, truncation(self), i128::MIN as int, i128::MAX as int),
            r == saturated(self, nearest_integer(self), i128::MIN as int, i128::MAX as int),
            r == saturated(self, floor_integer(self), i128::MIN as int, i128::MAX as int),
            r == saturated(self, ceil_integer(self), i128::MIN as int, i128::MAX as int),
    {
        proof {
            lemma_large(self);
        }
        if self.is_nan() {
            0
        } else if self.is_signed() {
            i128::MIN
        } else {
            i128::MAX
        }
    }

    /// As an integer, its fraction cut off.
    pub fn truncated(self) -> (r: i128)
        ensures
            r == saturated(self, truncation(self), i128::MIN as int, i128::MAX as int),
    {
        let m: u64 = self.abs().0;
        if m >= TWO_TO_128 {
            return self.saturate();
        }
        capped(self.is_signed(), split(m).whole)
    }

    /// The nearest integer, half rounded away from zero.
    pub fn rounded_integer(self) -> (r: i128)
        ensures
            r == saturated(self, nearest_integer(self), i128::MIN as int, i128::MAX as int),
    {
        let m: u64 = self.abs().0;
        if m >= TWO_TO_128 {
            return self.saturate();
        }
        let parts: Split = split(m);
        let magnitude: u128 = match parts.part {
            Part::Half => parts.whole + 1,
            Part::AboveHalf => parts.whole + 1,
            _ => parts.whole,
        };
        proof {
            lemma_pow2_pos(1074);
        }
        capped(self.is_signed(), magnitude)
    }

    /// The greatest integer that is not above.
    pub fn floored(self) -> (r: i128)
        ensures
            r == saturated(self, floor_integer(self), i128::MIN as int, i128::MAX as int),
    {
        let m: u64 = self.abs().0;
        if m >= TWO_TO_128 {
            return self.saturate();
        }
        let parts: Split = split(m);
        proof {
            lemma_pow2_pos(1074);
            lemma_fundamental_div_mod(size(self), unit());
        }
        let magnitude: u128 = if self.is_signed() && parts.part != Part::Nothing {
            parts.whole + 1
        } else {
            parts.whole
        };
        capped(self.is_signed(), magnitude)
    }

    /// The least integer that is not below.
    pub fn raised(self) -> (r: i128)
        ensures
            r == saturated(self, ceil_integer(self), i128::MIN as int, i128::MAX as int),
    {
        let m: u64 = self.abs().0;
        if m >= TWO_TO_128 {
            return self.saturate();
        }
        let parts: Split = split(m);
        proof {
            lemma_pow2_pos(1074);
            lemma_fundamental_div_mod(size(self), unit());
        }
        let magnitude: u128 = if !self.is_signed() && parts.part != Part::Nothing {
            parts.whole + 1
        } else {
            parts.whole
        };
        capped(self.is_signed(), magnitude)
    }

    /// As a 64-bit count, its fraction cut off.
    pub fn to_long_count(self) -> (r: u64)
        ensures
            r == saturated(self, truncation(self), 0, u64::MAX as int),
    {
        let v: i128 = self.truncated();
        if v < 0 {
            0
        } else if v > u64::MAX as i128 {
            u64::MAX
        } else {
            v as u64
        }
    }

    /// As a 32-bit count, its fraction cut off.
    pub fn to_count(self) -> (r: u32)
        ensures
            r == saturated(self, truncation(self), 0, u32::MAX as int),
    {
        let v: i128 = self.truncated();
        if v < 0 {
            0
        } else if v > u32::MAX as i128 {
            u32::MAX
        } else {
            v as u32
        }
    }
}

/// The square root of a float.
#[verifier::opaque]
pub open spec fn root(f: F64Bits) -> F64Bits {
    if float_bits::nan(f) || (float_bits::signed(f) && !zero(f)) {
        not_a_number()
    } else if zero(f) || infinite(f) {
        f
    } else {
        with_sign(false, float_round::rooted(size(f) * unit()))
    }
}

/// The whole part of a square root.
fn integer_root(x: u128) -> (r: u128)
    requires
        x < 0x40_0000_0000_0000 * 0x100_0000_0000_0000,
    ensures
        r * r <= x < (r + 1) * (r + 1),
        r < 0x80_0000_0000_0000,
{
    let mut r: u128 = 0;
    let mut step: u128 = 0x80_0000_0000_0000;
    proof {
        vstd::arithmetic::power2::lemma2_to64_rest();
        assert(pow2(55) == step);
    }
    while step > 1
        invariant
            r * r <= x < (r + step) * (r + step),
            r + step <= 0x80_0000_0000_0000,
            step >= 1,
            step > 1 ==> step % 2 == 0,
            exists|k: nat| #[trigger] pow2(k) == step,
        decreases step,
    {
        let half: u128 = step / 2;
        let c: u128 = r + half;
        proof {
            let k = choose|k: nat| #[trigger] pow2(k) == step;
            float_round::lemma_powers();
            if k == 0 {
                assert(false);
            }
            lemma_pow2_unfold(k);
            assert(half == pow2((k - 1) as nat));
            if k > 1 {
                lemma_pow2_unfold((k - 1) as nat);
            }
            assert(c * c < 0x80_0000_0000_0000 * 0x80_0000_0000_0000) by (nonlinear_arith)
                requires
                    c < 0x80_0000_0000_0000,
            ;
        }
        if c * c <= x {
            r = c;
        }
        step = half;
    }
    r
}

impl F64Bits {
    /// The square root.
    pub fn square_root(self) -> (r: F64Bits)
        ensures
            r == root(self),
    {
        proof {
            reveal(root);
        }
        let m: u64 = self.abs().0;
        if self.is_nan() || (self.is_signed() && m != 0) {
            return F64Bits(NOT_A_NUMBER);
        }
        if m == 0 || m == INFINITE {
            return self;
        }
        let (significand, e) = parts(m);
        let (x, g): (u128, u64) = if e % 2 == 0 {
            (significand as u128 * 0x100_0000_0000_0000, (e + 954) / 2)
        } else {
            (significand as u128 * 0x200_0000_0000_0000, (e + 953) / 2)
        };
        let q: u128 = integer_root(x);
        proof {
            assert(q >= 0x40_0000_0000_0000) by (nonlinear_arith)
                requires
                    x < (q + 1) * (q + 1),
                    x >= 0x10_0000_0000_0000 * 0x100_0000_0000_0000,
            ;
            assert(q * q <= x);
            assert(q * q < 0x80_0000_0000_0000 * 0x80_0000_0000_0000) by (nonlinear_arith)
                requires
                    q < 0x80_0000_0000_0000,
            ;
        }
        let sticky: bool = q * q != x;
        let s: u64 = g + 4096;
        let r: u64 = round_root_cut(q, sticky, s);
        proof {
            let n = size(self) * unit();
            let pg = pow2(g as nat) as int;
            let pb = pow2(float_round::bias()) as int;
            let ps = pow2(s as nat) as int;
            float_round::lemma_powers();
            lemma_pow2_pos(g as nat);
            lemma_pow2_pos(float_round::bias());
            lemma_pow2_adds(g as nat, float_round::bias());
            lemma_pow2_adds(g as nat, g as nat);
            lemma_root_operand(self, significand as int, e as nat, x as int, g as nat);
            assert(n == x * (pg * pg));
            let low = q * ps;
            let high = (q + 1) * ps;
            let exact = n * (pb * pb);
            let scale = (pg * pb) * (pg * pb);
            assert(scale > 0) by (nonlinear_arith)
                requires
                    pg > 0,
                    pb > 0,
                    scale == (pg * pb) * (pg * pb),
            {
                assert(pg * pb > 0);
            }
            assert(low * low == (q * q) * scale && high * high == ((q + 1) * (q + 1)) * scale && exact == x
                * scale) by (nonlinear_arith)
                requires
                    low == q * ps,
                    high == (q + 1) * ps,
                    exact == n * (pb * pb),
                    n == x * (pg * pg),
                    ps == pg * pb,
                    scale == (pg * pb) * (pg * pb),
            {
                assert(low * low == (q * q) * (ps * ps));
                assert(high * high == ((q + 1) * (q + 1)) * (ps * ps));
                assert((x * (pg * pg)) * (pb * pb) == x * ((pg * pb) * (pg * pb)));
            }
            let qq = q * q;
            let qn = (q + 1) * (q + 1);
            assert(qq * scale <= x * scale < qn * scale && (qq * scale == x * scale <==> qq == x))
                by (nonlinear_arith)
                requires
                    qq <= x < qn,
                    scale > 0,
            ;
            assert(n >= 0) by (nonlinear_arith)
                requires
                    n == x * (pg * pg),
                    x >= 0,
            {
                assert(pg * pg >= 0);
            }
            assert(float_round::cut_root(n, q as int, sticky, s as nat));
            float_round::lemma_rooted(n, r as int);
        }
        signed_float(false, r)
    }
}

/// The operand of a root as a whole number times an even power of two.
proof fn lemma_root_operand(f: F64Bits, significand: int, e: nat, x: int, g: nat)
    requires
        12 <= e <= 2109,
        size(f) * pow2(64) == significand * pow2(e),
        e % 2 == 0 ==> x == significand * 0x100_0000_0000_0000 && 2 * g == e + 954,
        e % 2 == 1 ==> x == significand * 0x200_0000_0000_0000 && 2 * g == e + 953,
    ensures
        size(f) * unit() == x * (pow2(g) * pow2(g)),
{
    let w = pow2(64) as int;
    let pe = pow2(e) as int;
    let j: nat = if e % 2 == 0 {
        56
    } else {
        57
    };
    let gg = pow2((2 * g) as nat) as int;
    vstd::arithmetic::power2::lemma2_to64_rest();
    lemma_pow2_adds(g, g);
    lemma_pow2_adds(e, 1074);
    lemma_pow2_adds(j, (2 * g) as nat);
    lemma_pow2_adds(64, (j + 2 * g) as nat);
    lemma_pow2_pos(64);
    let pj = pow2(j) as int;
    assert(x == significand * pj);
    assert(pe * unit() == w * (pj * gg));
    let n = size(f) * unit();
    assert(n == x * gg) by (nonlinear_arith)
        requires
            size(f) * w == significand * pe,
            n == size(f) * unit(),
            pe * unit() == w * (pj * gg),
            x == significand * pj,
            w > 0,
    {
        assert(n * w == (significand * pe) * unit());
        assert((significand * pe) * unit() == significand * (pe * unit()));
        assert(significand * (w * (pj * gg)) == (x * gg) * w);
    }
}

/// Whole part and fraction of a magnitude are not negative.
pub proof fn lemma_whole_parts(f: F64Bits)
    ensures
        0 <= whole(f),
        0 <= fraction(f) < unit(),
        zero(f) ==> whole(f) == 0 && fraction(f) == 0,
{
    let m = float_bits::mag(f);
    lemma_pow2_pos(1074);
    lemma_small_multiples();
    if m > 0 {
        float_round::lemma_multiple_ascends(0, m);
    }
    lemma_fundamental_div_mod(size(f), unit());
    let q = whole(f);
    assert(0 <= q) by (nonlinear_arith)
        requires
            size(f) == unit() * q + size(f) % unit(),
            size(f) % unit() < unit(),
            size(f) >= 0,
            unit() > 0,
    ;
    if m == 0 {
        lemma_fundamental_div_mod_converse(0, unit(), 0, 0);
    }
}

/// A float made of a sign and a magnitude has that sign and that magnitude.
proof fn lemma_with_sign(negative: bool, m: int)
    requires
        0 <= m <= INFINITE,
    ensures
        float_bits::signed(with_sign(negative, m)) == negative,
        float_bits::mag(with_sign(negative, m)) == m,
{
}

/// The sign and the size of a whole number as a float.
pub proof fn lemma_of_integer(v: int)
    requires
        -0x1_0000_0000_0000_0000_0000_0000_0000_0000 <= v <= 0x1_0000_0000_0000_0000_0000_0000_0000_0000,
    ensures
        float_bits::finite(of_integer(v)),
        float_bits::signed(of_integer(v)) == (v < 0),
        zero(of_integer(v)) <==> v == 0,
{
    reveal(of_integer);
    let n = if v < 0 {
        -v
    } else {
        v
    };
    let greatest = 0x1_0000_0000_0000_0000_0000_0000_0000_0000int;
    lemma_pow2_pos(1074);
    float_round::lemma_powers();
    float_round::lemma_multiple(1150, 0x10_0000_0000_0000);
    lemma_pow2_adds(52, 1150);
    lemma_pow2_adds(128, 1074);
    lemma_rounded_exact(TWO_TO_128 as int);
    assert(n * unit() * 1 <= greatest * unit() * 1) by (nonlinear_arith)
        requires
            n <= greatest,
            unit() > 0,
    ;
    float_round::law_nearest_exists(n * unit(), 1);
    float_round::law_rounding_keeps_order(n * unit(), 1, greatest * unit(), 1);
    if n == 0 {
        assert(0 * unit() == 0);
        lemma_rounded_nothing(1);
    } else {
        lemma_small_multiples();
        lemma_rounded_exact(1);
        assert(1 * 1 <= n * unit() * 1) by (nonlinear_arith)
            requires
                n >= 1,
                unit() >= 1,
        ;
        float_round::law_rounding_keeps_order(1, 1, n * unit(), 1);
    }
    lemma_with_sign(v < 0, float_round::rounded(n * unit(), 1));
}

/// The sign of a product with a positive finite float.
pub proof fn lemma_product_sign(a: F64Bits, b: F64Bits)
    requires
        !float_bits::nan(a),
        float_bits::finite(b),
        !float_bits::signed(b),
        !zero(b),
    ensures
        !float_bits::nan(product(a, b)),
        float_bits::signed(product(a, b)) == float_bits::signed(a),
        zero(a) ==> zero(product(a, b)),
{
    reveal(product);
    float_round::law_nearest_exists(size(a) * size(b), unit());
    if zero(a) {
        lemma_small_multiples();
        lemma_pow2_pos(1074);
        lemma_rounded_nothing(unit());
        assert(0 * size(b) == 0);
    }
}

/// The sign of a quotient by a positive finite float.
pub proof fn lemma_quotient_sign(a: F64Bits, b: F64Bits)
    requires
        float_bits::finite(b),
        !float_bits::signed(b),
        !zero(b),
    ensures
        float_bits::nan(a) ==> float_bits::nan(quotient(a, b)),
        !float_bits::nan(a) ==> {
            &&& !float_bits::nan(quotient(a, b))
            &&& float_bits::signed(quotient(a, b)) == float_bits::signed(a)
        },
        zero(a) ==> zero(quotient(a, b)),
{
    reveal(quotient);
    float_round::law_nearest_exists(size(a) * unit(), size(b));
    if zero(a) {
        lemma_small_multiples();
        float_round::lemma_multiple_ascends(0, float_bits::mag(b));
        lemma_rounded_nothing(size(b));
        assert(0 * unit() == 0);
    }
}

/// What the float `1.0` stands for.
pub proof fn lemma_one()
    ensures
        size(F64Bits(ONE)) == unit(),
        float_round::rounded(unit(), 1) == ONE,
{
    float_round::lemma_powers();
    float_round::lemma_multiple(1022, 0x10_0000_0000_0000);
    lemma_pow2_adds(52, 1022);
    lemma_rounded_exact(ONE as int);
}

/// What the float `2^128` stands for.
pub proof fn lemma_two_to_128()
    ensures
        size(F64Bits(TWO_TO_128)) == 0x1_0000_0000_0000_0000_0000_0000_0000_0000 * unit(),
        0 < size(F64Bits(TWO_TO_128)) <= unit() * unit(),
        of_integer(0x1_0000_0000_0000_0000_0000_0000_0000_0000int) == F64Bits(TWO_TO_128),
{
    reveal(of_integer);
    float_round::lemma_powers();
    float_round::lemma_multiple(1150, 0x10_0000_0000_0000);
    lemma_pow2_adds(52, 1150);
    lemma_pow2_adds(128, 1074);
    lemma_pow2_pos(1074);
    lemma_pow2_strictly_increases(128, 1074);
    lemma_rounded_exact(TWO_TO_128 as int);
    let u = unit();
    assert(0 < 0x1_0000_0000_0000_0000_0000_0000_0000_0000 * u <= u * u) by (nonlinear_arith)
        requires
            u >= 0x1_0000_0000_0000_0000_0000_0000_0000_0000,
    ;
}

/// The order of the factors does not matter.
pub proof fn lemma_product_commutes(a: F64Bits, b: F64Bits)
    ensures
        product(a, b) == product(b, a),
{
    reveal(product);
    assert(size(a) * size(b) == size(b) * size(a)) by (nonlinear_arith);
}

/// Plus or minus one times a finite float is that float, or its opposite.
pub proof fn lemma_signed_one(one: F64Bits, f: F64Bits)
    requires
        float_bits::mag(one) == ONE,
        float_bits::finite(f),
    ensures
        product(one, f) == (if float_bits::signed(one) {
            negated(f)
        } else {
            f
        }),
{
    reveal(product);
    let m = float_bits::mag(f);
    lemma_one();
    lemma_pow2_pos(1074);
    assert(size(one) == unit());
    lemma_rounded_scaled(m);
}

/// Scaling both sides of a quotient does not change where it rounds to.
proof fn lemma_rounded_scaled(m: int)
    requires
        0 <= m < INFINITE,
    ensures
        float_round::rounded(unit() * float_round::multiple(m), unit()) == m,
{
    let u = unit();
    let v = float_round::multiple(m);
    lemma_pow2_pos(1074);
    lemma_rounded_exact(m);
    assert((u * v) * 1 == v * u) by (nonlinear_arith);
    float_round::law_rounding_keeps_order(u * v, u, v, 1);
    float_round::law_rounding_keeps_order(v, 1, u * v, u);
}

/// A whole number below `2^53`, doubled `k` times, has a magnitude that stands
/// for the number itself.
proof fn lemma_shifted_integer(v: int, k: nat, e: nat) -> (m: int)
    requires
        1 <= v < 0x20_0000_0000_0000,
        k <= 52,
        e <= 52 - k,
        v >= pow2((52 - e) as nat),
    ensures
        0 <= m < INFINITE,
        float_round::multiple(m) * pow2(k) == v * unit(),
    decreases e,
{
    float_round::lemma_powers();
    if v >= 0x10_0000_0000_0000 {
        let t = (1074 - k) as nat;
        float_round::lemma_multiple(t, v);
        lemma_pow2_adds(t, k);
        let p = pow2(t) as int;
        let q = pow2(k) as int;
        assert((v * p) * q == v * (p * q)) by (nonlinear_arith);
        t * 0x10_0000_0000_0000 + v
    } else {
        if e == 0 {
            assert(false);
        }
        lemma_pow2_unfold((52 - e + 1) as nat);
        let m = lemma_shifted_integer(2 * v, k + 1, (e - 1) as nat);
        lemma_pow2_unfold((k + 1) as nat);
        let x = float_round::multiple(m);
        let q = pow2(k) as int;
        assert(x * q == v * unit()) by (nonlinear_arith)
            requires
                x * (2 * q) == (2 * v) * unit(),
        ;
        m
    }
}

/// Whole numbers below `2^53` are exact as floats.
pub proof fn law_small_integers_are_exact(v: int)
    requires
        0 <= v < 0x20_0000_0000_0000,
    ensures
        size(of_integer(v)) == v * unit(),
        whole(of_integer(v)) == v,
        fraction(of_integer(v)) == 0,
{
    reveal(of_integer);
    lemma_of_integer(v);
    lemma_small_multiples();
    lemma_pow2_pos(1074);
    if v == 0 {
        assert(0 * unit() == 0);
    } else {
        float_round::lemma_powers();
        let m = lemma_shifted_integer(v, 0, 52);
        assert(float_round::multiple(m) * 1 == float_round::multiple(m));
        lemma_rounded_exact(m);
    }
    lemma_fundamental_div_mod_converse(v * unit(), unit(), v, 0);
}

/// The float of the opposite of a whole number is the opposite float.
pub proof fn law_opposite_integers(v: int)
    requires
        0 < v,
    ensures
        of_integer(-v) == negated(of_integer(v)),
{
    reveal(of_integer);
    float_round::law_nearest_exists(v * unit(), 1);
    let m = float_round::rounded(v * unit(), 1);
    assert(-(-v) == v);
    lemma_with_sign(false, m);
    lemma_with_sign(true, m);
}

/// An opposite dividend gives the opposite quotient.
pub proof fn law_opposite_quotients(a: F64Bits, b: F64Bits)
    requires
        !float_bits::nan(quotient(a, b)),
    ensures
        quotient(negated(a), b) == negated(quotient(a, b)),
{
    reveal(quotient);
    float_round::law_nearest_exists(size(a) * unit(), size(b));
    let m = float_round::rounded(size(a) * unit(), size(b));
    lemma_with_sign(false, m);
    lemma_with_sign(true, m);
    lemma_with_sign(false, 0);
    lemma_with_sign(true, 0);
}

/// The product of whole numbers is exact as long as it is below `2^53`.
pub proof fn law_small_products_are_exact(v: int, w: int)
    requires
        0 <= v < 0x20_0000_0000_0000,
        0 <= w < 0x20_0000_0000_0000,
        0 <= v * w < 0x20_0000_0000_0000,
    ensures
        product(of_integer(v), of_integer(w)) == of_integer(v * w),
{
    reveal(product);
    reveal(of_integer);
    let u = unit();
    lemma_pow2_pos(1074);
    law_small_integers_are_exact(v);
    law_small_integers_are_exact(w);
    lemma_of_integer(v);
    lemma_of_integer(w);
    let n = (v * u) * (w * u);
    let x = (v * w) * u;
    assert(n * 1 == x * u) by (nonlinear_arith)
        requires
            n == (v * u) * (w * u),
            x == (v * w) * u,
    ;
    float_round::law_rounding_keeps_order(n, u, x, 1);
    float_round::law_rounding_keeps_order(x, 1, n, u);
}

/// The sum of whole numbers is exact as long as it is below `2^53`.
pub proof fn law_small_sums_are_exact(v: int, w: int)
    requires
        0 <= v,
        0 <= w,
        v + w < 0x20_0000_0000_0000,
    ensures
        sum(of_integer(v), of_integer(w)) == of_integer(v + w),
{
    reveal(sum);
    reveal(of_integer);
    let u = unit();
    lemma_pow2_pos(1074);
    law_small_integers_are_exact(v);
    law_small_integers_are_exact(w);
    lemma_of_integer(v);
    lemma_of_integer(w);
    assert(v * u + w * u == (v + w) * u) by (nonlinear_arith);
    assert(v * u >= 0 && w * u >= 0) by (nonlinear_arith)
        requires
            v >= 0,
            w >= 0,
            u > 0,
    ;
    lemma_rounded_nothing(1);
}

/// The float `2.0` is the whole number two.
pub proof fn lemma_two()
    ensures
        of_integer(2) == F64Bits(TWO),
        size(F64Bits(TWO)) == 2 * unit(),
{
    reveal(of_integer);
    lemma_one();
    float_round::lemma_doubled(ONE as int);
    lemma_rounded_exact(TWO as int);
}

} // verus!
