//! Rounding to the nearest float.
//!
//! Every finite float is a whole multiple of the least positive one, `2^-1074`,
//! and floats of one sign are numbered by their magnitude bits in ascending
//! order. Rounding picks the magnitude whose multiple lies nearest, and of two
//! equally near ones the even magnitude.

use vstd::arithmetic::div_mod::{
    lemma_div_denominator, lemma_fundamental_div_mod, lemma_fundamental_div_mod_converse,
};
use vstd::arithmetic::power2::{
    lemma2_to64, lemma2_to64_rest, lemma_pow2_adds, lemma_pow2_pos, lemma_pow2_strictly_increases, lemma_pow2_unfold, pow2,
};
use vstd::prelude::*;

verus! {

/// Magnitude bits of infinity.
pub const INFINITE: u64 = 0x7ff0_0000_0000_0000;

/// How often the significand of a magnitude is doubled.
pub open spec fn doublings(m: int) -> nat {
    if m < 0x10_0000_0000_0000 {
        0
    } else {
        (m / 0x10_0000_0000_0000 - 1) as nat
    }
}

/// What a magnitude stands for, as a multiple of `2^-1074`. Infinity stands for
/// the power of two behind the greatest float: that is where rounding overflows.
pub open spec fn multiple(m: int) -> int {
    (m - doublings(m) * 0x10_0000_0000_0000) * pow2(doublings(m))
}

/// Whether a magnitude is the nearest to `n / d`, of two equally near ones the
/// even one.
pub open spec fn nearest(n: int, d: int, m: int) -> bool {
    &&& 0 <= m <= INFINITE
    &&& m > 0 ==> {
        let middle = (multiple(m - 1) + multiple(m)) * d;
        2 * n > middle || (2 * n == middle && m % 2 == 0)
    }
    &&& m < INFINITE ==> {
        let middle = (multiple(m) + multiple(m + 1)) * d;
        2 * n < middle || (2 * n == middle && m % 2 == 0)
    }
}

/// The magnitude nearest to `n / d`.
pub open spec fn rounded(n: int, d: int) -> int {
    choose|m: int| nearest(n, d, m)
}

/// A magnitude by its doublings and its significand.
pub proof fn lemma_multiple(t: nat, significand: int)
    requires
        0 <= significand <= 0x20_0000_0000_0000,
        t > 0 ==> 0x10_0000_0000_0000 <= significand,
    ensures
        multiple(t * 0x10_0000_0000_0000 + significand) == significand * pow2(t),
{
    let m = t * 0x10_0000_0000_0000 + significand;
    if significand == 0x20_0000_0000_0000 {
        lemma_fundamental_div_mod_converse(m, 0x10_0000_0000_0000, t as int + 2, 0);
        lemma_pow2_unfold(t + 1);
        let p = pow2(t) as int;
        assert(0x10_0000_0000_0000 * (2 * p) == 0x20_0000_0000_0000 * p);
    } else if significand >= 0x10_0000_0000_0000 {
        lemma_fundamental_div_mod_converse(
            m,
            0x10_0000_0000_0000,
            t as int + 1,
            significand - 0x10_0000_0000_0000,
        );
    }
}

/// The doublings and the significand of a magnitude.
pub proof fn lemma_parts(m: int)
    requires
        0 <= m,
    ensures
        ({
            let t = doublings(m);
            let significand = m - t * 0x10_0000_0000_0000;
            &&& 0 <= significand < 0x20_0000_0000_0000
            &&& t > 0 ==> 0x10_0000_0000_0000 <= significand
            &&& multiple(m) == significand * pow2(t)
        }),
{
    lemma_fundamental_div_mod(m, 0x10_0000_0000_0000);
}

/// Each magnitude stands for more than the one before.
pub proof fn lemma_multiple_steps(m: int)
    requires
        0 <= m,
    ensures
        0 <= multiple(m) < multiple(m + 1),
{
    lemma_parts(m);
    let t = doublings(m);
    let significand = m - t * 0x10_0000_0000_0000;
    lemma_multiple(t, significand);
    lemma_multiple(t, significand + 1);
    lemma_pow2_pos(t);
    let p = pow2(t) as int;
    assert(0 <= significand * p < (significand + 1) * p) by (nonlinear_arith)
        requires
            0 <= significand,
            p > 0,
    ;
}

/// Magnitudes stand for ascending multiples.
pub proof fn lemma_multiple_ascends(a: int, b: int)
    requires
        0 <= a < b,
    ensures
        0 <= multiple(a) < multiple(b),
    decreases b - a,
{
    lemma_multiple_steps(a);
    if a + 1 < b {
        lemma_multiple_ascends(a + 1, b);
    }
}

/// Only one magnitude is nearest.
pub proof fn law_nearest_is_unique(n: int, d: int, a: int, b: int)
    requires
        d > 0,
        nearest(n, d, a),
        nearest(n, d, b),
    ensures
        a == b,
{
    if a < b {
        lemma_nearest_order(n, d, a, b);
    } else if b < a {
        lemma_nearest_order(n, d, b, a);
    }
}

proof fn lemma_nearest_order(n: int, d: int, a: int, b: int)
    requires
        d > 0,
        a < b,
        nearest(n, d, a),
        nearest(n, d, b),
    ensures
        a >= b,
{
    let low = multiple(a) + multiple(a + 1);
    let high = multiple(b - 1) + multiple(b);
    if a + 1 < b {
        lemma_multiple_ascends(a, b - 1);
        lemma_multiple_ascends(a + 1, b);
        assert(low * d < high * d) by (nonlinear_arith)
            requires
                low < high,
                d > 0,
        ;
    }
}

/// The rounded magnitude is the one that is nearest.
pub proof fn lemma_rounded(n: int, d: int, m: int)
    requires
        d > 0,
        nearest(n, d, m),
    ensures
        rounded(n, d) == m,
{
    law_nearest_is_unique(n, d, rounded(n, d), m);
}

/// If no magnitude above `m` is nearest, one up to `m` is.
proof fn lemma_nearest_up_to(n: int, d: int, m: int)
    requires
        0 <= m <= INFINITE,
        m < INFINITE ==> {
            let middle = (multiple(m) + multiple(m + 1)) * d;
            2 * n < middle || (2 * n == middle && m % 2 == 0)
        },
    ensures
        exists|x: int| nearest(n, d, x),
    decreases m,
{
    if !nearest(n, d, m) {
        lemma_nearest_up_to(n, d, m - 1);
    }
}

/// Every quotient has a nearest magnitude.
pub proof fn law_nearest_exists(n: int, d: int)
    ensures
        nearest(n, d, rounded(n, d)),
{
    lemma_nearest_up_to(n, d, INFINITE as int);
}

/// Rounding keeps the order of quotients.
pub proof fn law_rounding_keeps_order(n1: int, d1: int, n2: int, d2: int)
    requires
        d1 > 0,
        d2 > 0,
        n1 * d2 <= n2 * d1,
    ensures
        rounded(n1, d1) <= rounded(n2, d2),
{
    law_nearest_exists(n1, d1);
    law_nearest_exists(n2, d2);
    let a = rounded(n2, d2);
    let b = rounded(n1, d1);
    if a < b {
        let low = multiple(a) + multiple(a + 1);
        let high = multiple(b - 1) + multiple(b);
        if a + 1 < b {
            lemma_multiple_ascends(a, b - 1);
            lemma_multiple_ascends(a + 1, b);
        }
        assert(2 * n1 >= high * d1);
        assert(2 * n2 <= low * d2);
        assert((2 * n1) * d2 >= (high * d1) * d2) by (nonlinear_arith)
            requires
                2 * n1 >= high * d1,
                d2 > 0,
        ;
        assert((2 * n2) * d1 <= (low * d2) * d1) by (nonlinear_arith)
            requires
                2 * n2 <= low * d2,
                d1 > 0,
        ;
        assert((2 * n1) * d2 == 2 * (n1 * d2)) by (nonlinear_arith);
        assert((2 * n2) * d1 == 2 * (n2 * d1)) by (nonlinear_arith);
        assert((high * d1) * d2 == high * (d1 * d2)) by (nonlinear_arith);
        assert((low * d2) * d1 == low * (d1 * d2)) by (nonlinear_arith);
        let dd = d1 * d2;
        assert(dd > 0) by (nonlinear_arith)
            requires
                d1 > 0,
                d2 > 0,
                dd == d1 * d2,
        ;
        assert(high * dd <= low * dd);
        if a + 1 < b {
            assert(high > low);
            assert(high * dd > low * dd) by (nonlinear_arith)
                requires
                    high > low,
                    dd > 0,
            ;
        } else {
            assert(high == low);
            assert(2 * n1 == high * d1 && 2 * n2 == low * d2) by (nonlinear_arith)
                requires
                    2 * n1 >= high * d1,
                    2 * n2 <= low * d2,
                    high == low,
                    n1 * d2 <= n2 * d1,
                    d1 > 0,
                    d2 > 0,
            {
                assert((2 * n1) * d2 >= (high * d1) * d2);
                assert((2 * n2) * d1 <= (low * d2) * d1);
                assert((2 * n1) * d2 == (high * d1) * d2);
                assert((2 * n2) * d1 == (low * d2) * d1);
            }
        }
    }
}

/// The bias that keeps powers of two whole.
pub open spec fn bias() -> nat {
    4096
}

/// Whether `q`, times `2^(s - bias)`, is `n / d` with its rest cut off; `sticky`
/// says whether there is a rest.
pub open spec fn cut(n: int, d: int, q: int, sticky: bool, s: nat) -> bool {
    let low = q * pow2(s) * d;
    let high = (q + 1) * pow2(s) * d;
    let exact = n * pow2(bias());
    low <= exact < high && (low == exact <==> !sticky)
}

/// What rounding a cut value came to: `significand` doubled `t` times, or the
/// next magnitude.
pub open spec fn rounds(
    q: int,
    sticky: bool,
    s: nat,
    significand: int,
    t: nat,
    up: bool,
) -> bool {
    let k = (t + bias() - s) as nat;
    let rest = q - significand * pow2(k);
    &&& 1 <= t + bias() - s
    &&& 0 <= significand < 0x20_0000_0000_0000
    &&& t > 0 ==> 0x10_0000_0000_0000 <= significand
    &&& 0 <= rest < pow2(k)
    &&& up <==> (2 * rest > pow2(k) || (2 * rest == pow2(k) && (sticky || significand % 2 == 1)))
}

proof fn lemma_rounds_to_nearest(
    n: int,
    d: int,
    q: int,
    sticky: bool,
    s: nat,
    significand: int,
    t: nat,
    up: bool,
)
    requires
        n >= 0,
        d > 0,
        cut(n, d, q, sticky, s),
        rounds(q, sticky, s, significand, t, up),
        t <= 2045,
    ensures
        nearest(n, d, t * 0x10_0000_0000_0000 + significand + if up { 1int } else { 0 }),
{
    let k = (t + bias() - s) as nat;
    let m = t * 0x10_0000_0000_0000 + significand;
    let pk = pow2(k) as int;
    let ps = pow2(s) as int;
    let pt = pow2(t) as int;
    let pb = pow2(bias()) as int;
    lemma_pow2_pos(k);
    lemma_pow2_pos(s);
    lemma_pow2_pos(t);
    lemma_pow2_pos(bias());
    lemma_pow2_adds(k, s);
    lemma_pow2_adds(t, bias());
    assert(pk * ps == pt * pb);
    lemma_multiple(t, significand);
    lemma_multiple(t, significand + 1);
    lemma_pow2_unfold(k);
    let half = pow2((k - 1) as nat) as int;
    assert(pk == 2 * half);
    let middle = (2 * significand + 1) * pt * d;
    assert((multiple(m) + multiple(m + 1)) * d == middle) by (nonlinear_arith)
        requires
            multiple(m) == significand * pt,
            multiple(m + 1) == (significand + 1) * pt,
            middle == (2 * significand + 1) * pt * d,
    ;
    // What the cut says, in units of the magnitudes.
    let rest = q - significand * pk;
    assert((significand + 1) * pk == significand * pk + pk) by (nonlinear_arith);
    assert(significand * pt * d <= n) by (nonlinear_arith)
        requires
            q * ps * d <= n * pb,
            significand * pk <= q,
            pk * ps == pt * pb,
            ps > 0,
            d > 0,
            pb > 0,
    {
        assert((significand * pk) * (ps * d) <= q * (ps * d));
        assert((significand * pk) * (ps * d) == (significand * d) * (pk * ps));
        assert((significand * d) * (pt * pb) == (significand * pt * d) * pb);
        assert((significand * pt * d) * pb <= n * pb);
    }
    assert(n < (significand + 1) * pt * d) by (nonlinear_arith)
        requires
            n * pb < (q + 1) * ps * d,
            q + 1 <= (significand + 1) * pk,
            pk * ps == pt * pb,
            ps > 0,
            d > 0,
            pb > 0,
    {
        assert((q + 1) * (ps * d) <= ((significand + 1) * pk) * (ps * d));
        assert(((significand + 1) * pk) * (ps * d) == ((significand + 1) * d) * (pk * ps));
        assert(((significand + 1) * d) * (pt * pb) == ((significand + 1) * pt * d) * pb);
        assert(n * pb < ((significand + 1) * pt * d) * pb);
    }
    let h = 2 * significand + 1;
    assert(h * half * ps * 2 == h * pt * pb) by (nonlinear_arith)
        requires
            pk * ps == pt * pb,
            pk == 2 * half,
    ;
    assert(q == significand * pk + rest);
    assert(h * half == significand * pk + half) by (nonlinear_arith)
        requires
            h == 2 * significand + 1,
            pk == 2 * half,
    ;
    if q < h * half {
        assert(2 * n < middle) by (nonlinear_arith)
            requires
                n * pb < (q + 1) * ps * d,
                q + 1 <= h * half,
                h * half * ps * 2 == h * pt * pb,
                middle == h * pt * d,
                ps > 0,
                d > 0,
                pb > 0,
        {
            assert((q + 1) * (ps * d) <= (h * half) * (ps * d));
            assert(2 * ((h * half) * (ps * d)) == (h * half * ps * 2) * d);
            assert((h * pt * pb) * d == (h * pt * d) * pb);
            assert((2 * n) * pb < middle * pb);
        }
    } else if q > h * half {
        assert(2 * n > middle) by (nonlinear_arith)
            requires
                q * ps * d <= n * pb,
                q >= h * half + 1,
                h * half * ps * 2 == h * pt * pb,
                middle == h * pt * d,
                ps > 0,
                d > 0,
                pb > 0,
        {
            assert(q * (ps * d) >= (h * half + 1) * (ps * d));
            assert((h * half + 1) * (ps * d) == (h * half) * (ps * d) + ps * d);
            assert(2 * ((h * half) * (ps * d)) == (h * half * ps * 2) * d);
            assert((h * pt * pb) * d == (h * pt * d) * pb);
            assert(ps * d > 0);
            assert((2 * n) * pb > middle * pb);
        }
    } else {
        assert(2 * (q * ps * d) == middle * pb) by (nonlinear_arith)
            requires
                q == h * half,
                h * half * ps * 2 == h * pt * pb,
                middle == h * pt * d,
        ;
        assert(sticky ==> 2 * n > middle) by (nonlinear_arith)
            requires
                sticky ==> q * ps * d < n * pb,
                2 * (q * ps * d) == middle * pb,
                pb > 0,
        ;
        assert(!sticky ==> 2 * n == middle) by (nonlinear_arith)
            requires
                !sticky ==> q * ps * d == n * pb,
                2 * (q * ps * d) == middle * pb,
                pb > 0,
        ;
    }
    // The neighbours on the other side are farther away.
    assert(m % 2 == significand % 2);
    if up {
        if m + 1 < INFINITE {
            lemma_multiple_steps(m + 1);
            let above = (multiple(m + 1) + multiple(m + 2)) * d;
            assert(2 * n < above) by (nonlinear_arith)
                requires
                    n < (significand + 1) * pt * d,
                    multiple(m + 1) == (significand + 1) * pt,
                    multiple(m + 1) < multiple(m + 2),
                    above == (multiple(m + 1) + multiple(m + 2)) * d,
                    d > 0,
            ;
        }
    } else if m > 0 {
        lemma_multiple_steps(m - 1);
        let below = (multiple(m - 1) + multiple(m)) * d;
        assert(2 * n > below) by (nonlinear_arith)
            requires
                significand * pt * d <= n,
                multiple(m) == significand * pt,
                multiple(m - 1) < multiple(m),
                below == (multiple(m - 1) + multiple(m)) * d,
                d > 0,
        ;
    }
}

/// The powers of two that floats are made of.
pub proof fn lemma_powers()
    ensures
        pow2(0) == 1,
        pow2(1) == 2,
        pow2(52) == 0x10_0000_0000_0000,
        pow2(53) == 0x20_0000_0000_0000,
        pow2(54) == 0x40_0000_0000_0000,
        pow2(63) == 0x8000_0000_0000_0000,
        pow2(64) == 0x1_0000_0000_0000_0000,
        pow2(127) == 0x8000_0000_0000_0000_0000_0000_0000_0000,
        pow2(128) == 0x1_0000_0000_0000_0000_0000_0000_0000_0000,
{
    lemma2_to64();
    lemma2_to64_rest();
    lemma_pow2_adds(64, 63);
    lemma_pow2_adds(64, 64);
}

/// A value past the greatest float rounds to infinity.
proof fn lemma_overflow(n: int, d: int, q: int, sticky: bool, s: nat)
    requires
        n >= 0,
        d > 0,
        cut(n, d, q, sticky, s),
        q * pow2(s) >= pow2((2098 + bias()) as nat),
    ensures
        nearest(n, d, INFINITE as int),
{
    let ps = pow2(s) as int;
    let pb = pow2(bias()) as int;
    let top = pow2(2098) as int;
    lemma_pow2_pos(bias());
    lemma_pow2_pos(2098);
    lemma_pow2_adds(2098, bias());
    lemma_multiple(2046, 0x10_0000_0000_0000);
    lemma_multiple_steps(INFINITE - 1);
    assert(0x10_0000_0000_0000 * pow2(2046) == pow2(2098)) by {
        lemma_powers();
        lemma_pow2_adds(52, 2046);
    }
    assert(2046 * 0x10_0000_0000_0000 + 0x10_0000_0000_0000 == INFINITE);
    let below = (multiple(INFINITE - 1) + multiple(INFINITE as int)) * d;
    assert(2 * n > below) by (nonlinear_arith)
        requires
            q * ps * d <= n * pb,
            q * ps >= top * pb,
            multiple(INFINITE as int) == top,
            multiple(INFINITE - 1) < top,
            below == (multiple(INFINITE - 1) + multiple(INFINITE as int)) * d,
            d > 0,
            pb > 0,
    {
        assert((q * ps) * d >= (top * pb) * d);
        assert((top * pb) * d == (top * d) * pb);
        assert(n * pb >= (top * d) * pb);
        assert(n >= top * d);
    }
}

/// `2^k`.
pub(crate) fn power_of_two(k: u64) -> (r: u128)
    requires
        k < 128,
    ensures
        r == pow2(k as nat),
{
    let mut p: u128 = 1;
    let mut i: u64 = 0;
    proof {
        lemma_powers();
    }
    while i < k
        invariant
            i <= k < 128,
            p == pow2(i as nat),
        decreases k - i,
    {
        proof {
            lemma_pow2_unfold((i + 1) as nat);
            lemma_below_128((i + 1) as nat);
        }
        p = p * 2;
        i = i + 1;
    }
    p
}

proof fn lemma_below_128(i: nat)
    requires
        i < 128,
    ensures
        pow2(i) <= 0x8000_0000_0000_0000_0000_0000_0000_0000,
{
    lemma_powers();
    if i < 127 {
        lemma_pow2_strictly_increases(i, 127);
    }
}

/// The number of binary digits.
fn bit_length(q: u128) -> (r: u64)
    requires
        q > 0,
    ensures
        1 <= r <= 128,
        pow2((r - 1) as nat) <= q < pow2(r as nat),
{
    let mut x: u128 = q;
    let mut n: u64 = 0;
    proof {
        lemma_powers();
        assert(q as int / 1 == q);
    }
    while x > 1
        invariant
            x >= 1,
            x == q as int / pow2(n as nat) as int,
            n < 128,
            q > 0,
        decreases x,
    {
        proof {
            lemma_pow2_pos(n as nat);
            lemma_pow2_unfold((n + 1) as nat);
            lemma_div_denominator(q as int, pow2(n as nat) as int, 2);
            assert(pow2(n as nat) * 2 == 2 * pow2(n as nat));
            if n == 127 {
                lemma_div_by_half(q as int);
            }
        }
        x = x / 2;
        n = n + 1;
    }
    proof {
        let p = pow2(n as nat) as int;
        lemma_pow2_pos(n as nat);
        lemma_fundamental_div_mod(q as int, p);
        lemma_pow2_unfold((n + 1) as nat);
        assert(p <= q < 2 * p) by (nonlinear_arith)
            requires
                q == p * 1 + q as int % p,
                0 <= q as int % p < p,
        ;
    }
    n + 1
}

proof fn lemma_div_by_half(q: int)
    requires
        0 <= q <= u128::MAX,
    ensures
        q / pow2(127) as int <= 1,
{
    lemma_powers();
    assert(pow2(127) == 0x8000_0000_0000_0000_0000_0000_0000_0000);
}

/// The same value with at least 55 binary digits.
fn widened(q: u128, s: u64) -> (r: (u128, u64))
    requires
        q > 0,
        s >= 64,
    ensures
        r.0 * pow2(r.1 as nat) == q * pow2(s as nat),
        r.0 >= 0x40_0000_0000_0000,
        s - 64 <= r.1 <= s,
        q >= 0x40_0000_0000_0000 ==> r == (q, s),
{
    let mut x: u128 = q;
    let mut e: u64 = s;
    let ghost j: nat = 0;
    proof {
        lemma_powers();
        assert(q * 1 == q);
    }
    while x < 0x40_0000_0000_0000
        invariant
            s >= 64,
            q > 0,
            e == s - j,
            x >= pow2(j),
            x * pow2(e as nat) == q * pow2(s as nat),
            j <= 54,
            j == 0 ==> x == q,
            j > 0 ==> q < 0x40_0000_0000_0000,
        decreases e,
    {
        proof {
            if j == 54 {
                lemma_powers();
            }
            lemma_pow2_unfold(e as nat);
            lemma_pow2_unfold((j + 1) as nat);
            let p = pow2((e - 1) as nat) as int;
            assert((x * 2) * p == x * (2 * p)) by (nonlinear_arith);
            j = j + 1;
        }
        x = x * 2;
        e = e - 1;
    }
    (x, e)
}

/// A cut value rounded: significand, doublings and direction, and the magnitude.
struct Rounded {
    magnitude: u64,
    significand: u64,
    doublings: u64,
    up: bool,
}

proof fn lemma_widened_cut(n: int, d: int, q: int, sticky: bool, s: nat, q2: int, s2: nat)
    requires
        d > 0,
        cut(n, d, q, sticky, s),
        q2 * pow2(s2) == q * pow2(s),
        (q2 == q && s2 == s) || !sticky,
    ensures
        cut(n, d, q2, sticky, s2),
{
    lemma_pow2_pos(s2);
    let p = pow2(s2) as int;
    assert((q2 + 1) * p * d > q2 * p * d) by (nonlinear_arith)
        requires
            p > 0,
            d > 0,
    ;
}

/// Rounds a cut value to the nearest magnitude.
fn round_wide(q: u128, sticky: bool, s: u64) -> (r: Rounded)
    requires
        q >= 0x40_0000_0000_0000,
        s <= 10_000,
    ensures
        r.doublings <= 2045 ==> {
            &&& rounds(q as int, sticky, s as nat, r.significand as int, r.doublings as nat, r.up)
            &&& r.magnitude == r.doublings * 0x10_0000_0000_0000 + r.significand + if r.up {
                1int
            } else {
                0
            }
        },
        r.doublings > 2045 ==> {
            &&& r.magnitude == INFINITE
            &&& q * pow2(s as nat) >= pow2((2098 + bias()) as nat)
        },
{
    let length: u64 = bit_length(q);
    proof {
        lemma_powers();
        if length < 54 {
            lemma_pow2_strictly_increases(length as nat, 54);
        }
    }
    let total: u64 = length + s;
    let t: u64 = if total >= 4149 {
        total - 4149
    } else {
        0
    };
    if t > 2045 {
        proof {
            let pl = pow2((length - 1) as nat) as int;
            let ps = pow2(s as nat) as int;
            lemma_pow2_adds((length - 1) as nat, s as nat);
            lemma_pow2_pos(s as nat);
            assert(q * ps >= pl * ps) by (nonlinear_arith)
                requires
                    q >= pl,
                    ps > 0,
            ;
            if length - 1 + s > 2098 + bias() {
                lemma_pow2_strictly_increases((2098 + bias()) as nat, (length - 1 + s) as nat);
            }
        }
        return Rounded { magnitude: INFINITE, significand: 0, doublings: t, up: false };
    }
    let k: u64 = t + 4096 - s;
    if k >= 129 {
        proof {
            lemma_pow2_unfold(k as nat);
            if k > 129 {
                lemma_pow2_strictly_increases(129, k as nat);
            }
            lemma_pow2_unfold(129);
            assert(0 * pow2(k as nat) == 0);
        }
        return Rounded { magnitude: 0, significand: 0, doublings: 0, up: false };
    }
    if k == 128 {
        let over: bool = q > 0x8000_0000_0000_0000_0000_0000_0000_0000;
        let tie: bool = q == 0x8000_0000_0000_0000_0000_0000_0000_0000;
        let up: bool = over || (tie && sticky);
        proof {
            assert(0 * pow2(128) == 0);
        }
        return Rounded {
            magnitude: if up {
                1
            } else {
                0
            },
            significand: 0,
            doublings: 0,
            up,
        };
    }
    let p: u128 = power_of_two(k);
    proof {
        lemma_pow2_pos(k as nat);
    }
    let whole: u128 = q / p;
    let rest: u128 = q % p;
    let half: u128 = p / 2;
    proof {
        lemma_pow2_pos(k as nat);
        lemma_pow2_unfold(k as nat);
        lemma_fundamental_div_mod(q as int, p as int);
        assert(whole * pow2(k as nat) == p * whole) by (nonlinear_arith)
            requires
                p == pow2(k as nat),
        ;
        // The significand has at most 53 digits, and exactly 53 above the least floats.
        lemma_significand(q as int, k as nat, length as nat, t as nat, s as nat);
    }
    let significand: u64 = whole as u64;
    let up: bool = rest > half || (rest == half && (sticky || significand % 2 == 1));
    let base: u64 = t * 0x10_0000_0000_0000 + significand;
    let magnitude: u64 = if up {
        base + 1
    } else {
        base
    };
    Rounded { magnitude, significand, doublings: t, up }
}

proof fn lemma_significand(q: int, k: nat, length: nat, t: nat, s: nat)
    requires
        length >= 55,
        pow2((length - 1) as nat) <= q < pow2(length),
        k == t + bias() - s,
        1 <= k,
        t == 0 ==> length + s <= bias() + 53,
        t > 0 ==> length + s == t + bias() + 53,
    ensures
        0 <= q / pow2(k) as int,
        q / (pow2(k) as int) < 0x20_0000_0000_0000,
        t > 0 ==> q / (pow2(k) as int) >= 0x10_0000_0000_0000,
{
    let p = pow2(k) as int;
    lemma_powers();
    lemma_pow2_pos(k);
    lemma_fundamental_div_mod(q, p);
    let whole = q / p;
    // q < 2^length <= 2^(k + 53)
    lemma_pow2_adds(53, k);
    if length < 53 + k {
        lemma_pow2_strictly_increases(length, 53 + k);
    }
    assert(whole < 0x20_0000_0000_0000) by (nonlinear_arith)
        requires
            q == p * whole + q % p,
            q % p >= 0,
            q < 0x20_0000_0000_0000 * p,
            p > 0,
    ;
    assert(0 <= whole) by (nonlinear_arith)
        requires
            q == p * whole + q % p,
            q % p < p,
            q >= 0,
            p > 0,
    ;
    if t > 0 {
        lemma_pow2_adds(52, k);
        assert(whole >= 0x10_0000_0000_0000) by (nonlinear_arith)
            requires
                q == p * whole + q % p,
                q % p < p,
                q >= 0x10_0000_0000_0000 * p,
                p > 0,
        ;
    }
}

/// The magnitude nearest to a value, given with its rest cut off: `q`, times
/// `2^(s - bias)`, stands for every quotient that it is the cut of.
pub(crate) fn round_cut(q: u128, sticky: bool, s: u64) -> (r: u64)
    requires
        q > 0,
        sticky ==> q >= 0x40_0000_0000_0000,
        64 <= s <= 10_000,
    ensures
        r <= INFINITE,
        forall|n: int, d: int|
            n >= 0 && d > 0 && #[trigger] cut(n, d, q as int, sticky, s as nat) ==> nearest(n, d, r as int),
{
    let (wide, e) = widened(q, s);
    let r: Rounded = round_wide(wide, sticky, e);
    proof {
        assert forall|n: int, d: int|
            n >= 0 && d > 0 && #[trigger] cut(n, d, q as int, sticky, s as nat) implies nearest(
            n,
            d,
            r.magnitude as int,
        ) by {
            lemma_widened_cut(n, d, q as int, sticky, s as nat, wide as int, e as nat);
            if r.doublings > 2045 {
                lemma_overflow(n, d, wide as int, sticky, e as nat);
            } else {
                lemma_rounds_to_nearest(
                    n,
                    d,
                    wide as int,
                    sticky,
                    e as nat,
                    r.significand as int,
                    r.doublings as nat,
                    r.up,
                );
            }
        }
    }
    r.magnitude
}

/// Whether a magnitude is the nearest to the square root of `n`, of two equally
/// near ones the even one.
pub open spec fn nearest_root(n: int, m: int) -> bool {
    &&& 0 <= m <= INFINITE
    &&& m > 0 ==> {
        let middle = multiple(m - 1) + multiple(m);
        4 * n > middle * middle || (4 * n == middle * middle && m % 2 == 0)
    }
    &&& m < INFINITE ==> {
        let middle = multiple(m) + multiple(m + 1);
        4 * n < middle * middle || (4 * n == middle * middle && m % 2 == 0)
    }
}

/// The magnitude nearest to the square root of `n`.
pub open spec fn rooted(n: int) -> int {
    choose|m: int| nearest_root(n, m)
}

proof fn lemma_squares(x: int, y: int)
    requires
        0 <= x < y,
    ensures
        x * x < y * y,
{
    assert(x * x < y * y) by (nonlinear_arith)
        requires
            0 <= x < y,
    ;
}

/// Only one magnitude is nearest to a root.
pub proof fn law_nearest_root_is_unique(n: int, a: int, b: int)
    requires
        nearest_root(n, a),
        nearest_root(n, b),
    ensures
        a == b,
{
    if a < b {
        lemma_root_order(n, a, b);
    } else if b < a {
        lemma_root_order(n, b, a);
    }
}

proof fn lemma_root_order(n: int, a: int, b: int)
    requires
        a < b,
        nearest_root(n, a),
        nearest_root(n, b),
    ensures
        a >= b,
{
    let low = multiple(a) + multiple(a + 1);
    let high = multiple(b - 1) + multiple(b);
    if a + 1 < b {
        lemma_multiple_ascends(a, b - 1);
        lemma_multiple_ascends(a + 1, b);
        lemma_squares(low, high);
    }
}

/// The rooted magnitude is the one that is nearest.
pub proof fn lemma_rooted(n: int, m: int)
    requires
        nearest_root(n, m),
    ensures
        rooted(n) == m,
{
    law_nearest_root_is_unique(n, rooted(n), m);
}

/// Whether `q`, times `2^(s - bias)`, is the square root of `n` with its rest
/// cut off; `sticky` says whether there is a rest.
pub open spec fn cut_root(n: int, q: int, sticky: bool, s: nat) -> bool {
    let low = q * pow2(s);
    let high = (q + 1) * pow2(s);
    let exact = n * (pow2(bias()) * pow2(bias()));
    low * low <= exact < high * high && (low * low == exact <==> !sticky)
}

/// Squares compare as their roots do, on a common scale.
proof fn lemma_root_scale(n: int, u: int, v: int, scale: int)
    requires
        scale > 0,
        0 <= v,
        u == v * scale,
    ensures
        n * (scale * scale) < u * u <==> n < v * v,
        n * (scale * scale) == u * u <==> n == v * v,
{
    let w = scale * scale;
    assert(u * u == (v * v) * w) by (nonlinear_arith)
        requires
            u == v * scale,
            w == scale * scale,
    ;
    assert(w > 0) by (nonlinear_arith)
        requires
            w == scale * scale,
            scale > 0,
    ;
    let x = v * v;
    assert((n * w < x * w <==> n < x) && (n * w == x * w <==> n == x)) by (nonlinear_arith)
        requires
            w > 0,
    ;
}

proof fn lemma_root_rounds_to_nearest(
    n: int,
    q: int,
    sticky: bool,
    s: nat,
    significand: int,
    t: nat,
    up: bool,
)
    requires
        n >= 0,
        q >= 0,
        cut_root(n, q, sticky, s),
        rounds(q, sticky, s, significand, t, up),
        t <= 2045,
    ensures
        nearest_root(n, t * 0x10_0000_0000_0000 + significand + if up { 1int } else { 0 }),
{
    let k = (t + bias() - s) as nat;
    let m = t * 0x10_0000_0000_0000 + significand;
    let pk = pow2(k) as int;
    let ps = pow2(s) as int;
    let pt = pow2(t) as int;
    let pb = pow2(bias()) as int;
    lemma_pow2_pos(k);
    lemma_pow2_pos(s);
    lemma_pow2_pos(t);
    lemma_pow2_pos(bias());
    lemma_pow2_adds(k, s);
    lemma_pow2_adds(t, bias());
    lemma_multiple(t, significand);
    lemma_multiple(t, significand + 1);
    lemma_pow2_unfold(k);
    let half = pow2((k - 1) as nat) as int;
    let h = 2 * significand + 1;
    let middle = h * pt;
    let low = q * ps;
    let high = (q + 1) * ps;
    assert(0 <= low < high) by (nonlinear_arith)
        requires
            low == q * ps,
            high == (q + 1) * ps,
            q >= 0,
            ps > 0,
    ;
    assert(multiple(m) + multiple(m + 1) == middle) by (nonlinear_arith)
        requires
            multiple(m) == significand * pt,
            multiple(m + 1) == (significand + 1) * pt,
            middle == (2 * significand + 1) * pt,
    ;
    assert((significand + 1) * pk == significand * pk + pk) by (nonlinear_arith);
    assert(h * half == significand * pk + half) by (nonlinear_arith)
        requires
            h == 2 * significand + 1,
            pk == 2 * half,
    ;
    // The two magnitudes around the root, and their middle.
    let below = significand * pt;
    let above = (significand + 1) * pt;
    let below_u = below * pb;
    let above_u = above * pb;
    let middle_u = middle * pb;
    assert(below_u == (significand * pk) * ps && above_u == ((significand + 1) * pk) * ps && middle_u == (2
        * (h * half)) * ps) by (nonlinear_arith)
        requires
            below == significand * pt,
            above == (significand + 1) * pt,
            middle == h * pt,
            below_u == below * pb,
            above_u == above * pb,
            middle_u == middle * pb,
            pk * ps == pt * pb,
            pk == 2 * half,
    {
        assert(below_u == significand * (pt * pb));
        assert(above_u == (significand + 1) * (pt * pb));
        assert(middle_u == h * (pt * pb));
        assert(significand * (pk * ps) == (significand * pk) * ps);
        assert((significand + 1) * (pk * ps) == ((significand + 1) * pk) * ps);
        assert(h * (2 * half * ps) == (2 * (h * half)) * ps);
    }
    assert(0 <= below < above && 0 <= middle) by (nonlinear_arith)
        requires
            below == significand * pt,
            above == (significand + 1) * pt,
            middle == h * pt,
            h >= 0,
            significand >= 0,
            pt > 0,
    ;
    lemma_root_scale(n, below_u, below, pb);
    lemma_root_scale(n, above_u, above, pb);
    assert(below_u <= low) by (nonlinear_arith)
        requires
            below_u == (significand * pk) * ps,
            low == q * ps,
            significand * pk <= q,
            ps > 0,
    ;
    assert(high <= above_u) by (nonlinear_arith)
        requires
            above_u == ((significand + 1) * pk) * ps,
            high == (q + 1) * ps,
            q + 1 <= (significand + 1) * pk,
            ps > 0,
    ;
    assert(0 <= below_u) by (nonlinear_arith)
        requires
            below_u == below * pb,
            below >= 0,
            pb > 0,
    ;
    if below_u < low {
        lemma_squares(below_u, low);
    }
    if high < above_u {
        lemma_squares(high, above_u);
    }
    assert(below * below <= n < above * above);
    let n4 = 4 * n;
    lemma_root_scale(n4, middle_u, middle, pb);
    let scale2 = pb * pb;
    let exact = n * scale2;
    assert(n4 * scale2 == 4 * exact) by (nonlinear_arith)
        requires
            n4 == 4 * n,
            exact == n * scale2,
    ;
    let low2 = 2 * low;
    let high2 = 2 * high;
    assert(low2 * low2 == 4 * (low * low) && high2 * high2 == 4 * (high * high)) by (nonlinear_arith)
        requires
            low2 == 2 * low,
            high2 == 2 * high,
    ;
    if q < h * half {
        assert(high2 <= middle_u) by (nonlinear_arith)
            requires
                high2 == 2 * high,
                high == (q + 1) * ps,
                middle_u == (2 * (h * half)) * ps,
                q + 1 <= h * half,
                ps > 0,
        ;
        if high2 < middle_u {
            lemma_squares(high2, middle_u);
        }
        assert(n4 < middle * middle);
    } else if q > h * half {
        assert(low2 > middle_u) by (nonlinear_arith)
            requires
                low2 == 2 * low,
                low == q * ps,
                middle_u == (2 * (h * half)) * ps,
                q > h * half,
                ps > 0,
        ;
        assert(0 <= middle_u) by (nonlinear_arith)
            requires
                middle_u == middle * pb,
                middle >= 0,
                pb > 0,
        ;
        lemma_squares(middle_u, low2);
        assert(n4 > middle * middle);
    } else {
        assert(low2 == middle_u) by (nonlinear_arith)
            requires
                low2 == 2 * low,
                low == q * ps,
                middle_u == (2 * (h * half)) * ps,
                q == h * half,
        ;
    }
    assert(m % 2 == significand % 2);
    if up {
        if m + 1 < INFINITE {
            lemma_multiple_steps(m + 1);
            let outer = multiple(m + 1) + multiple(m + 2);
            lemma_squares(2 * above, outer);
            assert((2 * above) * (2 * above) == 4 * (above * above)) by (nonlinear_arith);
        }
    } else if m > 0 {
        lemma_multiple_steps(m - 1);
        let outer = multiple(m - 1) + multiple(m);
        lemma_squares(outer, 2 * below);
        assert((2 * below) * (2 * below) == 4 * (below * below)) by (nonlinear_arith);
    }
}

/// The magnitude nearest to a square root, given with its rest cut off.
pub(crate) fn round_root_cut(q: u128, sticky: bool, s: u64) -> (r: u64)
    requires
        0x40_0000_0000_0000 <= q < 0x80_0000_0000_0000,
        s <= 5700,
    ensures
        r <= INFINITE,
        forall|n: int|
            n >= 0 && #[trigger] cut_root(n, q as int, sticky, s as nat) ==> nearest_root(n, r as int),
{
    let r: Rounded = round_wide(q, sticky, s);
    proof {
        if r.doublings > 2045 {
            lemma_powers();
            lemma_pow2_unfold(55);
            lemma_pow2_adds(55, s as nat);
            lemma_pow2_pos(s as nat);
            assert(q * pow2(s as nat) < pow2(55) * pow2(s as nat)) by (nonlinear_arith)
                requires
                    q < pow2(55),
                    pow2(s as nat) > 0,
            ;
            lemma_pow2_strictly_increases((55 + s) as nat, (2098 + bias()) as nat);
        }
        assert forall|n: int|
            n >= 0 && #[trigger] cut_root(n, q as int, sticky, s as nat) implies nearest_root(
            n,
            r.magnitude as int,
        ) by {
            lemma_root_rounds_to_nearest(
                n,
                q as int,
                sticky,
                s as nat,
                r.significand as int,
                r.doublings as nat,
                r.up,
            );
        }
    }
    r.magnitude
}

/// One more in the exponent doubles a normal magnitude.
pub proof fn lemma_doubled(m: int)
    requires
        0x10_0000_0000_0000 <= m,
    ensures
        multiple(m + 0x10_0000_0000_0000) == 2 * multiple(m),
{
    lemma_parts(m);
    let t = doublings(m);
    let significand = m - t * 0x10_0000_0000_0000;
    if t == 0 {
        lemma_fundamental_div_mod(m, 0x10_0000_0000_0000);
    }
    lemma_multiple((t + 1) as nat, significand);
    lemma_pow2_unfold((t + 1) as nat);
    let p = pow2(t) as int;
    assert(significand * (2 * p) == 2 * (significand * p)) by (nonlinear_arith);
}

} // verus!
