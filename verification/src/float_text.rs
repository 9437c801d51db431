//! Small floats in decimal: the fewest places that read back as the float.

use vstd::arithmetic::div_mod::{lemma_div_multiples_vanish_quotient, lemma_fundamental_div_mod};
use vstd::arithmetic::power2::{
    lemma2_to64, lemma2_to64_rest, lemma_pow2_adds, lemma_pow2_pos, lemma_pow2_strictly_increases, lemma_pow2_unfold, pow2,
};
use vstd::prelude::*;

use crate::float_bits;
use crate::float_bits::F64Bits;
use crate::float_math;
use crate::float_round;
use crate::text;
use crate::text::{padded, ten_to};

verus! {

/// A float in units of the `k`-th decimal place, to the nearest whole number.
pub open spec fn in_places(f: F64Bits, k: nat) -> int {
    (2 * float_math::size(f) * ten_to(k) + float_math::unit()) / (2 * float_math::unit())
}

/// Whether a float that is written to `k` decimal places reads back as itself.
pub open spec fn reads_back(f: F64Bits, k: nat) -> bool {
    float_round::nearest(in_places(f, k) * float_math::unit(), ten_to(k), float_bits::mag(f))
}

/// Whether a float needs `k` decimal places to read back, and no more.
pub open spec fn needs_places(f: F64Bits, k: nat) -> bool {
    reads_back(f, k) && forall|j: nat| j < k ==> !#[trigger] reads_back(f, j)
}

/// The decimal places that a float needs.
pub open spec fn places(f: F64Bits) -> nat {
    choose|k: nat| needs_places(f, k)
}

/// A float between zero and one in decimal.
pub open spec fn fraction_text(f: F64Bits) -> Seq<char> {
    "0."@ + text::padded_text(in_places(f, places(f)) as nat, places(f))
}

/// The significand of a float of full precision.
pub open spec fn significand(f: F64Bits) -> int {
    float_bits::mag(f) - float_round::doublings(float_bits::mag(f)) * 0x10_0000_0000_0000
}

/// By which power of two the significand is divided.
pub open spec fn halvings(f: F64Bits) -> int {
    1074 - float_round::doublings(float_bits::mag(f))
}

/// A float above zero and below an eighth that is no power of two and is not
/// much below a ten-thousandth.
pub open spec fn small_fraction(f: F64Bits) -> bool {
    &&& !float_bits::signed(f)
    &&& 56 <= halvings(f) <= 66
    &&& 0x10_0000_0000_0000 < significand(f) < 0x20_0000_0000_0000
}

/// Whether `n` units of a decimal place, of which there are `p` in one, read back
/// as `s / w`.
spec fn lies_near(n: int, s: int, w: int, p: int, even: bool) -> bool {
    &&& 2 * n * w > (2 * s - 1) * p || (2 * n * w == (2 * s - 1) * p && even)
    &&& 2 * n * w < (2 * s + 1) * p || (2 * n * w == (2 * s + 1) * p && even)
}

proof fn lemma_powers_of_ten(k: nat)
    ensures
        ten_to(k) >= 1,
    decreases k,
{
    if k > 0 {
        lemma_powers_of_ten((k - 1) as nat);
    }
}

proof fn lemma_powers_of_ten_ascend(j: nat, k: nat)
    requires
        j <= k,
    ensures
        ten_to(j) <= ten_to(k),
    decreases k,
{
    if j < k {
        lemma_powers_of_ten((k - 1) as nat);
        lemma_powers_of_ten_ascend(j, (k - 1) as nat);
    }
}

/// Writing a float in decimal, by its significand.
proof fn lemma_by_significand(f: F64Bits, k: nat)
    requires
        small_fraction(f),
    ensures
        ({
            let s = significand(f);
            let w = pow2(halvings(f) as nat) as int;
            let p = ten_to(k);
            let n = in_places(f, k);
            &&& w > 0
            &&& p >= 1
            &&& n == (2 * s * p + w) / (2 * w)
            &&& 2 * w * n <= 2 * s * p + w < 2 * w * (n + 1)
            &&& 0 <= n
            &&& reads_back(f, k) == lies_near(n, s, w, p, float_bits::mag(f) % 2 == 0)
        }),
{
    let m = float_bits::mag(f);
    let t = float_round::doublings(m);
    let e = halvings(f) as nat;
    let s = significand(f);
    let x = pow2(t) as int;
    let w = pow2(e) as int;
    let u = float_math::unit();
    let p = ten_to(k);
    lemma_powers_of_ten(k);
    lemma_pow2_pos(t);
    lemma_pow2_pos(e);
    lemma_pow2_adds(t, e);
    assert(u == x * w);
    float_round::lemma_parts(m);
    float_round::lemma_multiple(t, s - 1);
    float_round::lemma_multiple(t, s + 1);
    let size = float_math::size(f);
    assert(size == s * x);
    let a = 2 * s * p + w;
    assert(a >= 0) by (nonlinear_arith)
        requires
            a == 2 * s * p + w,
            s > 0,
            p >= 1,
            w > 0,
    ;
    assert(2 * size * p + u == x * a) by (nonlinear_arith)
        requires
            size == s * x,
            u == x * w,
            a == 2 * s * p + w,
    ;
    assert(2 * u == x * (2 * w)) by (nonlinear_arith)
        requires
            u == x * w,
    ;
    lemma_div_multiples_vanish_quotient(x, a, 2 * w);
    let n = a / (2 * w);
    lemma_fundamental_div_mod(a, 2 * w);
    vstd::arithmetic::div_mod::lemma_div_pos_is_pos(a, 2 * w);
    assert(2 * w * (n + 1) == 2 * w * n + 2 * w) by (nonlinear_arith);
    let low = float_round::multiple(m - 1) + float_round::multiple(m);
    let high = float_round::multiple(m) + float_round::multiple(m + 1);
    assert(low == (2 * s - 1) * x && high == (2 * s + 1) * x) by (nonlinear_arith)
        requires
            low == (s - 1) * x + s * x,
            high == s * x + (s + 1) * x,
    ;
    let nn = 2 * n * w;
    let (lo, hi) = ((2 * s - 1) * p, (2 * s + 1) * p);
    assert(2 * (n * u) == x * nn) by (nonlinear_arith)
        requires
            u == x * w,
            nn == 2 * n * w,
    ;
    assert(low * p == x * lo) by (nonlinear_arith)
        requires
            low == (2 * s - 1) * x,
            lo == (2 * s - 1) * p,
    ;
    assert(high * p == x * hi) by (nonlinear_arith)
        requires
            high == (2 * s + 1) * x,
            hi == (2 * s + 1) * p,
    ;
    lemma_scaled_order(x, nn, lo);
    lemma_scaled_order(x, nn, hi);
}

proof fn lemma_scaled_order(x: int, a: int, b: int)
    requires
        x > 0,
    ensures
        x * a < x * b <==> a < b,
        x * a == x * b <==> a == b,
{
    assert((x * a < x * b <==> a < b) && (x * a == x * b <==> a == b)) by (nonlinear_arith)
        requires
            x > 0,
    ;
}

/// Places finer than the steps between floats read back.
proof fn lemma_fine_places(f: F64Bits, k: nat)
    requires
        small_fraction(f),
        ten_to(k) > pow2(halvings(f) as nat),
    ensures
        reads_back(f, k),
{
    lemma_by_significand(f, k);
    let s = significand(f);
    let w = pow2(halvings(f) as nat) as int;
    let p = ten_to(k);
    let n = in_places(f, k);
    assert((2 * s - 1) * p < 2 * n * w && 2 * n * w < (2 * s + 1) * p) by (nonlinear_arith)
        requires
            2 * w * n <= 2 * s * p + w,
            2 * s * p + w < 2 * w * (n + 1),
            w < p,
    ;
}

/// Two to the powers that a significand is divided by.
proof fn lemma_halvings(e: nat)
    requires
        56 <= e <= 66,
    ensures
        0x100_0000_0000_0000 <= pow2(e) <= 0x4_0000_0000_0000_0000,
{
    lemma2_to64();
    lemma2_to64_rest();
    lemma_pow2_adds(64, 2);
    if e > 56 {
        lemma_pow2_strictly_increases(56, e);
    }
    if e < 66 {
        lemma_pow2_strictly_increases(e, 66);
    }
}

/// Some number of places reads back.
proof fn lemma_places_exist(f: F64Bits)
    requires
        small_fraction(f),
    ensures
        needs_places(f, places(f)),
{
    lemma_halvings(halvings(f) as nat);
    assert(ten_to(20) == 100_000_000_000_000_000_000) by {
        reveal_with_fuel(ten_to, 21);
    }
    lemma_fine_places(f, 20);
    lemma_least_places(f, 20);
}

proof fn lemma_least_places(f: F64Bits, k: nat)
    requires
        reads_back(f, k),
    ensures
        exists|j: nat| needs_places(f, j),
    decreases k,
{
    if !needs_places(f, k) {
        let j = choose|j: nat| j < k && #[trigger] reads_back(f, j);
        lemma_least_places(f, j);
    }
}

/// A float needs only one number of places.
proof fn lemma_places_are(f: F64Bits, k: nat)
    requires
        needs_places(f, k),
    ensures
        places(f) == k,
{
    let j = places(f);
    assert(needs_places(f, j));
    if j < k {
        assert(!reads_back(f, j));
    } else if k < j {
        assert(!reads_back(f, k));
    }
}

/// Two to a power.
fn power_of_two(e: u64) -> (r: u128)
    requires
        e <= 66,
    ensures
        r == pow2(e as nat),
{
    let mut w: u128 = 1;
    let mut i: u64 = 0;
    proof {
        lemma2_to64();
        lemma2_to64_rest();
        lemma_pow2_adds(64, 2);
    }
    while i < e
        invariant
            i <= e <= 66,
            w == pow2(i as nat),
            pow2(66) == 0x4_0000_0000_0000_0000,
        decreases e - i,
    {
        proof {
            lemma_pow2_unfold((i + 1) as nat);
            lemma_pow2_strictly_increases(i as nat, 66);
        }
        w = w * 2;
        i = i + 1;
    }
    w
}

/// Writes a float in decimal, with the fewest places that read back as it.
pub fn write_fraction(f: F64Bits) -> (r: String)
    requires
        small_fraction(f),
    ensures
        r@ == fraction_text(f),
{
    proof {
        lemma2_to64();
        lemma2_to64_rest();
        lemma_pow2_adds(64, 2);
        lemma_halvings(halvings(f) as nat);
    }
    let t: u64 = f.0 / 0x10_0000_0000_0000 - 1;
    let s: u128 = (f.0 - t * 0x10_0000_0000_0000) as u128;
    let w: u128 = power_of_two(1074 - t);
    let even: bool = f.0 % 2 == 0;
    let mut k: u32 = 0;
    let mut p: u128 = 1;
    loop
        invariant
            small_fraction(f),
            s == significand(f),
            w == pow2(halvings(f) as nat),
            0x100_0000_0000_0000 <= w <= 0x4_0000_0000_0000_0000,
            s < 0x20_0000_0000_0000,
            even == (float_bits::mag(f) % 2 == 0),
            p == ten_to(k as nat),
            1 <= p <= 10 * w,
            forall|j: nat| j < k ==> !#[trigger] reads_back(f, j),
        decreases 20 * w - p,
    {
        proof {
            lemma_by_significand(f, k as nat);
            lemma_machine_sizes(s as int, w as int, p as int);
        }
        let n: u128 = (2 * s * p + w) / (2 * w);
        let x: u128 = 2 * n * w;
        let low: u128 = (2 * s - 1) * p;
        let high: u128 = (2 * s + 1) * p;
        if (x > low || (x == low && even)) && (x < high || (x == high && even)) {
            proof {
                assert(needs_places(f, k as nat));
                lemma_places_are(f, k as nat);
            }
            let mut out: String = "0.".to_owned();
            let digits: String = padded(n, k);
            out.append(digits.as_str());
            return out;
        }
        proof {
            if p > w {
                lemma_fine_places(f, k as nat);
            }
            if k >= 21 {
                lemma_powers_of_ten_ascend(21, k as nat);
                reveal_with_fuel(ten_to, 22);
            }
        }
        p = p * 10;
        k = k + 1;
    }
}

/// What is computed while places are tried fits the machine's integers.
proof fn lemma_machine_sizes(s: int, w: int, p: int)
    requires
        0 < s < 0x20_0000_0000_0000,
        0 < w <= 0x4_0000_0000_0000_0000,
        1 <= p <= 10 * w,
    ensures
        0 <= 2 * s * p <= 0x40_0000_0000_0000 * 0x28_0000_0000_0000_0000,
        0 <= (2 * s - 1) * p <= 2 * s * p,
        2 * s * p <= (2 * s + 1) * p <= 2 * s * p + 0x28_0000_0000_0000_0000,
        0 <= 2 * ((2 * s * p + w) / (2 * w)) * w <= 2 * s * p + w,
        0 <= (2 * s * p + w) / (2 * w) <= 2 * ((2 * s * p + w) / (2 * w)) <= 2 * s * p + w,
{
    let a = 2 * s * p + w;
    assert(0 <= 2 * s * p <= 0x40_0000_0000_0000 * 0x28_0000_0000_0000_0000) by (nonlinear_arith)
        requires
            0 < s < 0x20_0000_0000_0000,
            1 <= p <= 0x28_0000_0000_0000_0000,
    ;
    assert(0 <= (2 * s - 1) * p <= 2 * s * p && (2 * s + 1) * p == 2 * s * p + p) by (nonlinear_arith)
        requires
            s > 0,
            p >= 1,
    ;
    lemma_fundamental_div_mod(a, 2 * w);
    vstd::arithmetic::div_mod::lemma_div_pos_is_pos(a, 2 * w);
    let n = a / (2 * w);
    assert(2 * n * w == 2 * w * n) by (nonlinear_arith);
    assert(n <= 2 * n <= 2 * n * w) by (nonlinear_arith)
        requires
            n >= 0,
            w >= 1,
    ;
    assert(0 <= 2 * n * w) by (nonlinear_arith)
        requires
            n >= 0,
            w >= 1,
    ;
}

/// The digits of a fraction are so many as it has places.
proof fn lemma_digits_fit(f: F64Bits, k: nat)
    requires
        small_fraction(f),
    ensures
        0 <= in_places(f, k) < ten_to(k),
{
    lemma_by_significand(f, k);
    lemma_halvings(halvings(f) as nat);
    let s = significand(f);
    let w = pow2(halvings(f) as nat) as int;
    let p = ten_to(k);
    let n = in_places(f, k);
    assert(n < p) by (nonlinear_arith)
        requires
            2 * w * n <= 2 * s * p + w,
            s < 0x20_0000_0000_0000,
            w >= 0x100_0000_0000_0000,
            p >= 1,
    {
        assert(8 * s <= w);
        assert((8 * s) * p <= w * p);
        assert(w <= w * p);
        assert(2 * w * n <= w * p + w * p);
        if n >= p {
            assert(2 * w * n >= 2 * w * p);
            assert(4 * (2 * s * p) <= w * p);
            assert(w * p > 0);
        }
    }
}

/// Different small fractions are written differently.
pub proof fn law_fractions_are_written_apart(f: F64Bits, g: F64Bits)
    requires
        small_fraction(f),
        small_fraction(g),
        fraction_text(f) == fraction_text(g),
    ensures
        f == g,
{
    lemma_places_exist(f);
    lemma_places_exist(g);
    let (j, k) = (places(f), places(g));
    let (m, n) = (in_places(f, j), in_places(g, k));
    lemma_digits_fit(f, j);
    lemma_digits_fit(g, k);
    let (x, y) = (text::padded_text(m as nat, j), text::padded_text(n as nat, k));
    text::lemma_padded_length(m as nat, j);
    text::lemma_padded_length(n as nat, k);
    let lead = "0."@;
    assert((lead + x).len() == (lead + y).len());
    assert(x =~= (lead + x).skip(lead.len() as int));
    assert(y =~= (lead + y).skip(lead.len() as int));
    text::law_padding_is_injective(m as nat, n as nat, j);
    lemma_powers_of_ten(j);
    float_round::law_nearest_is_unique(
        m * float_math::unit(),
        ten_to(j),
        float_bits::mag(f),
        float_bits::mag(g),
    );
}

/// The float nearest to one unit of a decimal place is written as that.
pub proof fn lemma_single_unit(f: F64Bits, k: nat, s: int, w: int, r: int)
    requires
        small_fraction(f),
        1 <= k,
        s == significand(f),
        w == pow2(halvings(f) as nat),
        r == ten_to((k - 1) as nat),
        2 * s * r < w,
        (2 * s - 1) * (10 * r) < 2 * w < (2 * s + 1) * (10 * r),
    ensures
        fraction_text(f) == "0."@ + text::padded_text(1, k),
{
    let p = ten_to(k);
    lemma_by_significand(f, k);
    lemma_halvings(halvings(f) as nat);
    let n = in_places(f, k);
    lemma_powers_of_ten((k - 1) as nat);
    assert(p <= w) by (nonlinear_arith)
        requires
            p == 10 * r,
            2 * s * r < w,
            s > 0x10_0000_0000_0000,
            r >= 1,
    ;
    assert(n == 1) by (nonlinear_arith)
        requires
            2 * w * n <= 2 * s * p + w,
            2 * s * p + w < 2 * w * (n + 1),
            (2 * s - 1) * p < 2 * w,
            2 * w < (2 * s + 1) * p,
            p <= w,
            w > 0,
    {
        assert(2 * s * p < 2 * w + p);
        assert(2 * s * p > 2 * w - p);
        assert(2 * w * n < 4 * w);
        assert(2 * w * (n + 1) > 2 * w);
    }
    assert(2 * 1 * w == 2 * w);
    assert forall|j: nat| j < k implies !#[trigger] reads_back(f, j) by {
        lemma_by_significand(f, j);
        lemma_powers_of_ten_ascend(j, (k - 1) as nat);
        let q = ten_to(j);
        let m = in_places(f, j);
        assert(m == 0) by (nonlinear_arith)
            requires
                2 * w * m <= 2 * s * q + w,
                m >= 0,
                q <= r,
                2 * s * r < w,
                s > 0,
                w > 0,
        {
            assert(2 * s * q <= 2 * s * r);
        }
        assert((2 * s - 1) * q > 0) by (nonlinear_arith)
            requires
                s > 0,
                q >= 1,
        ;
        assert(2 * 0 * w == 0) by (nonlinear_arith);
    }
    lemma_places_are(f, k);
}

} // verus!
