use boros_mm::float_bits::F64Bits;
use boros_mm::keys::map_keys;
use boros_mm::text::{chars_of, decimal, has_prefix, parse_i128, parse_u64, same_text};
use std::collections::HashMap;

fn bits(v: f64) -> F64Bits {
    F64Bits(v.to_bits())
}

const SAMPLES: [f64; 14] = [
    f64::NEG_INFINITY,
    -1e300,
    -2.5,
    -1.0,
    -1e-310,
    -0.0,
    0.0,
    1e-310,
    0.25,
    1.0,
    2.5,
    1e300,
    f64::INFINITY,
    f64::NAN,
];

#[test]
fn floats_compare_by_their_bits_as_they_do_by_value() {
    for a in SAMPLES {
        for b in SAMPLES {
            assert_eq!(bits(a).is_less(bits(b)), a < b, "{a} < {b}");
            assert_eq!(bits(a).is_equal(bits(b)), a == b, "{a} == {b}");
            assert_eq!(bits(a).is_at_most(bits(b)), a <= b, "{a} <= {b}");
            assert_eq!(bits(a).total_less(bits(b)), a.total_cmp(&b).is_lt(), "{a} before {b}");
            if !a.is_nan() && !b.is_nan() && a != b {
                assert_eq!(bits(a).lesser(bits(b)), bits(a.min(b)));
                assert_eq!(bits(a).greater(bits(b)), bits(a.max(b)));
            }
        }
        assert_eq!(bits(a).is_nan(), a.is_nan());
        assert_eq!(bits(a).is_finite(), a.is_finite());
        assert_eq!(bits(a).abs(), bits(a.abs()));
    }
    assert_eq!(bits(f64::NAN).lesser(bits(1.0)), bits(1.0));
    assert_eq!(bits(1.0).greater(bits(f64::NAN)), bits(1.0));
}

#[test]
fn counts_cut_off_fractions_and_saturate() {
    for v in [0.0, 0.99, 1.0, 1.5, 255.999, 4294967295.0, 4294967295.5, 4294967296.0, 1e300, -1.0, f64::NAN] {
        assert_eq!(bits(v).to_count(), v as u32, "{v}");
    }
    assert_eq!(bits(f64::INFINITY).to_count(), u32::MAX);
}

#[test]
fn integers_are_made_of_floats_as_the_hardware_does() {
    for v in numbers() {
        assert_eq!(bits(v).truncated(), v as i128, "{v}");
        assert_eq!(bits(v).rounded_integer(), v.round() as i128, "{v}");
        assert_eq!(bits(v).floored(), v.floor() as i128, "{v}");
        assert_eq!(bits(v).raised(), v.ceil() as i128, "{v}");
        assert_eq!(bits(v).to_long_count(), v as u64, "{v}");
        assert_eq!(bits(v).to_count(), v as u32, "{v}");
    }
}

/// A fixed sequence of bit patterns.
fn patterns(count: usize) -> Vec<u64> {
    let mut x: u64 = 0x9e37_79b9_7f4a_7c15;
    let mut out = Vec::new();
    for _ in 0..count {
        x ^= x << 13;
        x ^= x >> 7;
        x ^= x << 17;
        out.push(x);
    }
    out
}

/// Ordinary numbers, edges and bit patterns of every exponent.
fn numbers() -> Vec<f64> {
    let mut out = SAMPLES.to_vec();
    for v in [
        0.5, 1.5, 2.5, 0.49999999999999994, 3.0, 1e18, 1e-18, 0.1, 0.2, 0.3, 1.00005, 4294967295.5, 9007199254740993.0,
        1.7e38, 1.8e38, 3.5e38, 1e20, 1e30, 123456.789, f64::MAX, f64::MIN_POSITIVE, f64::EPSILON,
        f64::from_bits(1), f64::from_bits(0x000f_ffff_ffff_ffff), i128::MAX as f64,
    ] {
        out.push(v);
        out.push(-v);
    }
    for p in patterns(120) {
        out.push(f64::from_bits(p));
        // Near one, so that sums and products meet.
        out.push(f64::from_bits((p & 0x800f_ffff_ffff_ffff) | ((1000 + (p >> 52) % 48) << 52)));
    }
    out
}

fn same(a: F64Bits, b: f64) -> bool {
    if b.is_nan() {
        a.is_nan()
    } else {
        a == bits(b)
    }
}

#[test]
fn arithmetic_rounds_as_the_hardware_does() {
    let all = numbers();
    for &a in &all {
        for &b in &all {
            assert!(same(bits(a).plus(bits(b)), a + b), "{a:e} + {b:e}");
            assert!(same(bits(a).minus(bits(b)), a - b), "{a:e} - {b:e}");
            assert!(same(bits(a).times(bits(b)), a * b), "{a:e} * {b:e}");
            assert!(same(bits(a).over(bits(b)), a / b), "{a:e} / {b:e}");
        }
        assert!(same(bits(a).square_root(), a.sqrt()), "root of {a:e}");
        assert!(same(bits(a).opposite(), -a), "-{a:e}");
    }
}

#[test]
fn whole_numbers_round_to_the_nearest_float() {
    let mut all = vec![0i128, 1, -1, i128::MAX, i128::MIN, (1 << 53) + 1, (1 << 54) + 2, (1 << 54) + 6, u64::MAX as i128];
    for p in patterns(60) {
        all.push(p as i128);
        all.push((p as i128) * -(0x1234_5678_9abc_def1 >> (p % 60)));
        all.push(((p as i128) << 63) | (p >> (p % 64)) as i128);
    }
    for v in all {
        assert_eq!(F64Bits::of(v), bits(v as f64), "{v}");
    }
}

#[test]
fn unsigned_text_reads_as_the_standard_parser_does() {
    for s in ["0", "7", "+7", "007", "18446744073709551615", "18446744073709551616", "", "+", "-1", "1 ", "1a", "٣"] {
        assert_eq!(parse_u64(s), s.parse::<u64>().ok(), "{s:?}");
    }
}

#[test]
fn signed_text_reads_as_the_standard_parser_does() {
    for s in [
        "0",
        "-0",
        "+12",
        "-12",
        "170141183460469231731687303715884105727",
        "170141183460469231731687303715884105728",
        "-170141183460469231731687303715884105728",
        "-170141183460469231731687303715884105729",
        "",
        "-",
        "+-1",
        "1.0",
    ] {
        assert_eq!(parse_i128(s), s.parse::<i128>().ok(), "{s:?}");
    }
}

#[test]
fn decimal_text_reads_back() {
    for n in [0u32, 1, 9, 10, 999, 1000, u32::MAX] {
        assert_eq!(decimal(n), n.to_string());
        assert_eq!(parse_u64(&decimal(n)), Some(n as u64));
    }
}

#[test]
fn texts_compare_by_their_characters() {
    assert!(same_text("pong", "pong"));
    assert!(!same_text("pong", "pong "));
    assert!(has_prefix("tickers.BTC", "tickers."));
    assert!(!has_prefix("ticker", "tickers."));
    assert!(has_prefix("x", ""));
    assert_eq!(chars_of("aé"), vec!['a', 'é']);
}

#[test]
fn keys_are_listed_once_each() {
    let mut m: HashMap<u32, bool> = HashMap::new();
    m.insert(3, true);
    m.insert(1, false);
    m.insert(3, false);
    let mut keys = map_keys(&m);
    keys.sort();
    assert_eq!(keys, vec![1, 3]);
}

#[test]
fn arithmetic_keeps_order() {
    let mut all: Vec<f64> = numbers().into_iter().filter(|v| v.is_finite()).collect();
    all.sort_by(f64::total_cmp);
    for pair in all.windows(2) {
        let (a, b) = (bits(pair[0]), bits(pair[1]));
        for k in [0.1, 1.0, 3.0, 1e18] {
            assert!(a.times(bits(k)).is_at_most(b.times(bits(k))));
            assert!(a.over(bits(k)).is_at_most(b.over(bits(k))));
            assert!(a.plus(bits(k)).is_at_most(b.plus(bits(k))));
            assert!(b.opposite().is_at_most(a.opposite()));
        }
        assert!(a.rounded_integer() <= b.rounded_integer());
        assert!(a.floored() <= b.floored());
        assert!(a.raised() <= b.raised());
        if b.plus(b).is_finite() && a.plus(a).is_finite() {
            let mean = a.plus(b).over(bits(2.0));
            assert!(a.is_at_most(mean) && mean.is_at_most(b), "mean of {} and {}", pair[0], pair[1]);
        }
    }
}

#[test]
fn small_whole_numbers_are_exact() {
    for v in [0i128, 1, 2, 3, 4_294_967_295, (1 << 53) - 1] {
        assert_eq!(F64Bits::of(v).truncated(), v);
        assert_eq!(F64Bits::of(-v), if v == 0 { bits(0.0) } else { F64Bits::of(v).opposite() });
    }
}
