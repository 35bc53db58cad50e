//! Numbers against the machine's own.

use vitals::binary64::Binary64;
use vitals::decimal::{push_fixed, read_real};
use vitals::numbers::{read_i32, read_i64, read_u64, read_u64_or_zero, read_usize};
use vitals::units::{human_bytes, human_rate, parse_duration, parse_size};

fn f(x: Binary64) -> f64 {
    f64::from_bits(x.to_bits())
}

fn b(x: f64) -> Binary64 {
    Binary64::from_bits(x.to_bits())
}

fn same(a: f64, b: f64) -> bool {
    (a.is_nan() && b.is_nan()) || a.to_bits() == b.to_bits()
}

fn chars(s: &str) -> Vec<char> {
    s.chars().collect()
}

fn next(seed: &mut u64) -> u64 {
    *seed = seed.wrapping_mul(6364136223846793005).wrapping_add(1442695040888963407);
    let x = *seed;
    (x >> 33) ^ (x << 20) ^ x
}

fn interesting() -> Vec<f64> {
    vec![
        0.0, -0.0, 1.0, -1.0, 0.5, 1.5, 2.5, 0.1, 0.25, 0.35, 3.0, 7.0, 10.0, 99.95, 100.0, 1000.0, 1024.0, 1e9, 1e15, 1e16,
        9007199254740991.0, 9007199254740992.0, 9007199254740993.0, 1.8446744073709552e19, 1e300, 1.7976931348623157e308,
        2.2250738585072014e-308, 2.225073858507201e-308, 5e-324, 1e-320, 1e-5, 0.0005, 0.05, 0.95, 0.9999, 12345.678,
        -12345.678, f64::INFINITY, f64::NEG_INFINITY, f64::NAN,
    ]
}

fn some_values() -> Vec<f64> {
    let mut v = interesting();
    let mut seed = 42u64;
    for _ in 0..120 {
        v.push(f64::from_bits(next(&mut seed)));
        v.push((next(&mut seed) % 1_000_000) as f64 / 1000.0);
        v.push(next(&mut seed) as f64);
    }
    v
}

#[test]
fn arithmetic_is_that_of_the_machine() {
    let v = some_values();
    let mut seed = 7u64;
    for &x in &v {
        for _ in 0..12 {
            let y = v[(next(&mut seed) as usize) % v.len()];
            assert!(same(f(b(x).times(&b(y))), x * y), "{} * {}", x, y);
            assert!(same(f(b(x).over(&b(y))), x / y), "{} / {}", x, y);
            assert_eq!(b(x).less(&b(y)), x < y, "{} < {}", x, y);
            assert_eq!(b(x).at_most(&b(y)), x <= y, "{} <= {}", x, y);
            if x.is_finite() && y.is_finite() && x.is_sign_positive() && y.is_sign_positive() {
                assert!(same(f(b(x).plus(&b(y))), x + y), "{} + {}", x, y);
            }
        }
        assert_eq!(b(x).nan(), x.is_nan());
        assert_eq!(b(x).finite(), x.is_finite());
        assert_eq!(b(x).to_u64(), x as u64, "{}", x);
        if x >= 0.0 {
            assert_eq!(b(x).round_to_u64(), x.round() as u64, "{}", x);
        }
        assert!(same(f(b(x).clamp(&b(0.0), &b(100.0))), x.clamp(0.0, 100.0)), "{}", x);
    }
}

#[test]
fn whole_numbers_convert_as_on_the_machine() {
    let mut seed = 3u64;
    let mut v = vec![0, 1, 2, 9007199254740991, 9007199254740992, 9007199254740993, u64::MAX, u64::MAX - 1, 1 << 63];
    for _ in 0..300 {
        let n = next(&mut seed);
        v.push(n >> (n % 64));
    }
    for n in v {
        assert_eq!(f(Binary64::from_u64(n)), n as f64);
        assert_eq!(f(Binary64::from_i64(n as i64)), (n as i64) as f64);
        let big = (n as u128) * (n as u128);
        assert_eq!(f(Binary64::from_u128(big)), big as f64);
    }
}

#[test]
fn reading_reals_agrees_with_the_machine() {
    let texts = [
        "", ".", "-", "+", "e", "e5", "1", "-1", "+1", "1.", ".5", "-.5", "1.5e3", "1e-3", "1E+3", "1e", "1e+", "1.5.2",
        "0x10", "1_000", " 1", "1 ", "inf", "-inf", "+INF", "Infinity", "infinit", "nan", "NaN", "-nan", "nanx", "1e400",
        "1e-400", "0e999999999999999999999", "1e99999999999999999999", "1e-99999999999999999999", "123456789012345678901234567890",
        "0.000000000000000000000000000000000000000000001", "179769313486231570000e289", "4.9e-324", "2.4703282292062327e-324",
        "2.4703282292062328e-324", "2.2250738585072011e-308", "9007199254740993", "9007199254740992.999", "0.1", "0.3",
        "1.7976931348623159e308", "80", "90.5", "\u{663}", "1e5f", "00012", "1e0005",
    ];
    for t in texts {
        let got = read_real(&chars(t)).map(f);
        let want = t.parse::<f64>().ok();
        match (got, want) {
            (Some(a), Some(c)) => assert!(same(a, c), "{:?}: {} and {}", t, a, c),
            (None, None) => {}
            _ => panic!("{:?}: {:?} and {:?}", t, got, want),
        }
    }
    for x in some_values() {
        for t in [format!("{}", x), format!("{:e}", x), format!("{:.17e}", x)] {
            let got = f(read_real(&chars(&t)).unwrap());
            assert!(same(got, t.parse().unwrap()), "{}", t);
        }
    }
}

#[test]
fn writing_reals_agrees_with_the_machine() {
    let mut v = some_values();
    let mut i = 0u32;
    while i < 400 {
        v.push(i as f64 / 8.0);
        v.push(i as f64 / 2000.0);
        i += 1;
    }
    for x in v {
        for p in 0..4u64 {
            let mut out = String::from(">");
            push_fixed(&mut out, &b(x), p);
            assert_eq!(out, format!(">{:.*}", p as usize, x));
        }
    }
}

#[test]
fn reading_integers_agrees_with_the_machine() {
    let texts = [
        "", "+", "-", "0", "-0", "+0", "7", "+7", "-7", "--7", "+-7", "007", "18446744073709551615", "18446744073709551616",
        "2147483647", "2147483648", "-2147483648", "-2147483649", "9223372036854775807", "9223372036854775808",
        "-9223372036854775808", "-9223372036854775809", "1x", "x1", " 1", "1 ", "1.0", "\u{663}",
    ];
    for t in texts {
        let c = chars(t);
        assert_eq!(read_u64(&c), t.parse::<u64>().ok(), "{:?}", t);
        assert_eq!(read_u64_or_zero(&c), t.parse::<u64>().unwrap_or(0), "{:?}", t);
        assert_eq!(read_usize(&c), t.parse::<usize>().ok(), "{:?}", t);
        assert_eq!(read_i32(&c), t.parse::<i32>().ok(), "{:?}", t);
        assert_eq!(read_i64(&c), t.parse::<i64>().ok(), "{:?}", t);
    }
}

fn expected_bytes(n: u64) -> String {
    let units = ["B", "K", "M", "G", "T", "P"];
    if n < 1024 {
        return format!("{}B", n);
    }
    let mut v = n as f64;
    let mut i = 0;
    while v >= 1024.0 && i < 5 {
        v /= 1024.0;
        i += 1;
    }
    if v >= 100.0 {
        format!("{:.0}{}", v, units[i])
    } else {
        format!("{:.1}{}", v, units[i])
    }
}

#[test]
fn byte_counts_are_shortened_at_every_scale() {
    let mut seed = 11u64;
    for shift in 0..64 {
        let n = 1u64 << shift;
        for m in [n, n - 1, n + 1, n + n / 2, next(&mut seed) >> (63 - shift)] {
            assert_eq!(human_bytes(m), expected_bytes(m));
        }
    }
    assert_eq!(human_bytes(102400), "100K");
    assert_eq!(human_bytes(u64::MAX), "16384P");
}

#[test]
fn rates_below_one_byte_are_a_dash() {
    assert_eq!(human_rate(&b(0.0)), "-");
    assert_eq!(human_rate(&b(0.999)), "-");
    assert_eq!(human_rate(&b(1.0)), "1B/s");
    assert_eq!(human_rate(&b(1536.9)), "1.5K/s");
    assert_eq!(human_rate(&b(-5.0)), "-");
    assert_eq!(human_rate(&b(f64::NAN)), "0B/s");
    assert_eq!(human_rate(&b(f64::INFINITY)), "16384P/s");
}

#[test]
fn sizes_and_durations_take_every_suffix() {
    let k = 1024u64;
    for (text, want) in [
        ("3", Some(3)), ("3B", Some(3)), ("3K", Some(3 * k)), ("3KB", Some(3 * k)), ("3M", Some(3 * k * k)),
        ("3MB", Some(3 * k * k)), ("3G", Some(3 * k * k * k)), ("3GB", Some(3 * k * k * k)), (" 3 MB ", Some(3 * k * k)),
        ("0.5K", Some(512)), ("1e3", Some(1000)), ("inf", Some(u64::MAX)), ("nan", Some(0)), ("-0", Some(0)),
        ("99999999999999999999", Some(u64::MAX)), ("3TB", None), ("B", None), ("", None), ("3 K B", None), ("-1", None),
    ] {
        assert_eq!(parse_size(text), want, "{:?}", text);
    }
    for (text, want) in [
        ("1500ms", Some(1_500_000_000u128)), ("1.5s", Some(1_500_000_000)), ("2m", Some(120_000_000_000)),
        ("1h", Some(3_600_000_000_000)), ("0s", Some(0)), ("0.0004s", Some(0)), (" 7 s", Some(7_000_000_000)),
        ("inf", Some(u64::MAX as u128 * 1_000_000)), ("-1s", None), ("s", None), ("", None), ("5d", None), ("5 min", None),
    ] {
        assert_eq!(parse_duration(text).map(|d| d.nanos), want, "{:?}", text);
    }
}
