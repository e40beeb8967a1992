use criterion_report::format::iter_count;
use criterion_report::number_syntax::parses_as_float;

/// The count as the floating-point formatting writes it.
fn iter_count_by_floats(iterations: u64) -> String {
    if iterations < 10_000 {
        format!("{} iterations", iterations)
    } else if iterations < 1_000_000 {
        format!("{:.0}k iterations", (iterations as f64) / 1000.0)
    } else if iterations < 10_000_000 {
        format!("{:.1}M iterations", (iterations as f64) / (1000.0 * 1000.0))
    } else if iterations < 1_000_000_000 {
        format!("{:.0}M iterations", (iterations as f64) / (1000.0 * 1000.0))
    } else if iterations < 10_000_000_000 {
        format!(
            "{:.1}B iterations",
            (iterations as f64) / (1000.0 * 1000.0 * 1000.0)
        )
    } else {
        format!(
            "{:.0}B iterations",
            (iterations as f64) / (1000.0 * 1000.0 * 1000.0)
        )
    }
}

#[test]
fn iter_count_examples() {
    assert_eq!(iter_count(0), "0 iterations");
    assert_eq!(iter_count(9_999), "9999 iterations");
    assert_eq!(iter_count(10_000), "10k iterations");
    assert_eq!(iter_count(123_456), "123k iterations");
    assert_eq!(iter_count(999_999), "1000k iterations");
    assert_eq!(iter_count(1_000_000), "1.0M iterations");
    assert_eq!(iter_count(1_250_000), "1.2M iterations");
    assert_eq!(iter_count(1_350_000), "1.4M iterations");
    assert_eq!(iter_count(4_750_000), "4.8M iterations");
    assert_eq!(iter_count(2_250_000), "2.2M iterations");
    assert_eq!(iter_count(12_500_000), "12M iterations");
    assert_eq!(iter_count(13_500_000), "14M iterations");
    assert_eq!(iter_count(5_000_000_000), "5.0B iterations");
    assert_eq!(iter_count(u64::MAX), "18446744074B iterations");
}

#[test]
fn iter_count_matches_floating_point_formatting() {
    let mut samples: Vec<u64> = Vec::new();
    for exp in 0..20u32 {
        let base = 10u64.pow(exp);
        for k in [1u64, 2, 3, 5, 7, 9, 10, 11, 15, 25, 45, 95, 99] {
            if let Some(v) = base.checked_mul(k) {
                samples.push(v);
                samples.push(v.saturating_sub(1));
                samples.push(v.saturating_add(1));
                samples.push(v / 2);
                samples.push(v + v / 20);
            }
        }
    }
    // Values whose last shown digit is a tie, and values above 2^53.
    for v in [
        1_050_000u64,
        2_250_000,
        4_750_000,
        1_750_000_000,
        6_250_000_000,
        8_750_000_000,
        1_150_000,
        1_250_000,
        2_450_000,
        9_950_000,
        10_500_000,
        11_500_000,
        500_500,
        1_500,
        1_050_000_000,
        1_250_000_000,
        9_999_999_999,
        10_500_000_000,
        9_007_199_254_740_993,
        18_446_744_073_709_551_615,
        18_000_000_000_500_000_000,
    ] {
        samples.push(v);
    }
    let mut x: u64 = 0x9E37_79B9_7F4A_7C15;
    for _ in 0..20_000 {
        x ^= x << 13;
        x ^= x >> 7;
        x ^= x << 17;
        samples.push(x >> (x % 60));
    }
    for v in samples {
        assert_eq!(iter_count(v), iter_count_by_floats(v), "for {}", v);
    }
}

#[test]
fn float_syntax_matches_the_standard_parser() {
    let cases = [
        "0", "1", "-1", "+1", "1.", ".5", "-.5", "1.5e3", "1e-3", "1E+3", "e3", "1e", "1e+",
        ".", "-", "+", "", " 1", "1 ", "inf", "-inf", "+Infinity", "INF", "infinity", "infin",
        "nan", "NaN", "-nan", "nAn", "1.2.3", "1e3.5", "0x10", "1_000", "１", "5e999",
        "12345678901234567890", "-0.0", "1.e5", ".e5", "1..2", "inFinITY", "+-1",
    ];
    for case in cases.iter() {
        assert_eq!(
            parses_as_float(case),
            case.parse::<f64>().is_ok(),
            "for {:?}",
            case
        );
    }
}
