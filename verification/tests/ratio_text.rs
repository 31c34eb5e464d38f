//! The fitness text as `{:.6}` prints the floating-point quotient.

use star_toml::merge::WinnerMap;
use star_toml::ratio::{fitness_millionths_exec, fixed6_text};

fn float_text(p: usize, r: usize) -> String {
    if r == 0 {
        format!("{:.6}", 1.0_f64)
    } else {
        format!("{:.6}", p as f64 / r as f64)
    }
}

#[test]
fn fixed6_rounds_the_double_not_the_exact_ratio() {
    // 1/640 is exactly 0.0015625; its nearest double lies just above it.
    assert_eq!(fixed6_text(1, 640), "0.001563");
}

#[test]
fn fixed6_ties_go_to_even() {
    // 1/128 = 0.0078125 is a double: an exact tie, kept at the even digit.
    assert_eq!(fixed6_text(1, 128), "0.007812");
    assert_eq!(fixed6_text(3, 128), "0.023438");
}

#[test]
fn fixed6_common_ratios() {
    assert_eq!(fixed6_text(1, 1), "1.000000");
    assert_eq!(fixed6_text(0, 0), "1.000000");
    assert_eq!(fixed6_text(0, 7), "0.000000");
    assert_eq!(fixed6_text(1, 2), "0.500000");
    assert_eq!(fixed6_text(1, 3), "0.333333");
    assert_eq!(fixed6_text(2, 3), "0.666667");
    assert_eq!(fixed6_text(7, 2), "3.500000");
    assert_eq!(fitness_millionths_exec(1, 4), 250000);
}

#[test]
fn fixed6_agrees_with_float_formatting() {
    let mut cases: Vec<(usize, usize)> = Vec::new();
    for r in 1..=700usize {
        for p in [0usize, 1, 2, 3, r / 3, r / 2, r.saturating_sub(1), r] {
            cases.push((p, r));
        }
    }
    let big = [
        (u64::MAX as usize, 1usize),
        (1, u64::MAX as usize),
        (u64::MAX as usize - 1, u64::MAX as usize),
        ((1usize << 53) + 1, 3),
        (12345678901234567, 98765432109876543),
        (999_999_999_999, 1_000_000_000_000),
        (1, 3_000_000),
        (5, 10_000_000),
    ];
    cases.extend_from_slice(&big);
    for (p, r) in cases {
        assert_eq!(fixed6_text(p, r), float_text(p, r), "p={} r={}", p, r);
    }
}

#[test]
fn winner_map_pairs_come_in_path_order() {
    let mut wm = WinnerMap::new();
    wm.insert("server.port".to_string(), "layer-1".to_string());
    wm.insert("app.name".to_string(), "layer-0".to_string());
    wm.insert("server.host".to_string(), "layer-0".to_string());
    wm.insert("app.name".to_string(), "env".to_string());
    let keys: Vec<&str> = wm.pairs().iter().map(|(k, _)| k.as_str()).collect();
    assert_eq!(keys, vec!["app.name", "server.host", "server.port"]);
    assert_eq!(wm.get("app.name").map(|s| s.as_str()), Some("env"));
    assert_eq!(wm.len(), 3);
}
