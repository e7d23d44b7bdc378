use scientific::{Precision, Rounding, Scientific};

fn pr(s: &str) -> Scientific {
    Scientific::from_string(s.to_string()).unwrap()
}

#[test]
fn round_round() {
    let test = [
        pr("-1.7"),
        pr("-1.5"),
        pr("-1.3"),
        pr("-0.7"),
        pr("-0.5"),
        pr("-0.3"),
        pr("0.3"),
        pr("0.5"),
        pr("0.7"),
        pr("1.3"),
        pr("1.5"),
        pr("1.7"),
    ];

    let table: [(Rounding, [&str; 12]); 10] = [
        (
            Rounding::RoundDown,
            ["-2", "-2", "-2", "-1", "-1", "-1", "0", "0", "0", "1", "1", "1"],
        ),
        (
            Rounding::RoundUp,
            ["-1", "-1", "-1", "0", "0", "0", "1", "1", "1", "2", "2", "2"],
        ),
        (
            Rounding::RoundTowardsZero,
            ["-1", "-1", "-1", "0", "0", "0", "0", "0", "0", "1", "1", "1"],
        ),
        (
            Rounding::RoundAwayFromZero,
            ["-2", "-2", "-2", "-1", "-1", "-1", "1", "1", "1", "2", "2", "2"],
        ),
        (
            Rounding::RoundHalfDown,
            ["-2", "-2", "-1", "-1", "-1", "0", "0", "0", "1", "1", "1", "2"],
        ),
        (
            Rounding::RoundHalfUp,
            ["-2", "-1", "-1", "-1", "0", "0", "0", "1", "1", "1", "2", "2"],
        ),
        (
            Rounding::RoundHalfTowardsZero,
            ["-2", "-1", "-1", "-1", "0", "0", "0", "0", "1", "1", "1", "2"],
        ),
        (
            Rounding::RoundHalfAwayFromZero,
            ["-2", "-2", "-1", "-1", "-1", "0", "0", "1", "1", "1", "2", "2"],
        ),
        (
            Rounding::RoundHalfToEven,
            ["-2", "-2", "-1", "-1", "0", "0", "0", "0", "1", "1", "2", "2"],
        ),
        (
            Rounding::RoundHalfToOdd,
            ["-2", "-1", "-1", "-1", "-1", "0", "0", "1", "1", "1", "1", "2"],
        ),
    ];
    for (rounding, results) in table {
        for (t, r) in test.iter().zip(results) {
            assert_eq!(
                t.round(Precision::integer(), rounding),
                pr(r),
                "while rounding {rounding:?} {}",
                t.to_display_string()
            );
        }
    }
}
