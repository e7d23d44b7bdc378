use scientific::{Precision, Rounding};
use scientific::Scientific;

fn p(s: &str) -> Scientific {
    Scientific::from_string(s.to_string()).unwrap()
}

#[test]
fn basic_truncate() {
    assert_eq!(
        &p("5453.23265346").truncate(Default::default()),
        &p("5453"),
    );
    assert_eq!(
        &p("5453.23265346").truncate(Precision::Decimals(-2)),
        &p("5400"),
    );
    assert_eq!(
        &p("5453.23265346").truncate(Precision::Decimals(2)),
        &p("5453.23"),
    );
    assert_eq!(
        &p("5453.23265346").truncate(Precision::Digits(2)),
        &p("5400"),
    );
}

#[test]
fn basic_round() {
    let tests: [(&str, Precision, &str); 7] = [
        ("5453.23265346", Precision::Digits(2), "5500"),
        ("5453.23265346", Precision::Digits(3), "5450"),
        ("5453.23265346", Precision::Decimals(-5), "0"),
        ("5453.23265346", Precision::Decimals(-4), "10000"),
        ("5453.23265346", Precision::Decimals(-3), "5000"),
        ("5453.23265346", Precision::Decimals(0), "5453"),
        ("5453.23265346", Precision::Decimals(3), "5453.233"),
    ];
    for (base, precision, result) in tests {
        assert_eq!(
            p(base).round(precision, Rounding::RoundHalfAwayFromZero),
            p(result),
        );
    }
}

#[test]
fn round_rpsp() {
    let tests: [(&str, Precision, &str); 29] = [
        ("0.00", Precision::Decimals(-1), "0"),
        ("0.01", Precision::Decimals(-1), "1"),
        ("0.10", Precision::Decimals(-1), "1"),
        ("20.00", Precision::Decimals(-1), "20"),
        ("20.01", Precision::Decimals(-1), "21"),
        ("20.10", Precision::Decimals(-1), "21"),
        ("20.90", Precision::Decimals(-1), "21"),
        ("21.00", Precision::Decimals(-1), "21"),
        ("21.50", Precision::Decimals(-1), "21"),
        ("21.90", Precision::Decimals(-1), "21"),
        ("22.00", Precision::Decimals(-1), "22"),
        ("22.50", Precision::Decimals(-1), "22"),
        ("22.90", Precision::Decimals(-1), "22"),
        ("23.00", Precision::Decimals(-1), "23"),
        ("23.50", Precision::Decimals(-1), "23"),
        ("23.90", Precision::Decimals(-1), "23"),
        ("24.00", Precision::Decimals(-1), "24"),
        ("24.50", Precision::Decimals(-1), "24"),
        ("24.90", Precision::Decimals(-1), "24"),
        ("25.00", Precision::Decimals(-1), "25"),
        ("25.01", Precision::Decimals(-1), "26"),
        ("25.10", Precision::Decimals(-1), "26"),
        ("25.90", Precision::Decimals(-1), "26"),
        ("26.00", Precision::Decimals(-1), "26"),
        ("26.50", Precision::Decimals(-1), "26"),
        ("26.90", Precision::Decimals(-1), "26"),
        ("29.00", Precision::Decimals(-1), "29"),
        ("29.50", Precision::Decimals(-1), "29"),
        ("29.90", Precision::Decimals(-1), "29"),
    ];
    for (base, precision, result) in tests {
        let rounded = p(base).round_rpsp(precision);
        assert_eq!(
            rounded,
            p(result),
            "{} {:?} => {} != {}",
            base,
            precision,
            result,
            rounded.to_display_string(),
        );
    }
}

#[test]
fn basic_raw_parts() {
    let n1 = Scientific::from_string("12.34e10".to_string()).unwrap();
    let n2 = Scientific::from_raw_parts(
        n1.is_sign_negative(),
        n1.as_raw_mantissa().to_vec(),
        n1.exponent(),
    );
    assert_eq!(Ok(n1), n2);
}

#[test]
fn test_make_writeable() {
    let n1 = Scientific::from_string("7.77777".to_string()).unwrap();
    let mut n2 = n1.round(Precision::Decimals(3), Rounding::RoundHalfAwayFromZero);
    let n3 = &n1 - &n2;
    assert_eq!(n3, Scientific::from_string("-0.00023".to_string()).unwrap());
    n2.round_assign(Precision::Decimals(2), Rounding::RoundHalfAwayFromZero);
    assert_eq!(n2, Scientific::from_string("7.78".to_string()).unwrap());
}
