use scientific::{Precision, Rounding};
use scientific::Scientific;

fn pn(s: &str) -> Scientific {
    Scientific::from_string(s.to_string()).unwrap()
}

#[test]
fn mod_truncate() {
    assert_eq!(
        &pn("5453.23265346").truncate(Default::default()),
        &pn("5453"),
    );
    assert_eq!(
        &pn("5453.23265346").truncate(Precision::Decimals(-2)),
        &pn("5400"),
    );
    assert_eq!(
        &pn("5453.23265346").truncate(Precision::Decimals(2)),
        &pn("5453.23"),
    );
    assert_eq!(
        &pn("5453.23265346").truncate(Precision::Digits(2)),
        &pn("5400"),
    );
}

#[test]
fn mod_round() {
    assert_eq!(
        pn("5453.23265346").round(Precision::Digits(2), Rounding::RoundHalfAwayFromZero),
        pn("5500"),
    );
    assert_eq!(
        pn("5453.23265346").round(Precision::Digits(3), Rounding::RoundHalfAwayFromZero),
        pn("5450"),
    );
    assert_eq!(
        pn("5453.23265346").round(Precision::Decimals(0), Rounding::RoundHalfAwayFromZero),
        pn("5453"),
    );
    assert_eq!(
        pn("5453.23265346").round(Precision::Decimals(3), Rounding::RoundHalfAwayFromZero),
        pn("5453.233"),
    );
}

#[test]
fn mod_raw_parts() {
    let n1 = Scientific::from_string("12.34e10".to_string()).unwrap();
    let n2 = Scientific::from_raw_parts(
        n1.is_sign_negative(),
        n1.as_raw_mantissa().to_vec(),
        n1.exponent(),
    );
    assert_eq!(Ok(n1), n2);
}
