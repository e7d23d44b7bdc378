use scientific::Precision;

#[test]
fn precision() {
    // digits, add/sub
    assert_eq!(Precision::Digits(1).plus(5), Precision::Digits(6));
    assert_eq!(Precision::Digits(5).minus(1), Precision::Digits(4));
    // digits, reassigned
    let mut p = Precision::Digits(1);
    p = p.plus(5);
    assert_eq!(p, Precision::Digits(6));
    let mut p = Precision::Digits(5);
    p = p.minus(1);
    assert_eq!(p, Precision::Digits(4));
    // decimals, add/sub
    assert_eq!(Precision::Decimals(1).plus(5), Precision::Decimals(6));
    assert_eq!(Precision::Decimals(5).minus(1), Precision::Decimals(4));
    // decimals, reassigned
    let mut p = Precision::Decimals(1);
    p = p.plus(5);
    assert_eq!(p, Precision::Decimals(6));
    let mut p = Precision::Decimals(5);
    p = p.minus(1);
    assert_eq!(p, Precision::Decimals(4));
}
