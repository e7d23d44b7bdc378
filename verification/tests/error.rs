use scientific::Error;
use scientific::Precision;
use scientific::Scientific;

#[test]
fn error() {
    // DivisionByZero
    assert_eq!(
        Scientific::from_string("100".to_string())
            .unwrap()
            .div_truncate(
                &Scientific::from_string("0".to_string()).unwrap(),
                Precision::integer()
            ),
        Err(Error::DivisionByZero)
    );
    // NumberIsNegative
    assert_eq!(
        Scientific::from_string("-1".to_string())
            .unwrap()
            .sqrt_truncate(Precision::integer()),
        Err(Error::NumberIsNegative)
    );

    // text
    assert_eq!(Error::DivisionByZero.message(), "Division by zero");
    assert_eq!(Error::NumberIsNegative.message(), "Number is negative");
}
