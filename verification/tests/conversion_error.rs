use scientific::{ConversionError, Scientific};

fn pc(s: &str) -> Result<Scientific, ConversionError> {
    Scientific::from_string(s.to_string())
}

#[test]
fn conversion_error() {
    // NumberTooLarge
    assert_eq!(
        pc("500").unwrap().to_i8(),
        Err(ConversionError::NumberTooLarge)
    );
    assert_eq!(
        pc("-500").unwrap().to_i8(),
        Err(ConversionError::NumberTooLarge)
    );
    // NumberTooLarge
    assert_eq!(
        pc("500").unwrap().to_u8(),
        Err(ConversionError::NumberTooLarge)
    );

    // ParseError
    assert_eq!(
        Scientific::from_raw_parts(false, vec![15], 0),
        Err(ConversionError::ParseError)
    );
    assert_eq!(pc(""), Err(ConversionError::ParseError));
    assert_eq!(pc("-"), Err(ConversionError::ParseError));
    assert_eq!(pc("@"), Err(ConversionError::ParseError));
    assert_eq!(pc("5@"), Err(ConversionError::ParseError));
    assert_eq!(pc("5e"), Err(ConversionError::ParseError));
    assert_eq!(pc("5e@"), Err(ConversionError::ParseError));
    assert_eq!(pc("."), Err(ConversionError::ParseError));

    // NumberIsNegative
    assert_eq!(
        pc("-50").unwrap().to_u8(),
        Err(ConversionError::NumberIsNegative)
    );

    // NumberIsNotAnInteger
    assert_eq!(
        pc("55.55").unwrap().to_u8(),
        Err(ConversionError::NumberIsNotAnInteger)
    );
    assert_eq!(
        pc("55.55").unwrap().to_i8(),
        Err(ConversionError::NumberIsNotAnInteger)
    );

    // deserialization error
    for bytes in [
        vec![0x3c],
        vec![0x3d],
        vec![0x3d, 0x00],
        vec![0x3e],
        vec![0x3f],
        vec![0x00, 0xff, 0xc0], // value "1023" (3 digits), "0" (1 digit), 0b00 padding
        vec![0x00, 0xff],       // value "15" (1 digit), "15" (1 digit)
        vec![0x00, 0x1e, 0xc1], // value "123" (3 digits), "0" (1 digit), 0b01 padding
        vec![0x00],             // len==0
        vec![0x00, 0x18, 0xc0], // *data==0: value "099" (3 digits), "0" (1 digit), 0b00 padding
        vec![0x00, 0x7d, 0x00], // trailing zeroes: value "500" (3 digits), "0" (1 digit), 0b00 padding
    ] {
        assert_eq!(
            Scientific::from_bytes(&bytes),
            Err(ConversionError::ParseError)
        );
    }

    // text
    assert_eq!(
        ConversionError::FloatIsNotFinite.message(),
        "Float is not finite"
    );
    assert_eq!(ConversionError::NumberTooLarge.message(), "Number too large");
    assert_eq!(ConversionError::ParseError.message(), "Parse error");
    assert_eq!(
        ConversionError::NumberIsNegative.message(),
        "Number is negative"
    );
    assert_eq!(
        ConversionError::NumberIsNotAnInteger.message(),
        "Number is not an integer"
    );
    assert_eq!(
        ConversionError::ExponentTooLargeForThisPlatform.message(),
        "Exponent is too large for this platform"
    );
}
