use scientific::{Precision, Rounding, Scientific};

fn pp(s: &str) -> Scientific {
    Scientific::from_string(s.to_string()).unwrap()
}

#[test]
fn infinite_precision_addition() {
    assert_eq!(
        &pp("1e100") + &pp("1e80"),
        pp("1.00000000000000000001e100")
    );
}

#[test]
fn textual_forms() {
    assert_eq!(pp("0.05").to_display_string(), "0.05");
    assert_eq!(pp("555").to_display_string(), "555");
    assert_eq!(pp("555.555666").to_display_string(), "555.555666");
    assert_eq!(pp("4.555555666").to_display_string(), "4.555555666");
}

#[test]
fn rpsp_examples() {
    // the digit before the cut decides: 2 is neither 0 nor 5, but 5 is
    assert_eq!(pp("22.5").round_rpsp(Precision::Decimals(-1)), pp("22"));
    assert_eq!(pp("25.5").round_rpsp(Precision::Decimals(-1)), pp("26"));
}

#[test]
fn wire_format_tiny() {
    assert_eq!(pp("1.234").to_bytes(), vec![0x7D, 0x1E, 0xD0]);
    assert_eq!(Scientific::from_bytes(&[0x7D, 0x1E, 0xD0]), Ok(pp("1.234")));
}

#[test]
fn wire_format_large_exponent() {
    assert_eq!(pp("1.234e101").to_bytes(), vec![0x3C, 0x62, 0x1E, 0xD0]);
    assert_eq!(
        Scientific::from_bytes(&[0x3C, 0x62, 0x1E, 0xD0]),
        Ok(pp("1.234e101"))
    );
}

#[test]
fn wire_round_trip() {
    for s in [
        "0", "1", "-1", "1.234", "-1.234", "123.4e9", "1.234e11", "123.4e99", "1.234e101",
        "123456789123456789", "5e-324", "99999", "-0.00001",
    ] {
        let v = pp(s);
        assert_eq!(Scientific::from_bytes(&v.to_bytes()), Ok(v));
    }
}

#[test]
fn debug_round_trip() {
    for s in [
        "0", "1", "-1", "1.234", "-1.234", "123.4e9", "55.5e-99", "12345678901234567890",
    ] {
        let v = pp(s);
        assert_eq!(
            Scientific::from_string(v.to_debug_string()),
            Ok(v.clone()),
            "round trip of {s}"
        );
    }
}

#[test]
fn arithmetic_identities() {
    for s in ["0", "5", "-5", "123.456", "-9.87e50"] {
        let v = pp(s);
        let zero = pp("0");
        let one = pp("1");
        assert_eq!(&v + &zero, v, "adding zero");
        assert_eq!(&v - &v, zero, "subtracting itself");
        assert_eq!(&v * &zero, zero, "times zero");
        assert_eq!(&v * &one, v, "times one");
        assert_eq!(v.powi(0), one, "to the zeroth power");
    }
    assert_eq!(pp("0").powi(5), pp("0"), "zero to a positive power");
}

#[test]
fn commutativity() {
    let values = ["0", "5", "-5", "123.456", "-9.87e50", "0.00012"];
    for a in values {
        for b in values {
            let (a, b) = (pp(a), pp(b));
            assert_eq!(&a + &b, &b + &a, "addition commutes");
            assert_eq!(&a * &b, &b * &a, "multiplication commutes");
        }
    }
}

#[test]
fn shift_laws() {
    for s in ["0", "5", "-123.456"] {
        for k in [0isize, 1, 5] {
            let v = pp(s);
            assert_eq!(v.shl(k).shr(k), v, "shift round trip");
            let p = pp(&format!("1e{k}"));
            assert_eq!(&v * &p, v.shl(k), "shift is a power of ten");
        }
    }
}

#[test]
fn precision_clamp() {
    for s in ["12345.6789", "9.999", "0.00055"] {
        for n in [1isize, 2, 3, 8] {
            let v = pp(s);
            assert!(v.truncate(Precision::Digits(n)).len() <= n);
            assert!(v.round(Precision::Digits(n), Rounding::RoundHalfUp).len() <= n);
        }
    }
}

#[test]
fn square_roots() {
    for k in [0i128, 1, 2, 3, 10, 111, 10000, 123456] {
        let v = Scientific::from_i128(k * k);
        assert_eq!(
            v.sqrt_truncate(Precision::Decimals(0)),
            Ok(Scientific::from_i128(k)),
            "exact root of {}",
            k * k
        );
        assert_eq!(
            v.sqrt_rpsp(Precision::Decimals(1))
                .map(|r| r.truncate(Precision::Decimals(0))),
            Ok(Scientific::from_i128(k)),
            "rpsp root of {}",
            k * k
        );
    }
}

#[test]
fn division_law() {
    let values = [-17i128, -3, 0, 5, 12];
    for a in values {
        for b in values {
            if b == 0 {
                continue;
            }
            let (sa, sb) = (Scientific::from_i128(a), Scientific::from_i128(b));
            let (q, r) = sa.div_rem(&sb).unwrap();
            assert_eq!(&(&q * &sb) + &r, sa, "division identity for {a}/{b}");
            assert!(r.abs().partial_cmp(&sb.abs()) == Some(std::cmp::Ordering::Less));
            assert!(r.is_zero() || r.is_sign_negative() == (a < 0));
        }
    }
}

#[test]
fn digit_precision_division_truncates() {
    // 509/100 to two digits is 5.0, not the 5.1 rounding would give
    let q = pp("509")
        .div_truncate(&pp("100"), Precision::Digits(2))
        .unwrap();
    assert_eq!(q, pp("5"));
    let q = pp("509")
        .div_truncate(&pp("100"), Precision::Decimals(1))
        .unwrap();
    assert_eq!(q, pp("5"));
    let q = pp("1")
        .div_truncate(&pp("3"), Precision::Digits(5))
        .unwrap();
    assert_eq!(q, pp("0.33333"));
    let q = pp("2")
        .div_truncate(&pp("3"), Precision::Decimals(4))
        .unwrap();
    assert_eq!(q, pp("0.6666"));
}

#[test]
fn raw_mantissa_of_zero() {
    let z = pp("0");
    assert_eq!(z.as_raw_mantissa(), &[0u8]);
    // rebuilding zero from its raw parts returns zero
    let back = Scientific::from_raw_parts(
        z.is_sign_negative(),
        z.as_raw_mantissa().to_vec(),
        z.exponent(),
    );
    assert_eq!(back, Ok(z));
}

#[test]
fn integer_widths() {
    let v = pp("65535");
    assert_eq!(v.to_u16(), Ok(65535u16));
    assert_eq!(pp("65536").to_u16(), Err(scientific::ConversionError::NumberTooLarge));
    assert_eq!(pp("-1").to_u32(), Err(scientific::ConversionError::NumberIsNegative));
    assert_eq!(pp("4294967295").to_u32(), Ok(4294967295u32));
    assert_eq!(pp("18446744073709551615").to_u64(), Ok(u64::MAX));
    assert_eq!(
        pp("340282366920938463463374607431768211455").to_u128(),
        Ok(u128::MAX)
    );
    assert_eq!(Scientific::from_u128(u128::MAX).to_u128(), Ok(u128::MAX));
    assert_eq!(pp("-32768").to_i16(), Ok(i16::MIN));
    assert_eq!(pp("-32769").to_i16(), Err(scientific::ConversionError::NumberTooLarge));
    assert_eq!(Scientific::from_u64(12345).to_usize(), Ok(12345usize));
    assert_eq!(Scientific::from_isize(-7).to_isize(), Ok(-7isize));
    assert_eq!(Scientific::from_u16(500).to_i128(), Ok(500i128));
    assert_eq!(Scientific::from_i8(-128).to_i8(), Ok(i8::MIN));
}

#[test]
fn exponent_at_machine_margin() {
    // a written exponent just inside the machine word parses and prints back
    let v = pp("5e9223372036854775806");
    assert_eq!(v.exponent(), 9223372036854775806isize);
    assert_eq!(v.to_debug_string(), "5e9223372036854775806");
}

#[test]
fn operator_shift_and_precision_arithmetic() {
    let v = Scientific::from_string("1.5".to_string()).unwrap();
    let up = &v << 3isize;
    assert_eq!(up.exponent(), v.exponent() + 3);
    let back = &up >> 3isize;
    assert_eq!(back, v);
    assert_eq!(Precision::Digits(5) + 2isize, Precision::Digits(7));
    assert_eq!(Precision::Decimals(5) - 3isize, Precision::Decimals(2));
}
