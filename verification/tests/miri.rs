use scientific::{Error, Precision, Scientific};

fn msci_to_f64(v: &Scientific) -> f64 {
    v.to_debug_string().parse::<f64>().unwrap()
}

fn msci_from_f64(f: f64) -> Result<Scientific, ()> {
    if f.is_finite() {
        Ok(Scientific::from_string(format!("{f:e}")).unwrap())
    } else {
        Err(())
    }
}

fn mdiff(sci_a: &Scientific, sci_b: &Scientific, flt: f64, sci: &Result<Scientific, Error>) -> f64 {
    match sci {
        Err(_) => {
            if flt.is_finite() {
                1.0
            } else {
                0.0
            }
        }
        Ok(sci) => {
            if flt.is_infinite() && msci_to_f64(sci).is_infinite() {
                0.0
            } else {
                match msci_from_f64(flt) {
                    Err(_) => 1.0,
                    Ok(flt) => {
                        let max_exp = sci
                            .exponent1()
                            .max(sci_a.exponent1())
                            .max(sci_b.exponent1());
                        let n1 = sci.shr(max_exp);
                        let n2 = flt.shr(max_exp);
                        msci_to_f64(&(&n1 - &n2).abs())
                    }
                }
            }
        }
    }
}

fn mtest_float(numbers: &[f64], exponents: &[i32]) {
    let numbers = numbers
        .iter()
        .map(|n| (*n, Scientific::from_string(format!("{n:e}")).unwrap()))
        .collect::<Vec<(f64, Scientific)>>();
    for (flt_a, sci_a) in numbers.iter() {
        for (flt_b, sci_b) in numbers.iter() {
            let d = mdiff(sci_a, sci_b, flt_a + flt_b, &Ok(sci_a + sci_b));
            assert!(d < 2e-15_f64, "add({flt_a}, {flt_b}); diff: {d:e}");
            let d = mdiff(sci_a, sci_b, flt_a - flt_b, &Ok(sci_a - sci_b));
            assert!(d < 2e-15_f64, "sub({flt_a}, {flt_b}); diff: {d:e}");
            let d = mdiff(sci_a, sci_b, flt_a * flt_b, &Ok(sci_a * sci_b));
            assert!(d < 2e-15_f64, "mul({flt_a}, {flt_b}); diff: {d:e}");
            let d = mdiff(
                sci_a,
                sci_b,
                flt_a / flt_b,
                &sci_a.div_truncate(sci_b, Precision::Digits(16)),
            );
            assert!(d < 2e-15_f64, "div({flt_a}, {flt_b}); diff: {d:e}");
        }
        for int_b in exponents {
            let d = mdiff(
                sci_a,
                sci_a,
                flt_a.powi(*int_b),
                &Ok(sci_a.powi(*int_b as usize)),
            );
            assert!(d < 5e-15_f64, "powi({flt_a}, {int_b}); diff: {d:e}");
        }
        let d = mdiff(
            sci_a,
            sci_a,
            flt_a.sqrt(),
            &sci_a.sqrt_rpsp(Precision::Digits(16)),
        );
        assert!(d < 2e-15_f64, "sqrt({flt_a}); diff: {d:e}");
    }
}

fn mtest_integer(numbers: &[i128], sqrt_decimals: isize) {
    let numbers = numbers
        .iter()
        .map(|n| (*n, Scientific::from_i128(*n)))
        .collect::<Vec<(i128, Scientific)>>();
    for (int_a, sci_a) in numbers.iter() {
        for (int_b, sci_b) in numbers.iter() {
            assert_eq!(
                Scientific::from_i128(int_a + int_b),
                sci_a + sci_b,
                "add({int_a}, {int_b})"
            );
            assert_eq!(
                Scientific::from_i128(int_a - int_b),
                sci_a - sci_b,
                "sub({int_a}, {int_b})"
            );
            assert_eq!(
                Scientific::from_i128(int_a * int_b),
                sci_a * sci_b,
                "mul({int_a}, {int_b})"
            );
            if *int_b != 0 {
                assert_eq!(
                    Ok(Scientific::from_i128(int_a / int_b)),
                    sci_a.div_truncate(sci_b, Precision::integer()),
                    "div({int_a}, {int_b})"
                );
                assert_eq!(
                    Ok(Scientific::from_i128(int_a % int_b)),
                    sci_a.div_rem(sci_b).map(|(_, r)| r),
                    "rem({int_a}, {int_b})"
                );
            }
        }
        if *int_a >= 0 {
            let squared = sci_a * sci_a;
            assert_eq!(
                Ok(sci_a.clone()),
                squared.sqrt_truncate(Precision::Decimals(sqrt_decimals)),
                "sqrt({})",
                int_a * int_a
            );
        }
    }
}

#[test]
fn miri() {
    mtest_float(&[-4.33333333, 0., 1., 3., 7.5], &[0, 2]);
    mtest_integer(&[-4, 0, 1, 3, 7], 3);
}
