use scientific::parse::parse_scientific;
use scientific::sci::sci_zero;
use scientific::Scientific;

// what the constant-literal expander emits: the reduced raw parts, wrapped
// into an unchecked constructor call
fn expand_literal(lit: &str) -> Scientific {
    match parse_scientific(lit).unwrap() {
        None => sci_zero(),
        Some((mantissa, exponent)) => {
            Scientific::unchecked_non_zero_static_new(false, &mantissa, exponent)
        }
    }
}

#[test]
fn test_macro() {
    for (sci, string) in [
        (expand_literal("0"), "0"),
        (expand_literal("5"), "5"),
        (expand_literal("50"), "50"),
        (expand_literal("6_000"), "6000"),
        (expand_literal("0.23"), "0.23"),
        // ensure that the expansion is not limited to float precision
        (
            expand_literal("1.0000000000000000000000000000001"),
            "1.0000000000000000000000000000001",
        ),
    ] {
        assert_eq!(sci.to_display_string(), string);
    }
}
