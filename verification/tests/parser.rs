use scientific::parse::parse_scientific;

#[test]
fn test() {
    for (source, expected) in [
        // empty mantissa is an error
        ("", Err(())),
        // zero
        ("0", Ok(None)),
        ("00", Ok(None)),
        ("0.0", Ok(None)),
        ("0e7", Ok(None)),
        // single digit result
        ("6", Ok(Some((vec![6], 0)))),
        ("60", Ok(Some((vec![6], 1)))),
        ("060", Ok(Some((vec![6], 1)))),
        ("0.060", Ok(Some((vec![6], -2)))),
        // exponents
        ("6e1", Ok(Some((vec![6], 1)))),
        ("6e+1", Ok(Some((vec![6], 1)))),
        ("6e-1", Ok(Some((vec![6], -1)))),
        ("0.060e2", Ok(Some((vec![6], 0)))),
        ("0.050E-2", Ok(Some((vec![5], -4)))),
        // invalid numbers
        ("5e3e9", Err(())),
        ("5e3.9", Err(())),
        ("5.3.9", Err(())),
        ("x", Err(())),
        ("hello.world", Err(())),
        // spacer
        ("6_000", Ok(Some((vec![6], 3)))),
        ("70.06", Ok(Some((vec![7, 0, 0, 6], -2)))),
        ("8_0.0_6", Ok(Some((vec![8, 0, 0, 6], -2)))),
    ] {
        assert_eq!(
            parse_scientific(source),
            expected,
            "parsing of \"{}\"",
            source
        );
    }
}
