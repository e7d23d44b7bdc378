use scientific::Scientific;

#[test]
fn display_display() {
    for number in [
        "0",
        "0.5",
        "0.05",
        "555",
        "-555",
        "555.555",
        "555.555666",
        "4.555555666",
    ] {
        assert_eq!(
            Scientific::from_string(number.to_string()).map(|x| x.to_display_string()),
            Ok(number.to_string())
        );
    }
}
