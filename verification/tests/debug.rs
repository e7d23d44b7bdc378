use scientific::Scientific;

#[test]
fn debug_display() {
    for number in ["0", "5e-1", "5", "-5", "555", "555e2"] {
        assert_eq!(
            Scientific::from_string(number.to_string()).map(|x| x.to_debug_string()),
            Ok(number.to_string())
        );
    }
}
