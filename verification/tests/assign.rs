use scientific::Scientific;

fn pa(s: &str) -> Scientific {
    Scientific::from_string(s.to_string()).unwrap()
}

#[test]
fn assign() {
    for sci in [pa("-5"), pa("2"), pa("2356.223"), pa("23456e44")] {
        let mut a = sci.clone();
        a.neg_assign();
        let b = sci.neg();
        assert_eq!(a, b, "neg");

        let mut a = sci.clone();
        a.abs_assign();
        let b = sci.abs();
        assert_eq!(a, b, "abs");

        let mut a = sci.clone();
        a.shl_assign(1);
        let b = sci.shl(1);
        assert_eq!(a, b, "shl");

        let mut a = sci.clone();
        a.shr_assign(2);
        let b = sci.shr(2);
        assert_eq!(a, b, "shr");
    }
}
