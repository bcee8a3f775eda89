use dttools::codec::{cell_ref, column_name_to_number, column_number_to_name, to_a1};

#[test]
fn column_names() {
    assert_eq!(column_number_to_name(1).unwrap(), "A");
    assert_eq!(column_number_to_name(26).unwrap(), "Z");
    assert_eq!(column_number_to_name(27).unwrap(), "AA");
    assert_eq!(column_number_to_name(28).unwrap(), "AB");
    assert_eq!(column_number_to_name(51).unwrap(), "AY");
    assert_eq!(column_number_to_name(702).unwrap(), "ZZ");
    assert_eq!(column_number_to_name(703).unwrap(), "AAA");
    assert_eq!(column_number_to_name(18278).unwrap(), "ZZZ");
    assert!(column_number_to_name(0).is_none());
}

#[test]
fn addresses() {
    assert_eq!(to_a1(28, 4).unwrap(), "AB4");
    assert_eq!(to_a1(1, 1).unwrap(), "A1");
    assert_eq!(to_a1(9, 120).unwrap(), "I120");
    assert!(to_a1(0, 3).is_none());
    assert_eq!(cell_ref(7, 6), "G6");
    assert_eq!(cell_ref(15, 10), "O10");
}

#[test]
fn column_round_trip() {
    for n in 1..=18278u32 {
        let name = column_number_to_name(n).unwrap();
        assert_eq!(column_name_to_number(&name), Some(n));
    }
}

#[test]
fn column_names_rejected() {
    assert_eq!(column_name_to_number(""), None);
    assert_eq!(column_name_to_number("a"), None);
    assert_eq!(column_name_to_number("A1"), None);
    assert_eq!(column_name_to_number("ZZZZZZZZ"), None);
    assert_eq!(column_name_to_number("AB"), Some(28));
}
