use symcount::ToString;

#[test]
fn empty_vec_returns_empty_string() {
    assert!(*"" == Vec::new().to_string());
}

#[test]
fn only_one_element_returns_that_element() {
    assert_eq!(
        String::from("first"),
        vec![String::from("first")].to_string()
    );
}

#[test]
fn multiple_elements_get_joined_by_comma_and_space() {
    assert_eq!(
        String::from("first, second"),
        vec![String::from("first"), String::from("second")].to_string()
    );
    assert_eq!(
        String::from("first, second, third"),
        vec![
            String::from("first"),
            String::from("second"),
            String::from("third")
        ]
        .to_string()
    );
}

#[test]
fn empty_parts_keep_their_separators() {
    assert_eq!(
        String::from(", "),
        vec![String::new(), String::new()].to_string()
    );
}
