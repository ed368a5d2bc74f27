use auth_server::hash::hash_str;

#[test]
fn hash_of_empty_string_is_initial_value() {
    assert_eq!(hash_str(String::new()), 37);
}

#[test]
fn hash_of_one_and_two_characters() {
    assert_eq!(hash_str("a".to_string()), 7302388);
    assert_eq!(hash_str("ab".to_string()), 394767335066);
}

#[test]
fn hash_wraps_on_long_input() {
    let h = hash_str("74b2f64c6a240abc".to_string());
    assert_eq!(format!("{:x}", h), "1a1fc30077f4083c");
}

#[test]
fn hash_is_order_sensitive() {
    assert_ne!(hash_str("ab".to_string()), hash_str("ba".to_string()));
}
