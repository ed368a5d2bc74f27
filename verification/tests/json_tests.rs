use auth_server::jsonhandler::{map_from_json, JsonMap};

#[test]
fn json_reads_the_three_credential_keys() {
    let m = map_from_json(
        "{\"conn_id\": \"ab12\", \"hashid_sec\": \"ff00\", \"hashpw_sec\": \"1234\"}".to_string(),
    );
    assert_eq!(m.get("conn_id").map(|s| s.as_str()), Some("ab12"));
    assert_eq!(m.get("hashid_sec").map(|s| s.as_str()), Some("ff00"));
    assert_eq!(m.get("hashpw_sec").map(|s| s.as_str()), Some("1234"));
    assert!(m.get("other").is_none());
    assert!(!m.is_empty());
}

#[test]
fn json_later_pair_replaces_earlier() {
    let m = map_from_json("a:1,a:2".to_string());
    assert_eq!(m.get("a").map(|s| s.as_str()), Some("2"));
}

#[test]
fn json_pieces_without_colon_are_skipped() {
    let m = map_from_json("abc,def".to_string());
    assert!(m.is_empty());
}

#[test]
fn json_takes_first_and_last_part() {
    let m = map_from_json("a:b:c".to_string());
    assert_eq!(m.get("a").map(|s| s.as_str()), Some("c"));
    assert!(m.get("b").is_none());
}

#[test]
fn json_drops_punctuation_and_spaces() {
    let m = map_from_json("{ \"my_key\" : \"x-y z\" }".to_string());
    assert_eq!(m.get("my_key").map(|s| s.as_str()), Some("xyz"));
}

#[test]
fn json_empty_input_gives_empty_map() {
    assert!(map_from_json(String::new()).is_empty());
}

#[test]
fn json_map_insert_then_get() {
    let mut m = JsonMap::new();
    assert!(m.is_empty());
    m.insert("k".to_string(), "v1".to_string());
    m.insert("j".to_string(), "w".to_string());
    m.insert("k".to_string(), "v2".to_string());
    assert_eq!(m.get("k").map(|s| s.as_str()), Some("v2"));
    assert_eq!(m.get("j").map(|s| s.as_str()), Some("w"));
}
