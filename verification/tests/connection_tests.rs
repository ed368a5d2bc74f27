use auth_server::connection::{content_needs_reread, ConnectionHandler, Reply};
use auth_server::consts::html;
use auth_server::hash::hash_str;
use auth_server::htmlhandle::{construct_request_object, Request};

const SEC: u64 = 1_000_000_000;

fn buf(s: &str) -> [u8; 1024] {
    let mut b = [0u8; 1024];
    b[..s.len()].copy_from_slice(s.as_bytes());
    b
}

fn request(text: &str) -> Request {
    construct_request_object(&buf(text))
}

fn token(id: &str) -> String {
    format!("{:x}", hash_str(format!("{}{}{}", html::ID_HASH, html::PW_HASH, id)))
}

fn digest(secret: &str, id: &str) -> String {
    format!("{:x}", hash_str(format!("{}{}", secret, id)))
}

fn handler(valid: &[&str], auth: &[(&str, u64)]) -> ConnectionHandler {
    let mut h = ConnectionHandler::new();
    for v in valid {
        h.validIDs.push(v.to_string());
    }
    for (a, t) in auth {
        h.authIDs.push((a.to_string(), *t));
    }
    h
}

#[test]
fn issued_token_authenticates_once() {
    let mut h = handler(&["abc"], &[("abc", 5), ("zzz", 6)]);
    let r = request(&format!("GET /abc/{} HTTP/1.1\r\n\r\n", token("abc")));
    assert!(h.check_authentication(&r));
    assert_eq!(h.authIDs, vec![("zzz".to_string(), 6)]);
    assert_eq!(h.IDs_toremove, vec!["abc".to_string()]);
    assert!(!h.check_authentication(&r));
}

#[test]
fn wrong_token_does_not_authenticate() {
    let mut h = handler(&[], &[("abc", 5)]);
    let r = request("GET /abc/1234 HTTP/1.1\r\n\r\n");
    assert!(!h.check_authentication(&r));
    let r = request(&format!("GET /abd/{} HTTP/1.1\r\n\r\n", token("abc")));
    assert!(!h.check_authentication(&r));
    let r = request("GET /abc HTTP/1.1\r\n\r\n");
    assert!(!h.check_authentication(&r));
    assert_eq!(h.authIDs.len(), 1);
    assert!(h.IDs_toremove.is_empty());
}

fn credentials_post(id: &str, idh: &str, pwh: &str) -> Request {
    let body = format!("{{\"conn_id\":\"{}\",\"hashid_sec\":\"{}\",\"hashpw_sec\":\"{}\"}}", id, idh, pwh);
    request(&format!("POST / HTTP/1.1\r\nContent-Length: {}\r\n\r\n{}", body.len(), body))
}

#[test]
fn credentials_accepted_for_valid_id() {
    let mut h = handler(&["x1", "id42"], &[]);
    let r = credentials_post("id42", &digest(html::ID_HASH, "id42"), &digest(html::PW_HASH, "id42"));
    assert!(h.check_credentials(&r));
    assert_eq!(h.IDs_toremove, vec!["id42".to_string()]);
}

#[test]
fn credentials_refused_on_wrong_proof_or_unknown_id() {
    let mut h = handler(&["id42"], &[]);
    let r = credentials_post("id42", &digest(html::ID_HASH, "id42"), "00");
    assert!(!h.check_credentials(&r));
    let r = credentials_post("id42", "00", &digest(html::PW_HASH, "id42"));
    assert!(!h.check_credentials(&r));
    let r = credentials_post("id43", &digest(html::ID_HASH, "id43"), &digest(html::PW_HASH, "id43"));
    assert!(!h.check_credentials(&r));
    assert_eq!(h.IDs_toremove.len(), 3);
}

#[test]
fn empty_body_gives_zero_credentials() {
    let h = handler(&[], &[]);
    let c = h.get_credentials("{}".to_string());
    assert_eq!((c.conn_id.as_str(), c.hashid_sec.as_str(), c.hashpw_sec.as_str()), ("0", "0", "0"));
    assert!(h.try_get_credentials("{\"conn_id\":\"a\"}".to_string()).is_none());
}

#[test]
fn authenticate_grants_connection() {
    let mut h = handler(&["id42"], &[]);
    let r = credentials_post("id42", &digest(html::ID_HASH, "id42"), &digest(html::PW_HASH, "id42"));
    assert!(h.authenticate(&r, "newid".to_string(), 77));
    assert_eq!(h.authIDs, vec![("newid".to_string(), 77)]);
    assert!(h.is_auth("newid"));
    assert!(!h.is_auth("id42"));
}

#[test]
fn authenticate_refused_leaves_auth_alone() {
    let mut h = handler(&["id42"], &[]);
    let r = credentials_post("id42", "1", "2");
    assert!(!h.authenticate(&r, "newid".to_string(), 77));
    assert!(h.authIDs.is_empty());
    assert_eq!(h.IDs_toremove, vec!["id42".to_string()]);
}

#[test]
fn try_authenticate_on_unreadable_credentials() {
    let mut h = handler(&[], &[]);
    let r = request("POST / HTTP/1.1\r\n\r\n{\"a\":\"b\"}");
    assert_eq!(h.try_authenticate(&r, "n".to_string(), 1), None);
    assert!(h.IDs_toremove.is_empty());
    let r = request("POST / HTTP/1.1\r\n\r\n{}");
    assert_eq!(h.try_authenticate(&r, "n".to_string(), 1), Some(false));
    assert_eq!(h.IDs_toremove, vec!["0".to_string()]);
}

#[test]
fn expired_authentications_are_dropped() {
    let mut h = handler(&[], &[("old", 0), ("edge", 20 * SEC), ("new", 100 * SEC)]);
    let dropped = h.cleanup_auth_ids(200 * SEC);
    assert_eq!(dropped, vec!["old".to_string()]);
    assert_eq!(h.authIDs, vec![("edge".to_string(), 20 * SEC), ("new".to_string(), 100 * SEC)]);
    let dropped = h.cleanup_auth_ids(200 * SEC + 1);
    assert_eq!(dropped, vec!["edge".to_string()]);
    assert!(h.cleanup_auth_ids(200 * SEC + 1).is_empty());
}

#[test]
fn remaining_seconds_of_authentications() {
    let h = handler(&[], &[("a", 0), ("b", 50 * SEC), ("c", 500 * SEC)]);
    let rem = h.auth_ids_remaining(200 * SEC + 5);
    assert_eq!(rem, vec![("a".to_string(), 0), ("b".to_string(), 30), ("c".to_string(), 180)]);
}

#[test]
fn cleanup_makes_room_and_drains() {
    let mut h = handler(&["a", "b", "c", "d", "e"], &[("a", 1), ("c", 2)]);
    h.IDs_toremove.push("c".to_string());
    h.IDs_toremove.push("zz".to_string());
    let logged = h.cleanup_valid_ids();
    assert_eq!(h.validIDs, vec!["a".to_string(), "d".to_string(), "e".to_string()]);
    assert_eq!(h.authIDs, vec![("a".to_string(), 1)]);
    assert!(h.IDs_toremove.is_empty());
    assert_eq!(logged, vec!["c".to_string()]);
}

#[test]
fn cleanup_below_limit_keeps_valid_ids() {
    let mut h = handler(&["a", "b"], &[]);
    assert!(h.cleanup_valid_ids().is_empty());
    assert_eq!(h.validIDs.len(), 2);
}

#[test]
fn cleanup_keeps_authenticated_at_limit() {
    let mut h = handler(&["a", "b", "c", "d", "e"], &[("a", 1), ("b", 1), ("c", 1), ("d", 1), ("e", 1)]);
    h.cleanup_valid_ids();
    assert_eq!(h.validIDs.len(), 5);
}

#[test]
fn post_replies_with_id_or_fail() {
    let mut h = handler(&[], &[]);
    let mut r = request("POST /x HTTP/1.1\r\n\r\nhello");
    match h.handle_request(&mut r, "myid", true) {
        Reply::Text(t) => assert_eq!(t, "myid"),
        Reply::File => panic!("expected text"),
    }
    assert_eq!(r.content, "hello");
    let mut r = request("POST /x HTTP/1.1\r\n\r\nhello");
    match h.handle_request(&mut r, "myid", false) {
        Reply::Text(t) => assert_eq!(t, "FAIL"),
        Reply::File => panic!("expected text"),
    }
}

#[test]
fn logout_schedules_removal() {
    let mut h = handler(&["id7"], &[("id7", 1)]);
    let mut r = request("GET /id7/logout HTTP/1.1\r\n\r\n");
    assert!(matches!(h.handle_request(&mut r, "other", false), Reply::File));
    assert_eq!(h.IDs_toremove, vec!["id7".to_string()]);
    assert_eq!(r.info.html_path, html::LOGIN_HTML_PATH);
    let logged = h.cleanup_valid_ids();
    assert_eq!(logged, vec!["id7".to_string()]);
    assert!(h.validIDs.is_empty());
}

#[test]
fn reread_needed_for_post_without_alphanumerics() {
    assert!(content_needs_reread(&request("POST / HTTP/1.1\r\n\r\n")));
    assert!(!content_needs_reread(&request("POST / HTTP/1.1\r\n\r\nx")));
    assert!(!content_needs_reread(&request("GET / HTTP/1.1\r\n\r\n")));
}

#[test]
fn handled_request_content_loses_nul_ends() {
    let mut h = handler(&[], &[]);
    let mut r = request("PUT / HTTP/1.1\r\n\r\n");
    r.content = "\0\0a\0b\0\0".to_string();
    assert!(matches!(h.handle_request(&mut r, "i", false), Reply::File));
    assert_eq!(r.content, "a\0b");
    r.content = "\0\0".to_string();
    h.handle_request(&mut r, "i", false);
    assert_eq!(r.content, "");
}
