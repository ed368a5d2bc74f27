use auth_server::consts::html;
use auth_server::htmlhandle::{
    construct_request_object, get_content, get_content_len, get_http_action_from_command,
    get_request_command, handle_get_request, try_construct_request_object, try_get_content,
    try_get_content_len, try_get_request_command, validate_request, HtmlGetAction, Request,
    RequestType,
};

fn buf(s: &str) -> [u8; 1024] {
    let mut b = [0u8; 1024];
    b[..s.len()].copy_from_slice(s.as_bytes());
    b
}

#[test]
fn command_is_second_word_of_first_line() {
    let b = buf("GET /index/page HTTP/1.1\r\nHost: x\r\n\r\n");
    assert_eq!(get_request_command(&b), "/index/page");
}

#[test]
fn command_without_slash_is_empty() {
    let b = buf("GET index HTTP/1.1\r\n\r\n");
    assert_eq!(get_request_command(&b), "");
}

#[test]
fn command_missing_word_is_none() {
    let b = buf("GET\r\n\r\n");
    assert_eq!(try_get_request_command(&b), None);
    let b = buf("GET /a HTTP/1.1\r\n");
    assert_eq!(try_get_request_command(&b), Some("/a".to_string()));
}

#[test]
fn command_words_split_on_any_whitespace() {
    let b = buf("POST\t\t/x  y\n");
    assert_eq!(get_request_command(&b), "/x");
}

#[test]
fn validate_get_post_and_invalid() {
    let info = validate_request(buf("GET / HTTP/1.1\r\n\r\n"));
    assert_eq!(info._type, RequestType::GET);
    assert_eq!(info.command, "/");
    assert_eq!(info.status_code, html::OK_STATUS_CODE);
    assert_eq!(info.html_path, html::INVALID_HTML_PATH);
    assert_eq!(info.credentials.conn_id, "");

    let info = validate_request(buf("POST /login HTTP/1.1\r\n\r\n"));
    assert_eq!(info._type, RequestType::POST);
    assert_eq!(info.command, "/login");

    let info = validate_request(buf("PUT /x HTTP/1.1\r\n\r\n"));
    assert_eq!(info._type, RequestType::INVALID);
    assert_eq!(info.command, "");
    assert_eq!(info.status_code, html::INVALID_STATUS_CODE);
}

#[test]
fn content_length_read_from_header() {
    let b = buf("POST / HTTP/1.1\r\nContent-Length: 5\r\n\r\nhello");
    assert_eq!(get_content_len(&b), 5);
    let b = buf("POST / HTTP/1.1\r\nContent-Length: +12\r\n\r\nhello");
    assert_eq!(get_content_len(&b), 12);
}

#[test]
fn content_length_absent_is_zero() {
    let b = buf("GET / HTTP/1.1\r\n\r\n");
    assert_eq!(get_content_len(&b), 0);
}

#[test]
fn content_length_unreadable_is_none() {
    assert_eq!(try_get_content_len(&buf("POST / HTTP/1.1\r\nContent-Length: x\r\n\r\n")), None);
    assert_eq!(try_get_content_len(&buf("POST / HTTP/1.1\r\nX-Content-Length: 3\r\n\r\n")), None);
    assert_eq!(try_get_content_len(&buf("POST / HTTP/1.1\r\nContent-Length:\r\n\r\n")), None);
    assert_eq!(
        try_get_content_len(&buf("POST / HTTP/1.1\r\nContent-Length: 99999999999999999999999\r\n\r\n")),
        None
    );
    assert_eq!(try_get_content_len(&buf("POST / HTTP/1.1\r\nContent-Length: 7\r\n\r\n")), Some(7));
}

#[test]
fn content_is_block_after_blank_line() {
    let text = "POST / HTTP/1.1\r\nContent-Length: 5\r\n\r\nhello";
    let b = buf(text);
    let c = get_content(&b);
    assert_eq!(c.len(), 1024 - text.len() + 5);
    assert!(c.starts_with("hello"));
    assert_eq!(c.trim_matches('\0'), "hello");
}

#[test]
fn content_stops_after_next_blank_line() {
    let b = buf("POST / HTTP/1.1\r\n\r\nab\r\n\r\ncd");
    assert_eq!(get_content(&b), "ab\r\n\r\n");
}

#[test]
fn content_shorter_than_declared_is_empty() {
    let b = buf("POST / HTTP/1.1\r\nContent-Length: 2000\r\n\r\nhello");
    assert_eq!(get_content(&b), "");
}

#[test]
fn content_without_blank_line_is_none() {
    assert_eq!(try_get_content(&[0u8; 1024]), None);
    let mut full = [b'a'; 1024];
    full[..18].copy_from_slice(b"GET / HTTP/1.1\r\n\r\n");
    assert_eq!(try_get_content(&full), Some("a".repeat(1024 - 18)));
}

#[test]
fn request_object_for_get_and_invalid() {
    let r = construct_request_object(&buf("GET /a HTTP/1.1\r\n\r\nbody"));
    assert_eq!(r.info._type, RequestType::GET);
    assert_eq!(r.info.command, "/a");
    assert_eq!(r.content.trim_matches('\0'), "body");

    let r = construct_request_object(&buf("HELLO\r\n\r\nbody"));
    assert_eq!(r.info._type, RequestType::INVALID);
    assert_eq!(r.info.command, html::INVALID_STATUS_CODE);
    assert_eq!(r.content, "");
}

#[test]
fn try_request_object_refuses_unreadable() {
    assert!(try_construct_request_object(&buf("GET\r\n\r\n")).is_none());
    assert!(try_construct_request_object(&buf("GET / HTTP/1.1")).is_none());
    assert!(try_construct_request_object(&buf("junk")).is_some());
}

fn get_request(command: &str) -> Request {
    let text = format!("GET {} HTTP/1.1\r\n\r\n", command);
    construct_request_object(&buf(&text))
}

#[test]
fn actions_from_commands() {
    let mut r = get_request("/");
    assert_eq!(get_http_action_from_command(&mut r), HtmlGetAction::LoginPage);
    let mut r = get_request("/a/b/c");
    assert_eq!(get_http_action_from_command(&mut r), HtmlGetAction::SubPage);
    let mut r = get_request("/a/b");
    assert_eq!(get_http_action_from_command(&mut r), HtmlGetAction::Index);
    let mut r = get_request("/a");
    assert_eq!(get_http_action_from_command(&mut r), HtmlGetAction::Index);
    let mut r = get_request("index");
    assert_eq!(get_http_action_from_command(&mut r), HtmlGetAction::InvalidPage);
}

#[test]
fn logout_records_alphanumeric_id() {
    let mut r = get_request("/ab-c1_/x/logout");
    assert_eq!(get_http_action_from_command(&mut r), HtmlGetAction::SubPage);
    assert_eq!(r.info.credentials.conn_id, "");
    let mut r = get_request("/ab-c1_/logout");
    assert_eq!(get_http_action_from_command(&mut r), HtmlGetAction::Logout);
    assert_eq!(r.info.credentials.conn_id, "abc1");
}

#[test]
fn pages_chosen_for_get_requests() {
    let mut r = get_request("/");
    assert_eq!(handle_get_request(&mut r, false), HtmlGetAction::LoginPage);
    assert_eq!(r.info.html_path, html::LOGIN_HTML_PATH);

    let mut r = get_request("/x/page");
    handle_get_request(&mut r, true);
    assert_eq!(r.info.html_path, html::INDEX_HTML_PATH);
    let mut r = get_request("/x/page");
    handle_get_request(&mut r, false);
    assert_eq!(r.info.html_path, html::INVALID_HTML_PATH);

    let mut r = get_request("/x/y/about");
    assert_eq!(handle_get_request(&mut r, true), HtmlGetAction::SubPage);
    assert_eq!(r.info.html_path, "html/about.html");
    let mut r = get_request("/x/y/about");
    handle_get_request(&mut r, false);
    assert_eq!(r.info.html_path, html::INVALID_HTML_PATH);

    let mut r = get_request("/id7/logout");
    assert_eq!(handle_get_request(&mut r, false), HtmlGetAction::Logout);
    assert_eq!(r.info.html_path, html::LOGIN_HTML_PATH);
    assert_eq!(r.info.credentials.conn_id, "id7");

    let mut r = get_request("nope");
    assert_eq!(handle_get_request(&mut r, true), HtmlGetAction::InvalidPage);
    assert_eq!(r.info.html_path, html::INVALID_HTML_PATH);
}

#[test]
fn invalid_utf8_becomes_replacement_character() {
    let mut b = buf("GET /a_b HTTP/1.1\r\n\r\n");
    b[6] = 0xff;
    assert_eq!(get_request_command(&b), "/a\u{FFFD}b");
}

#[test]
fn request_content_keeps_nul_padding_until_handled() {
    let r = construct_request_object(&buf("POST / HTTP/1.1\r\n\r\n\0\0x\0"));
    assert!(r.content.starts_with("\0\0x"));
    assert!(r.content.len() > 3);
}
