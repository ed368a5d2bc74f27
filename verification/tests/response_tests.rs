use auth_server::consts::html;
use auth_server::hash::hash_str;
use auth_server::htmlhandle::{
    construct_html_response, construct_html_response_with_insert, construct_request_object,
    get_content, get_content_len, html_file_response, try_html_file_response,
};

fn buf(s: &str) -> [u8; 1024] {
    let mut b = [0u8; 1024];
    b[..s.len()].copy_from_slice(s.as_bytes());
    b
}

#[test]
fn response_frames_body_with_length() {
    assert_eq!(
        construct_html_response("HTTP/1.0 200 OK", "hi"),
        "HTTP/1.0 200 OK\r\nContent-Length: 2\r\n\r\nhi"
    );
    assert_eq!(construct_html_response("S", ""), "S\r\nContent-Length: 0\r\n\r\n");
}

#[test]
fn response_length_counts_utf8_bytes() {
    assert_eq!(construct_html_response("S", "é€"), "S\r\nContent-Length: 5\r\n\r\né€");
}

#[test]
fn response_with_insert_places_text_before_marker() {
    let r = construct_html_response_with_insert("S", "<script></script>", "x=1;", "</script>");
    assert_eq!(r, "S\r\nContent-Length: 21\r\n\r\n<script>x=1;</script>");
}

#[test]
fn response_with_insert_uses_first_marker() {
    let r = construct_html_response_with_insert("S", "a</b>c</b>", "Z", "</b>");
    assert_eq!(r, "S\r\nContent-Length: 11\r\n\r\naZ</b>c</b>");
}

#[test]
fn response_length_reads_back() {
    let body = "some body text";
    let response = construct_html_response(html::OK_STATUS_CODE, body);
    let b = buf(&response);
    assert_eq!(get_content_len(&b), body.len());
    assert_eq!(get_content(&b).trim_matches('\0'), body);
}

fn request_for(first_line: &str) -> auth_server::htmlhandle::Request {
    construct_request_object(&buf(&format!("{}\r\n\r\n", first_line)))
}

#[test]
fn login_page_gets_connection_id() {
    let mut r = request_for("GET / HTTP/1.1");
    auth_server::htmlhandle::handle_get_request(&mut r, false);
    let out = html_file_response(&r, "abc", "<script></script>");
    assert_eq!(
        out,
        "HTTP/1.0 200 OK\r\nContent-Length: 31\r\n\r\n<script>hash1 = 0xabc;</script>"
    );
}

#[test]
fn other_pages_get_token() {
    let mut r = request_for("GET /abc/x HTTP/1.1");
    auth_server::htmlhandle::handle_get_request(&mut r, true);
    let token = format!("{:x}", hash_str(format!("{}{}abc", html::ID_HASH, html::PW_HASH)));
    assert_eq!(token, "1a1fc30077f4083c");
    let out = html_file_response(&r, "abc", "<script></script>");
    let secret = format!("hash1 = 0xabc;hash2 = 0x{};", token);
    let body = format!("<script>{}</script>", secret);
    assert_eq!(out, format!("HTTP/1.0 200 OK\r\nContent-Length: {}\r\n\r\n{}", body.len(), body));
}

#[test]
fn invalid_requests_get_plain_file() {
    let r = request_for("BAD");
    let out = html_file_response(&r, "abc", "<p>404</p>");
    assert_eq!(out, "HTTP/1.0 404 NOT FOUND\r\nContent-Length: 10\r\n\r\n<p>404</p>");
}

#[test]
fn file_response_needs_script_marker() {
    let mut r = request_for("GET / HTTP/1.1");
    auth_server::htmlhandle::handle_get_request(&mut r, false);
    assert!(try_html_file_response(&r, "abc", "no marker").is_none());
    assert!(try_html_file_response(&r, "abc", "</script>").is_some());
}
