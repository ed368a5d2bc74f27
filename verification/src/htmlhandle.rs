//! HTTP requests: reading the request line, the `Content-Length` header
//! and the body out of a raw buffer, choosing the page to serve, and
//! framing responses.
use vstd::prelude::*;
use vstd::string::StringSliceAdditionalSpecFns;
use crate::connection::{Credentials, CredentialsView};
use crate::consts::html;
use crate::hash::{auth_token, auth_token_chars};
use crate::text::{
    chars_eq, alphanumeric_chars, concat, decimal, decimal_chars, filter_chars, spec_is_alphanumeric,
    split_chars, split_on, views, chars_of, find, is_prefix, lines, lines_of, parse_usize, parse_usize_chars, second_block,
    second_block_of, starts_with, string_from, tokens, tokens_of, find_chars, contains,
    lemma_find_from,
};

verus! {

/// The kind of a request, from its first bytes.
#[derive(Clone, Copy, PartialEq, Eq, Structural, Debug)]
pub enum RequestType {
    GET,
    POST,
    INVALID,
}

/// What a GET request asks for.
#[derive(Clone, Copy, PartialEq, Eq, Structural, Debug)]
pub enum HtmlGetAction {
    LoginPage,
    Logout,
    Index,
    SubPage,
    InvalidPage,
}

/// What was read from a request's first line, and what to answer.
pub struct RequestInfo {
    pub command: String,
    pub status_code: String,
    pub html_path: String,
    pub _type: RequestType,
    pub credentials: Credentials,
}

/// A parsed request.
pub struct Request {
    pub info: RequestInfo,
    pub content: String,
}

/// The contents of `RequestInfo`.
pub struct RequestInfoView {
    pub command: Seq<char>,
    pub status_code: Seq<char>,
    pub html_path: Seq<char>,
    pub _type: RequestType,
    pub credentials: CredentialsView,
}

/// The contents of `Request`.
pub struct RequestView {
    pub info: RequestInfoView,
    pub content: Seq<char>,
}

impl View for RequestInfo {
    type V = RequestInfoView;

    open spec fn view(&self) -> RequestInfoView {
        RequestInfoView {
            command: self.command@,
            status_code: self.status_code@,
            html_path: self.html_path@,
            _type: self._type,
            credentials: self.credentials@,
        }
    }
}

impl View for Request {
    type V = RequestView;

    open spec fn view(&self) -> RequestView {
        RequestView { info: self.info@, content: self.content@ }
    }
}

// ---------------------------------------------------------------------
// The text of a request buffer
// ---------------------------------------------------------------------

/// What std's `String::from_utf8_lossy` makes of `bytes`: the UTF-8
/// decoding, with U+FFFD for each invalid sequence.
pub uninterp spec fn spec_from_utf8_lossy(bytes: Seq<u8>) -> Seq<char>;

/// The text of a request buffer, decoded by std's `String::from_utf8_lossy`;
/// the result is named `spec_from_utf8_lossy` and nothing more is claimed.
#[verifier::external_body]
fn decode_lossy(request: &[u8; 1024]) -> (s: String)
    ensures
        s@ == spec_from_utf8_lossy(request@),
{
    String::from_utf8_lossy(&request[..]).to_string()
}

/// The text of a request buffer, as characters.
fn request_chars(request: &[u8; 1024]) -> (r: Vec<char>)
    ensures
        r@ == spec_from_utf8_lossy(request@),
{
    let s = decode_lossy(request);
    chars_of(s.as_str())
}

// ---------------------------------------------------------------------
// Request type
// ---------------------------------------------------------------------

/// `buf` begins with the bytes `p`.
pub open spec fn bytes_prefix(p: Seq<u8>, buf: Seq<u8>) -> bool {
    p.len() <= buf.len() && buf.take(p.len() as int) == p
}

/// Whether `buf` begins with the bytes `p`.
fn buffer_starts_with(buf: &[u8; 1024], p: &[u8]) -> (r: bool)
    ensures
        r == bytes_prefix(p@, buf@),
{
    if p.len() > 1024 {
        return false;
    }
    let mut i: usize = 0;
    while i < p.len()
        invariant
            p@.len() <= buf@.len(),
            i <= p@.len(),
            forall|j: int| 0 <= j < i ==> buf@[j] == p@[j],
        decreases p.len() - i,
    {
        if buf[i] != p[i] {
            assert(buf@.take(p@.len() as int)[i as int] != p@[i as int]);
            return false;
        }
        i = i + 1;
    }
    assert(buf@.take(p@.len() as int) =~= p@);
    true
}

/// The kind of request that a buffer holds: GET or POST by its first
/// bytes, INVALID otherwise.
pub open spec fn request_type_of(request: Seq<u8>) -> RequestType {
    if bytes_prefix(html::GET_HTML_CODE.spec_bytes(), request) {
        RequestType::GET
    } else if bytes_prefix(html::POST_HTML_CODE.spec_bytes(), request) {
        RequestType::POST
    } else {
        RequestType::INVALID
    }
}

// ---------------------------------------------------------------------
// The command: second word of the first line
// ---------------------------------------------------------------------

/// The command of a request text: the second whitespace-separated word of
/// its first line when that word starts with `/`, and empty otherwise.
/// There is none when the text has no line or its first line fewer than
/// two words.
pub open spec fn request_command(text: Seq<char>) -> Option<Seq<char>> {
    let ls = lines(text);
    if ls.len() == 0 {
        None
    } else {
        let words = tokens(ls[0]);
        if words.len() < 2 {
            None
        } else if is_prefix("/"@, words[1]) {
            Some(words[1])
        } else {
            Some(Seq::empty())
        }
    }
}

/// The command of a request text.
fn command_of_text(text: &Vec<char>) -> (r: Option<Vec<char>>)
    ensures
        match r {
            Some(c) => request_command(text@) == Some(c@),
            None => request_command(text@) is None,
        },
{
    let ls = lines_of(text);
    if ls.len() == 0 {
        return None;
    }
    assert(crate::text::views(ls@)[0] == ls@[0]@);
    let words = tokens_of(&ls[0]);
    if words.len() < 2 {
        return None;
    }
    assert(crate::text::views(words@)[1] == words@[1]@);
    let slash = chars_of("/");
    if starts_with(&words[1], &slash) {
        let w = crate::text::slice_chars(&words[1], 0, words[1].len());
        assert(w@ =~= words@[1]@);
        Some(w)
    } else {
        Some(Vec::new())
    }
}

/// The command of a request buffer: the second word of its first line
/// when it starts with `/`, and empty otherwise.
pub fn get_request_command(request: &[u8; 1024]) -> (command: String)
    requires
        request_command(spec_from_utf8_lossy(request@)) is Some,
    ensures
        command@ == request_command(spec_from_utf8_lossy(request@))->0,
{
    let text = request_chars(request);
    let c = command_of_text(&text).unwrap();
    string_from(&c)
}

/// The command of a request buffer, or `None` where its first line has
/// fewer than two words.
pub fn try_get_request_command(request: &[u8; 1024]) -> (command: Option<String>)
    ensures
        match command {
            Some(c) => request_command(spec_from_utf8_lossy(request@)) == Some(c@),
            None => request_command(spec_from_utf8_lossy(request@)) is None,
        },
{
    let text = request_chars(request);
    match command_of_text(&text) {
        Some(c) => {
            let r = get_request_command(request);
            Some(r)
        },
        None => None,
    }
}


// ---------------------------------------------------------------------
// Request line validation
// ---------------------------------------------------------------------

/// Credentials with every field empty.
pub open spec fn empty_credentials() -> CredentialsView {
    CredentialsView { conn_id: Seq::empty(), hashid_sec: Seq::empty(), hashpw_sec: Seq::empty() }
}

/// What `validate_request` makes of a buffer: its type; for GET and POST
/// its command and the OK status; for anything else an empty command and
/// the not-found status; always the not-found page and empty credentials.
pub open spec fn validated_info(request: Seq<u8>) -> RequestInfoView {
    let ty = request_type_of(request);
    RequestInfoView {
        command: if ty == RequestType::INVALID {
            Seq::empty()
        } else {
            request_command(spec_from_utf8_lossy(request))->0
        },
        status_code: if ty == RequestType::INVALID {
            html::INVALID_STATUS_CODE@
        } else {
            html::OK_STATUS_CODE@
        },
        html_path: html::INVALID_HTML_PATH@,
        _type: ty,
        credentials: empty_credentials(),
    }
}

/// Credentials with every field empty.
fn new_empty_credentials() -> (c: Credentials)
    ensures
        c@ == empty_credentials(),
{
    Credentials { hashid_sec: String::new(), hashpw_sec: String::new(), conn_id: String::new() }
}

/// Reads the type and the command of a request buffer.
pub fn validate_request(request: [u8; 1024]) -> (info: RequestInfo)
    requires
        request_type_of(request@) != RequestType::INVALID ==> request_command(
            spec_from_utf8_lossy(request@),
        ) is Some,
    ensures
        info@ == validated_info(request@),
{
    let mut result = RequestInfo {
        command: String::new(),
        status_code: html::INVALID_STATUS_CODE.to_owned(),
        html_path: html::INVALID_HTML_PATH.to_owned(),
        _type: RequestType::INVALID,
        credentials: new_empty_credentials(),
    };
    if buffer_starts_with(&request, html::GET_HTML_CODE.as_bytes()) {
        result.command = get_request_command(&request);
        result._type = RequestType::GET;
        result.status_code = html::OK_STATUS_CODE.to_owned();
    } else if buffer_starts_with(&request, html::POST_HTML_CODE.as_bytes()) {
        result.command = get_request_command(&request);
        result._type = RequestType::POST;
        result.status_code = html::OK_STATUS_CODE.to_owned();
    }
    result
}

// ---------------------------------------------------------------------
// Content-Length and content
// ---------------------------------------------------------------------

/// The index of the first line at or after `i` that starts with `p`.
pub open spec fn first_prefixed(ls: Seq<Seq<char>>, p: Seq<char>, i: int) -> Option<int>
    decreases ls.len() - i,
{
    if i < 0 || i >= ls.len() {
        None
    } else if is_prefix(p, ls[i]) {
        Some(i)
    } else {
        first_prefixed(ls, p, i + 1)
    }
}

/// The declared length of a request text's content: 0 when the text does
/// not mention `Content-Length`; otherwise the number that is the second
/// word of the first line starting with `Content-Length:`. There is none
/// when no line starts so, that line has one word, or the word is not a
/// number that fits in a `usize`.
pub open spec fn content_length(text: Seq<char>) -> Option<usize> {
    if !contains(text, "Content-Length"@) {
        Some(0)
    } else {
        let ls = lines(text);
        match first_prefixed(ls, "Content-Length:"@, 0) {
            None => None,
            Some(i) => {
                let words = tokens(ls[i]);
                if words.len() < 2 {
                    None
                } else {
                    parse_usize(words[1])
                }
            },
        }
    }
}

/// The byte length of the UTF-8 encoding of a text.
pub open spec fn utf8_len(s: Seq<char>) -> nat {
    vstd::utf8::encode_utf8(s).len()
}

/// The content of a request text: the block after the first blank line
/// (`\r\n\r\n`), up to and including the next one, when its UTF-8 length
/// reaches the declared length, and empty otherwise. There is none when the
/// declared length is unreadable or no such block exists.
pub open spec fn request_content(text: Seq<char>) -> Option<Seq<char>> {
    match content_length(text) {
        None => None,
        Some(n) => match second_block(text, "\r\n\r\n"@) {
            None => None,
            Some(b) => Some(
                if utf8_len(b) >= n {
                    b
                } else {
                    Seq::empty()
                },
            ),
        },
    }
}

/// The declared content length of a request text.
fn content_length_of_text(text: &Vec<char>) -> (r: Option<usize>)
    ensures
        r == content_length(text@),
{
    let key = chars_of("Content-Length");
    match find_chars(text, &key, 0) {
        None => {
            return Some(0);
        },
        Some(_) => {
            assert(contains(text@, "Content-Length"@));
        },
    }
    let ls = lines_of(text);
    let header = chars_of("Content-Length:");
    let mut i: usize = 0;
    while i < ls.len()
        invariant
            i <= ls.len(),
            header@ == "Content-Length:"@,
            contains(text@, "Content-Length"@),
            crate::text::views(ls@) == lines(text@),
            first_prefixed(lines(text@), header@, 0) == first_prefixed(lines(text@), header@, i as int),
        decreases ls.len() - i,
    {
        assert(crate::text::views(ls@)[i as int] == ls@[i as int]@);
        if starts_with(&ls[i], &header) {
            let words = tokens_of(&ls[i]);
            if words.len() < 2 {
                return None;
            }
            assert(crate::text::views(words@)[1] == words@[1]@);
            return parse_usize_chars(&words[1]);
        }
        i = i + 1;
    }
    None
}

/// The content of a request text.
fn content_of_text(text: &Vec<char>) -> (r: Option<String>)
    ensures
        match r {
            Some(c) => request_content(text@) == Some(c@),
            None => request_content(text@) is None,
        },
{
    let n = match content_length_of_text(text) {
        Some(n) => n,
        None => {
            return None;
        },
    };
    let sep = chars_of("\r\n\r\n");
    match second_block_of(text, &sep) {
        None => None,
        Some(b) => {
            let s = string_from(&b);
            let byte_len = s.as_str().as_bytes().len();
            if byte_len >= n {
                Some(s)
            } else {
                Some(String::new())
            }
        },
    }
}

/// The declared content length of a request buffer.
pub fn get_content_len(request: &[u8; 1024]) -> (n: usize)
    requires
        content_length(spec_from_utf8_lossy(request@)) is Some,
    ensures
        n == content_length(spec_from_utf8_lossy(request@))->0,
{
    let text = request_chars(request);
    content_length_of_text(&text).unwrap()
}

/// The declared content length of a request buffer, or `None` where it is
/// unreadable.
pub fn try_get_content_len(request: &[u8; 1024]) -> (n: Option<usize>)
    ensures
        n == content_length(spec_from_utf8_lossy(request@)),
{
    let text = request_chars(request);
    match content_length_of_text(&text) {
        Some(_) => Some(get_content_len(request)),
        None => None,
    }
}

/// The content of a request buffer.
pub fn get_content(request: &[u8; 1024]) -> (content: String)
    requires
        request_content(spec_from_utf8_lossy(request@)) is Some,
    ensures
        content@ == request_content(spec_from_utf8_lossy(request@))->0,
{
    let _declared = get_content_len(request);
    let text = request_chars(request);
    content_of_text(&text).unwrap()
}

/// The content of a request buffer, or `None` where it cannot be read.
pub fn try_get_content(request: &[u8; 1024]) -> (content: Option<String>)
    ensures
        match content {
            Some(c) => request_content(spec_from_utf8_lossy(request@)) == Some(c@),
            None => request_content(spec_from_utf8_lossy(request@)) is None,
        },
{
    let text = request_chars(request);
    match content_of_text(&text) {
        Some(_) => Some(get_content(request)),
        None => None,
    }
}


// ---------------------------------------------------------------------
// Request objects
// ---------------------------------------------------------------------

/// A copy of a request line's information.
fn copy_info(info: &RequestInfo) -> (r: RequestInfo)
    ensures
        r@ == info@,
{
    RequestInfo {
        command: info.command.clone(),
        _type: info._type,
        html_path: info.html_path.clone(),
        status_code: info.status_code.clone(),
        credentials: info.credentials.copy(),
    }
}

/// A GET request: the given information and the buffer's content.
pub fn construct_get_request_object(request: &[u8; 1024], req_info: &RequestInfo) -> (r: Request)
    requires
        request_content(spec_from_utf8_lossy(request@)) is Some,
    ensures
        r@ == (RequestView {
            info: req_info@,
            content: request_content(spec_from_utf8_lossy(request@))->0,
        }),
{
    Request { info: copy_info(req_info), content: get_content(request) }
}

/// A POST request: the given information and the buffer's content.
pub fn construct_post_request_object(request: &[u8; 1024], req_info: &RequestInfo) -> (r: Request)
    requires
        request_content(spec_from_utf8_lossy(request@)) is Some,
    ensures
        r@ == (RequestView {
            info: req_info@,
            content: request_content(spec_from_utf8_lossy(request@))->0,
        }),
{
    Request { info: copy_info(req_info), content: get_content(request) }
}

/// The information of an invalid request: its status code stands in as
/// the command.
pub open spec fn invalid_info(info: RequestInfoView) -> RequestInfoView {
    RequestInfoView {
        command: info.status_code,
        status_code: info.status_code,
        html_path: info.html_path,
        _type: info._type,
        credentials: info.credentials,
    }
}

/// An invalid request: no content, and the status code as its command.
pub fn construct_invalid_request_object(req_info: &RequestInfo) -> (r: Request)
    ensures
        r@ == (RequestView { info: invalid_info(req_info@), content: Seq::empty() }),
{
    Request {
        info: RequestInfo {
            command: req_info.status_code.clone(),
            status_code: req_info.status_code.clone(),
            html_path: req_info.html_path.clone(),
            _type: req_info._type,
            credentials: req_info.credentials.copy(),
        },
        content: String::new(),
    }
}

/// The request that a buffer holds.
pub open spec fn request_object(request: Seq<u8>) -> RequestView {
    let info = validated_info(request);
    if info._type == RequestType::INVALID {
        RequestView { info: invalid_info(info), content: Seq::empty() }
    } else {
        RequestView { info: info, content: request_content(spec_from_utf8_lossy(request))->0 }
    }
}

/// A GET or POST buffer has a command and a readable content.
pub open spec fn request_is_readable(request: Seq<u8>) -> bool {
    request_type_of(request) == RequestType::INVALID || (request_command(
        spec_from_utf8_lossy(request),
    ) is Some && request_content(spec_from_utf8_lossy(request)) is Some)
}

/// Parses a request buffer.
pub fn construct_request_object(request: &[u8; 1024]) -> (r: Request)
    requires
        request_is_readable(request@),
    ensures
        r@ == request_object(request@),
{
    let request_info = validate_request(*request);
    match request_info._type {
        RequestType::POST => construct_post_request_object(request, &request_info),
        RequestType::GET => construct_get_request_object(request, &request_info),
        RequestType::INVALID => construct_invalid_request_object(&request_info),
    }
}

/// Parses a request buffer, or gives `None` where a GET or POST buffer has
/// no command or no readable content.
pub fn try_construct_request_object(request: &[u8; 1024]) -> (r: Option<Request>)
    ensures
        match r {
            Some(req) => request_is_readable(request@) && req@ == request_object(request@),
            None => !request_is_readable(request@),
        },
{
    let readable = if buffer_starts_with(request, html::GET_HTML_CODE.as_bytes())
        || buffer_starts_with(request, html::POST_HTML_CODE.as_bytes()) {
        let text = request_chars(request);
        command_of_text(&text).is_some() && content_of_text(&text).is_some()
    } else {
        true
    };
    if readable {
        Some(construct_request_object(request))
    } else {
        None
    }
}

// ---------------------------------------------------------------------
// GET requests: choosing the page
// ---------------------------------------------------------------------

/// What a GET command asks for: `/` is the login page; a command that
/// starts with `/` is a sub-page with four or more `/`-separated parts, a
/// logout with three parts the last of which is `logout`, and the index
/// otherwise; anything else is an invalid page.
pub open spec fn http_action(command: Seq<char>) -> HtmlGetAction {
    if command == "/"@ {
        HtmlGetAction::LoginPage
    } else if is_prefix("/"@, command) {
        let parts = split_on(command, '/');
        if parts.len() >= 4 {
            HtmlGetAction::SubPage
        } else if parts.len() == 3 && parts.last() == "logout"@ {
            HtmlGetAction::Logout
        } else {
            HtmlGetAction::Index
        }
    } else {
        HtmlGetAction::InvalidPage
    }
}

/// The connection id named by a logout command: the alphanumeric
/// characters of its second `/`-separated part.
pub open spec fn logout_conn_id(command: Seq<char>) -> Seq<char> {
    filter_chars(split_on(command, '/')[1], |c: char| spec_is_alphanumeric(c))
}

/// A request with another connection id in its credentials.
pub open spec fn with_conn_id(r: RequestView, id: Seq<char>) -> RequestView {
    RequestView {
        info: RequestInfoView {
            credentials: CredentialsView {
                conn_id: id,
                hashid_sec: r.info.credentials.hashid_sec,
                hashpw_sec: r.info.credentials.hashpw_sec,
            },
            command: r.info.command,
            status_code: r.info.status_code,
            html_path: r.info.html_path,
            _type: r.info._type,
        },
        content: r.content,
    }
}

/// A request with another page to serve.
pub open spec fn with_html_path(r: RequestView, path: Seq<char>) -> RequestView {
    RequestView {
        info: RequestInfoView {
            credentials: r.info.credentials,
            command: r.info.command,
            status_code: r.info.status_code,
            html_path: path,
            _type: r.info._type,
        },
        content: r.content,
    }
}

/// The request after its command was read: on a logout, the connection id
/// to log out is recorded in its credentials.
pub open spec fn after_action(r: RequestView) -> RequestView {
    if http_action(r.info.command) == HtmlGetAction::Logout {
        with_conn_id(r, logout_conn_id(r.info.command))
    } else {
        r
    }
}

/// Reads what a GET command asks for; on a logout, records the connection
/// id to log out in the request's credentials.
pub fn get_http_action_from_command(request: &mut Request) -> (action: HtmlGetAction)
    ensures
        action == http_action(old(request)@.info.command),
        final(request)@ == after_action(old(request)@),
{
    let get_command = chars_of(request.info.command.as_str());
    let slash = chars_of("/");
    if chars_eq(&get_command, &slash) {
        return HtmlGetAction::LoginPage;
    }
    if !starts_with(&get_command, &slash) {
        return HtmlGetAction::InvalidPage;
    }
    let parts = split_chars(&get_command, '/');
    let n = parts.len();
    if n >= 4 {
        return HtmlGetAction::SubPage;
    }
    if n == 3 {
        assert(views(parts@)[2] == parts@[2]@);
        let logout = chars_of("logout");
        if chars_eq(&parts[2], &logout) {
            assert(views(parts@)[1] == parts@[1]@);
            let id = alphanumeric_chars(&parts[1]);
            request.info.credentials.conn_id = string_from(&id);
            return HtmlGetAction::Logout;
        }
    }
    HtmlGetAction::Index
}

/// The page that answers a GET request.
pub open spec fn page_for(action: HtmlGetAction, auth: bool, command: Seq<char>) -> Seq<char> {
    match action {
        HtmlGetAction::InvalidPage => html::INVALID_HTML_PATH@,
        HtmlGetAction::LoginPage => html::LOGIN_HTML_PATH@,
        HtmlGetAction::Logout => html::LOGIN_HTML_PATH@,
        HtmlGetAction::Index => if auth {
            html::INDEX_HTML_PATH@
        } else {
            html::INVALID_HTML_PATH@
        },
        HtmlGetAction::SubPage => if auth {
            "html/"@ + split_on(command, '/').last() + ".html"@
        } else {
            html::INVALID_HTML_PATH@
        },
    }
}

/// Chooses the page that answers a GET request and records it in the
/// request; on a logout, also records the connection id to log out.
pub fn handle_get_request(request: &mut Request, auth: bool) -> (action: HtmlGetAction)
    ensures
        action == http_action(old(request)@.info.command),
        final(request)@ == with_html_path(
            after_action(old(request)@),
            page_for(action, auth, old(request)@.info.command),
        ),
{
    let action = get_http_action_from_command(request);
    let path = match action {
        HtmlGetAction::InvalidPage => html::INVALID_HTML_PATH.to_owned(),
        HtmlGetAction::LoginPage => html::LOGIN_HTML_PATH.to_owned(),
        HtmlGetAction::Logout => html::LOGIN_HTML_PATH.to_owned(),
        HtmlGetAction::Index => if auth {
            html::INDEX_HTML_PATH.to_owned()
        } else {
            html::INVALID_HTML_PATH.to_owned()
        },
        HtmlGetAction::SubPage => if auth {
            let command = chars_of(request.info.command.as_str());
            let parts = split_chars(&command, '/');
            proof {
                crate::text::lemma_split_on_nonempty(command@, '/');
            }
            let last = parts.len() - 1;
            assert(views(parts@)[last as int] == parts@[last as int]@);
            let page = concat(&concat(&chars_of("html/"), &parts[last]), &chars_of(".html"));
            string_from(&page)
        } else {
            html::INVALID_HTML_PATH.to_owned()
        },
    };
    request.info.html_path = path;
    action
}


// ---------------------------------------------------------------------
// Responses
// ---------------------------------------------------------------------

/// A response: the status line, a `Content-Length` header with the given
/// number, a blank line, and the body.
pub open spec fn framed(status: Seq<char>, declared: nat, body: Seq<char>) -> Seq<char> {
    status + "\r\n"@ + "Content-Length: "@ + decimal(declared) + "\r\n\r\n"@ + body
}

/// A response whose `Content-Length` is the UTF-8 length of its body.
pub open spec fn html_response(status: Seq<char>, body: Seq<char>) -> Seq<char> {
    framed(status, utf8_len(body), body)
}

/// `r` with `to_add` inserted before the first occurrence of `before`.
pub open spec fn insert_before(r: Seq<char>, to_add: Seq<char>, before: Seq<char>) -> Seq<char> {
    let i = find(r, before)->0;
    r.take(i) + to_add + r.skip(i)
}

/// The response that declares the lengths of `body` and `to_add` together
/// and has `to_add` inserted before the first occurrence of `before`.
pub open spec fn html_response_with_insert(
    status: Seq<char>,
    body: Seq<char>,
    to_add: Seq<char>,
    before: Seq<char>,
) -> Seq<char> {
    insert_before(framed(status, utf8_len(body) + utf8_len(to_add), body), to_add, before)
}

/// The UTF-8 length of `s` and its characters.
fn utf8_len_of(s: &str) -> (n: usize)
    ensures
        n == utf8_len(s@),
{
    s.as_bytes().len()
}

/// The characters of a framed response.
fn framed_chars(status: &Vec<char>, declared: usize, body: &Vec<char>) -> (r: Vec<char>)
    ensures
        r@ == framed(status@, declared as nat, body@),
{
    let r = concat(status, &chars_of("\r\n"));
    let r = concat(&r, &chars_of("Content-Length: "));
    let r = concat(&r, &decimal_chars(declared));
    let r = concat(&r, &chars_of("\r\n\r\n"));
    concat(&r, body)
}

/// A response with the given status and body.
pub fn construct_html_response(status_code: &str, body: &str) -> (response: String)
    ensures
        response@ == html_response(status_code@, body@),
{
    let n = utf8_len_of(body);
    string_from(&framed_chars(&chars_of(status_code), n, &chars_of(body)))
}

/// A response with the given status and body, with `to_add` inserted before
/// the first occurrence of `add_before` and counted in `Content-Length`.
pub fn construct_html_response_with_insert(
    status_code: &str,
    body: &str,
    to_add: &str,
    add_before: &str,
) -> (response: String)
    requires
        utf8_len(body@) + utf8_len(to_add@) <= usize::MAX,
        contains(framed(status_code@, utf8_len(body@) + utf8_len(to_add@), body@), add_before@),
    ensures
        response@ == html_response_with_insert(status_code@, body@, to_add@, add_before@),
{
    let n = utf8_len_of(body) + utf8_len_of(to_add);
    let r = framed_chars(&chars_of(status_code), n, &chars_of(body));
    let i = find_chars(&r, &chars_of(add_before), 0).unwrap();
    proof {
        lemma_find_from(r@, add_before@, 0);
    }
    let head = crate::text::slice_chars(&r, 0, i);
    let tail = crate::text::slice_chars(&r, i, r.len());
    assert(tail@ =~= r@.skip(i as int));
    let out = concat(&concat(&head, &chars_of(to_add)), &tail);
    string_from(&out)
}

/// The script line given to the login page: the connection id.
pub open spec fn login_secret(id: Seq<char>) -> Seq<char> {
    "hash1 = 0x"@ + id + ";"@
}

/// The script line given to other GET pages: the connection id and its
/// authentication token.
pub open spec fn page_secret(id: Seq<char>) -> Seq<char> {
    "hash1 = 0x"@ + id + ";hash2 = 0x"@ + auth_token(id) + ";"@
}

/// The script line to insert into a served file, if any.
pub open spec fn file_secret(info: RequestInfoView, id: Seq<char>) -> Option<Seq<char>> {
    if info.html_path == html::LOGIN_HTML_PATH@ {
        Some(login_secret(id))
    } else if info._type == RequestType::GET {
        Some(page_secret(id))
    } else {
        None
    }
}

/// The response that serves a file body for a request on connection `id`:
/// the login page and other GET pages get their script line inserted
/// before `</script>`; other requests get the body as it is.
pub open spec fn file_response(info: RequestInfoView, id: Seq<char>, body: Seq<char>) -> Seq<char> {
    match file_secret(info, id) {
        Some(secret) => html_response_with_insert(info.status_code, body, secret, "</script>"@),
        None => html_response(info.status_code, body),
    }
}

/// The file response can be built: where a script line is inserted, the
/// declared length fits in a `usize` and the response has a `</script>`.
pub open spec fn file_response_defined(info: RequestInfoView, id: Seq<char>, body: Seq<char>) -> bool {
    match file_secret(info, id) {
        Some(secret) => utf8_len(body) + utf8_len(secret) <= usize::MAX && contains(
            framed(info.status_code, utf8_len(body) + utf8_len(secret), body),
            "</script>"@,
        ),
        None => true,
    }
}

/// The script line to insert into a served file, if any.
fn file_secret_string(request: &Request, id: &str) -> (r: Option<String>)
    ensures
        match r {
            Some(s) => file_secret(request.info@, id@) == Some(s@),
            None => file_secret(request.info@, id@) is None,
        },
{
    let path = chars_of(request.info.html_path.as_str());
    let idc = chars_of(id);
    if chars_eq(&path, &chars_of(html::LOGIN_HTML_PATH)) {
        let s = concat(&concat(&chars_of("hash1 = 0x"), &idc), &chars_of(";"));
        Some(string_from(&s))
    } else if request.info._type == RequestType::GET {
        let s = concat(&concat(&chars_of("hash1 = 0x"), &idc), &chars_of(";hash2 = 0x"));
        let s = concat(&concat(&s, &auth_token_chars(&idc)), &chars_of(";"));
        Some(string_from(&s))
    } else {
        None
    }
}

/// The response that serves `body` for a request on connection `id`.
pub fn html_file_response(request: &Request, id: &str, body: &str) -> (response: String)
    requires
        file_response_defined(request.info@, id@, body@),
    ensures
        response@ == file_response(request.info@, id@, body@),
{
    match file_secret_string(request, id) {
        Some(secret) => construct_html_response_with_insert(
            request.info.status_code.as_str(),
            body,
            secret.as_str(),
            "</script>",
        ),
        None => construct_html_response(request.info.status_code.as_str(), body),
    }
}

/// The response that serves `body` for a request on connection `id`, or
/// `None` where a script line is to be inserted and the response has no
/// `</script>`.
pub fn try_html_file_response(request: &Request, id: &str, body: &str) -> (response: Option<String>)
    ensures
        match response {
            Some(r) => file_response_defined(request.info@, id@, body@) && r@ == file_response(
                request.info@,
                id@,
                body@,
            ),
            None => !file_response_defined(request.info@, id@, body@),
        },
{
    match file_secret_string(request, id) {
        Some(secret) => {
            let b = utf8_len_of(body);
            let t = utf8_len_of(secret.as_str());
            if b > usize::MAX - t {
                return None;
            }
            let r = framed_chars(&chars_of(request.info.status_code.as_str()), b + t, &chars_of(body));
            if find_chars(&r, &chars_of("</script>"), 0).is_none() {
                return None;
            }
            Some(html_file_response(request, id, body))
        },
        None => Some(html_file_response(request, id, body)),
    }
}

} // verus!
