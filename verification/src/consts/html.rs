use vstd::prelude::*;

verus! {

pub const GET_HTML_CODE: &'static str = "GET";

pub const INDEX_HTML_PATH: &'static str = "html/index.html";

pub const POST_HTML_CODE: &'static str = "POST";

pub const LOGIN_HTML_PATH: &'static str = "html/login.html";

pub const INVALID_HTML_PATH: &'static str = "html/404.html";

pub const OK_STATUS_CODE: &'static str = "HTTP/1.0 200 OK";

pub const OK_HTML_PATH: &'static str = "html/OK.html";

pub const FAVICON_PATH: &'static str = "html/favicon.ico";

pub const INVALID_STATUS_CODE: &'static str = "HTTP/1.0 404 NOT FOUND";

pub const ID_HASH: &'static str = "74b2f64";

pub const PW_HASH: &'static str = "c6a240";

} // verus!
