//! A small authenticating HTTP server: request parsing, page selection,
//! response framing, credential checks and connection bookkeeping.
#![allow(non_snake_case)]

pub mod consts;
pub mod hash;
pub mod text;
pub mod jsonhandler;
pub mod connection;
pub mod htmlhandle;
pub mod laws;
