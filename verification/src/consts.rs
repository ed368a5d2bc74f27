//! Common constants of the server.
pub mod connection;
pub mod hash;
pub mod html;
