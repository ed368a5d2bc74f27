use vstd::prelude::*;

verus! {

/// Address the server binds to.
pub const LOCAL_IP_ADDR: &'static str = "127.0.0.1:7878";

/// Address the server announces.
pub const PUBLIC_IP_ADDR: &'static str = "212.156.207.204:7878";

/// Number of valid connection ids above which a non-authenticated one is dropped.
pub const MAX_ALLOWED_CONNECTIONS: usize = 5;


/// Seconds an authentication stays valid.
pub const AUTH_TIMEOUT_SECS: u64 = 180;

/// Nanoseconds in a second.
pub const NANOS_PER_SEC: u64 = 1_000_000_000;

/// Nanoseconds an authentication stays valid.
pub const AUTH_TIMEOUT_NANOS: u64 = 180_000_000_000;

} // verus!
