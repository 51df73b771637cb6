//! The insecure sockets service: requests for toys behind a cipher that
//! each client picks for itself.
pub mod protocol;
pub mod server;
pub mod session;
