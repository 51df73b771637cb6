//! Small network services and the protocol logic behind them, with every
//! function proved against its contract.
//!
//! The heart of the crate is [`line_reversal`]: a reliable, ordered byte
//! stream carried over unreliable datagrams. The other modules hold the
//! per-connection logic of a few simpler request/response services.
pub mod decimal;
pub mod insecure_sockets;
pub mod line_reversal;
pub mod means_to_an_end;
pub mod prime_time;
pub mod text;
