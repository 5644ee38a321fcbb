//! A minimal remote-procedure-call runtime.
//!
//! The library is the protocol engine: a length-prefixed binary wire format
//! (`net`), a self-describing envelope codec (`serialization`), the
//! request/response envelopes themselves (`common`), a dispatch registry for
//! named functions (`server`), and the client-side request/response
//! correlation core (`client`).  Socket handling, threads, and the event loop
//! that feeds bytes into these engines live outside the library.

pub mod client;
pub mod common;
pub mod error;
pub mod net;
pub mod serialization;
pub mod server;
pub mod shortest_path;
