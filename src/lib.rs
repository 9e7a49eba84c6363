//! Decoding and dispatch core of a game-server network front end: a codec for
//! the protocol's primitive wire types, a length-prefixed packet framer, a
//! packet registry, the per-connection session state machine and the
//! server's run guard.

pub mod outside;
pub mod parser;
pub mod packet;
pub mod processor;
pub mod session;
pub mod server;
