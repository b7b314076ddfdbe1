//! A small text-chat service: length-prefixed frames on the wire, a codec for
//! chat messages, the server's broadcast registry and the client's message log.
pub mod frame;
pub mod message;
pub mod reader;
pub mod hub;
pub mod chat_log;
