//! A DNS message codec and an iterative resolver driven as a state machine.
//!
//! The codec encodes and decodes domain names (with compression pointers),
//! headers, questions, resource records and whole messages. The resolver
//! decides, from each decoded response, where the next query goes; sending
//! and receiving datagrams is left to the caller.
pub mod error;
pub mod name;
pub mod message;
pub mod query;
pub mod resolver;
