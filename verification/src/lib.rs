//! Primitive serialization layer of a Kafka-style binary wire protocol.
//!
//! Values become the exact bytes that the protocol asks for, and bytes
//! become values again. [`wire`] states the grammar, [`encode`] writes it
//! into a growable buffer, [`decode`] reads it back, and [`laws`] proves
//! that the two directions agree.
//!
//! Two modules hold what is taken on trust: [`sink`] says what the `bytes`
//! crate does to a `Vec<u8>`, and [`utf8`] what the standard library's
//! UTF-8 check returns. Everything else is proved against them.

pub mod decode;
pub mod encode;
pub mod error;
pub mod laws;
pub mod sink;
pub mod utf8;
pub mod wire;
