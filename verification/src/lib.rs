//! Encoder for a batch of distributed-tracing spans into the byte layout of a
//! fixed Thrift Compact Protocol "emitBatch" message, ready to be sent as one
//! UDP datagram to a trace-collection agent.
//!
//! The crate covers the zigzag/varint integer codec, the compact-protocol
//! primitive writers, the regrouping of free-form `key:value` property runs by
//! owning span id, and the top-level batch serializer.

pub mod encoder;
pub mod identity;
pub mod properties;
pub mod varint;
pub mod zigzag;

pub use encoder::thrift_encode;
pub use properties::reorder_properties;
pub use varint::encode;
pub use varint::write_varint;
