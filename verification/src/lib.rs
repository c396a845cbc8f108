//! Backend-agnostic field serialization for two record types.
//!
//! The heart of the crate is a pair of field-traversal protocols that turn a
//! record into a backend-neutral stream of field identifier / value pairs and
//! back again:
//!
//! * the *index-based* protocol ([`index_codec`]) declares a total field count
//!   up front and walks the fields positionally, and
//! * the *key-based* protocol ([`key_codec`]) exposes field name strings
//!   through a sequential cursor on the encode side and accumulates resolved
//!   keys into a record on the decode side.
//!
//! Four interchangeable binary envelope backends ([`fixed_le`], [`fixed_be`],
//! [`tagged_index`], [`tagged_keyed`]) each bind one of the protocols to one
//! wire layout. Every backend round-trips: decoding what it encoded yields a
//! structurally equal record, which is proved once and for all over the wire
//! specifications in each backend module.

pub mod entry;
pub mod fields;
pub mod fixed_be;
pub mod fixed_le;
pub mod fixed_wire;
pub mod index_codec;
pub mod key_codec;
pub mod tagged_index;
pub mod tagged_keyed;
pub mod tagged_wire;
pub mod types;
pub mod wire;
