//! An arena-ownership primitive and a schema-driven binary message codec.
//!
//! An [`Arena`](arena::Arena) is an allocation region freed as one unit; a
//! handle into it is valid for reading exactly as long as the arena is alive.
//! An [`OwnedData`](owned_data::OwnedData) pairs such a handle with its owning
//! arena, which makes reading through the handle safe for the whole life of
//! the pair.  On top of the two, [`wire`](wire) encodes a message to a byte
//! buffer under a schema descriptor and decodes such buffers back, either
//! into a fresh message or by merging into an existing one.

pub mod arena;
pub mod bytes;
pub mod laws;
pub mod model;
pub mod owned_data;
pub mod status;
pub mod wire;
