//! Schema evolution for tagged unions and records exchanged through
//! self-describing serialization formats.
//!
//! An older reader can decode data produced by a newer writer that has added
//! enum variants the reader does not know about, hold the unrecognized
//! payload losslessly in a fallback slot, re-encode it byte-for-byte, and
//! later attempt to reinterpret it.
//!
//! The crate models type definitions reflectively: a [`schema::Defs`] table
//! describes each participating record or tagged union, the shape
//! transformer ([`schema::derive_shape`]) derives the tolerant mirror
//! shapes, and the conversion pair ([`convert::downgrade`] and
//! [`convert::upgrade`]) moves values between the original and tolerant
//! forms.  The [`codec`] module gives the canonical self-describing wire
//! form and proves the round-trip and forward-compatibility laws over it.

pub mod codec;
pub mod convert;
pub mod error;
pub mod evolve;
pub mod schema;
pub mod shapes;
pub mod value;

pub use error::Error;
pub use evolve::Devolve;
pub use evolve::Evolve;
