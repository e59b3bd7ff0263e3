//! A schema-less dumper for tag-prefixed wire messages: it recovers the
//! field framing from raw bytes and renders one line of text per field.

pub mod dump;
pub mod framer;
pub mod laws;
pub mod program;
pub mod record;
pub mod roundtrip;
pub mod source;
pub mod stream;
pub mod text;
pub mod wire;
