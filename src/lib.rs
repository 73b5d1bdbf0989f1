//! Decoder, tree builder, renderers, encoder, validator and differ for
//! the binary outline document format.
pub mod canon;
pub mod decode;
pub mod diff;
pub mod dump;
pub mod encode;
pub mod record;
pub mod render;
pub mod roundtrip;
pub mod text;
pub mod tree;
pub mod validate;
