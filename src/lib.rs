//! Decoding of Unity serialized objects and block-compressed textures.
//!
//! - `reader`: a byte cursor with a configurable byte order.
//! - `typetree`: the flattened type tree that describes an object's fields.
//! - `object`: the tree-guided decoder, which turns an object's bytes into a
//!   stream of events (scalars, strings, blobs, sequences, maps, records).
//! - `texture`: DXT1 and DXT5 texture decoding into RGBA pixels.

pub mod reader;
pub mod typetree;
pub mod object;
pub mod texture;
