//! Reading, editing and writing trees of named binary tags, as stored by
//! Bedrock-style game data, with an optional eight-byte framing header.
pub mod value;
pub mod wire;
pub mod writer;
pub mod reader;
pub mod tree;
pub mod path;
pub mod laws;

pub use value::{Error, Node, Value};
pub use tree::NBT;
pub use reader::read_next_header;
