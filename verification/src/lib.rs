//! Protocol-buffer wire primitives, UTF-8 byte strings and small value types,
//! specified and proved with Verus.

pub mod buf;
pub mod bucket;
pub mod byte_str;
pub mod encoding;
pub mod error;
pub mod fixed_width;
pub mod message;
pub mod pool;
pub mod proto_value;
pub mod rep_move;
pub mod tree_index;
pub mod utf8;
pub mod utils;
pub mod varint;
pub mod wire_type;
