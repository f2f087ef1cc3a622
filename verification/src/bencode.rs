//! The bencode codec: the values, the grammar, a decoder for one value at the
//! head of an input, and an encoder into the canonical form.

pub mod canonical;
pub mod decode;
pub mod encode;
pub mod fields;
pub mod grammar;
pub mod laws;
pub mod order;
pub mod reorder;
pub mod value;

pub use decode::{
    decode_bencoded_dictionary, decode_bencoded_integer, decode_bencoded_list,
    decode_bencoded_string, decode_bencoded_value,
};
pub use encode::encode;
pub use value::{Bencode, ParseError, Value};
