//! Codec for tnetstrings, a length-prefixed self-describing format: each value
//! is written `<length>:<payload><marker>`. The decoder and the encoder are
//! specified against a mathematical model of values and of their wire text,
//! and `laws` proves that decoding an encoding gives the value back.

pub mod data_type;
pub mod errors;
pub mod laws;
pub mod parse;
pub mod ser;
pub mod text;
pub mod tnet;

pub use data_type::DataType;
pub use errors::TNetStrError;
pub use tnet::{TNetData, TNetDictionary, TNetEntry, TNetFloat, TNetList};
pub use parse::{
    parse, parse_dictionary, parse_entry, parse_framed, parse_length, parse_list, read_length_byte,
};
pub use ser::{to_bytes, SerdeTNetError, Serializer};
