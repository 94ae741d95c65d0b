//! The bencode reader, under the name it is also known by.
pub use crate::bencoding_parser::{
    parse_bencode, parse_bytestring, parse_dictionary, parse_integer, parse_list, ParseError, AST,
};
