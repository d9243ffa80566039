//! A bencode reader and writer.
//!
//! `parse` reads one value from a byte string; `BNode::marshal` writes a value
//! back. Errors carry the position of the byte at which reading stopped.
pub mod grammar;
pub mod laws;
pub mod lexer;
pub mod node;
pub mod parser;
pub mod term;
pub mod text;

pub use lexer::{Error, Lexer, Token};
pub use node::{BDict, BList, BNode};
pub use parser::{parse, parse_checked, parse_dict, parse_internal, parse_list, parse_number, parse_stream};
