//! A small markup parser: text goes in, a tree of text and element nodes comes
//! out, every step proved against a grammar written as spec functions.
mod chars;
pub mod dom;
pub mod grammar;
pub mod html;
pub mod laws;

pub use chars::{is_name_char, is_white_space, run_end};
pub use dom::{elem, text, AttrMap, ElementData, Node, NodeType};
pub use grammar::ParseError;
pub use html::{parse, Parser};
