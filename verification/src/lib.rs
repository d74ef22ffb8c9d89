//! A small structured-data format of values, lists (`[ ]`) and levels
//! (`{ }`), and its parser.
//!
//! A document is read from a [`CharStream`] by [`LSD::parse`], which gives
//! the tree that [`parse::document`] describes. The tree can then be read by
//! a path of keys and indices through [`LSDGetExt`].

pub mod cursor;
pub mod error;
pub mod merge;
pub mod parse;
pub mod path;
pub mod scan;
pub mod string;
pub mod tree;
pub mod value;

pub use cursor::CharStream;
pub use error::ParseError;
pub use path::{key, KeyPath, KeyPathPart, LSDGetExt};
pub use tree::{Level, List, Value, LSD};
