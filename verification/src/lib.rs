//! A library to parse Kerbal Space Program 1 ConfigNode files
//!
//! Parses configuration files, savefiles and other types of files used in Kerbal Space
//! Program that use this format.
//!
//! # Usage
//!
//! Parse a ConfigNode string using [`ConfigNodeParser::parse()`]. Returned is a root node
//! [`ConfigNode`] whose children you can look up with [`ConfigNode::get()`]. With a
//! [`ConfigNodeValue`], you can use [`as_text()`](ConfigNodeValue::as_text()) or
//! [`as_node()`](ConfigNodeValue::as_node()) to get the inner value if you know what type to
//! expect. You can also use normal enum pattern matching to handle different types.
//!
//! # Examples
//! ```
//! let savefile = confignode::ConfigNodeParser::parse("GAME { Title = Career\n }").unwrap();
//! let game = savefile.get("GAME").unwrap().as_node().unwrap();
//!
//! assert_eq!(game.get("Title").unwrap().as_text(), Some("Career"));
//! ```
//!
//! # What is verified
//!
//! [`grammar`] states the format as functions on a sequence of characters, and the
//! contract of [`ConfigNodeParser::parse()`] says that the tree returned, or the error, is
//! the one that [`grammar::parsed`] gives for the text. [`theorems`] holds what follows
//! from the definition for every text.

/// ConfigNode-related errors
pub mod error;
/// The text format
pub mod grammar;
mod node;
mod parser;
/// Facts about the text format
pub mod theorems;

pub use node::{ConfigNode, ConfigNodeValue, NodeView, ValueView};
pub use parser::ConfigNodeParser;
