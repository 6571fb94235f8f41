//! A JSON parser: reads JSON text into a tree of nodes, and writes a tree
//! back as text.
//!
//! - `parser`: the parser, `LeptParser`, and the outcomes it reports;
//! - `grammar`: what the parser reads from a text, as a function of its
//!   characters, which the parser's contracts are stated over;
//! - `node`: the tree's nodes, `LeptValue`, and the JSON value each stands for;
//! - `print`: the text of a tree;
//! - `laws`, `number_laws`, `escape_laws` and `layout`: what holds of every
//!   text and every tree;
//! - `roundtrip`, `prefix`, `suffix` and `locality`: the pieces of their
//!   proofs;
//! - `text`: character classes.

pub mod escape_laws;
pub mod grammar;
pub mod laws;
pub mod layout;
pub mod locality;
pub mod node;
pub mod number_laws;
pub mod parser;
pub mod prefix;
pub mod print;
pub mod roundtrip;
pub mod suffix;
pub mod text;
