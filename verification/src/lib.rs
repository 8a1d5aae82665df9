//! Decoder for the textual script format of the game's data files.
//!
//! A script is a list of expressions: comments, markup blocks, calls, fields
//! and bare values. The decoders turn bytes into a tree of them and never
//! panic, whatever the bytes are.
//!
//! - [`script`] holds the tree, and [`script::model`] what a tree is as a
//!   mathematical value.
//! - [`script::grammar`] states what each rule of the format reads, as a
//!   function on byte sequences.
//! - [`script::decode`] holds the decoders, each proved to compute the
//!   function of its rule.
//! - [`script::laws`], [`script::bounds`] and [`script::shape`] prove what
//!   holds of the grammar on every input.
//! - [`lexical`] holds the classes of bytes and the scanners for runs of
//!   them, [`rule`] what rules and decoders have in common, [`shared`] text
//!   out of bytes, and [`error`] the failures.
//!
//! One thing is taken on trust: that `String::from_utf8` accepts well-formed
//! UTF-8 and nothing else, and gives the text that the bytes encode.

pub mod error;
pub mod lexical;
pub mod rule;
pub mod script;
pub mod shared;
