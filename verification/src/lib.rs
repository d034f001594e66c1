//! A backtracking recursive-descent parsing engine and, built on it, the
//! parser of a PEG meta-grammar: it reads the tokens of a grammar description
//! and builds the grammar's rules and meta-directives.
//!
//! The layers, leaf first:
//!
//! * [`tokenizer`]: a buffer over a one-shot producer of tokens, with a cursor
//!   that can be captured and restored;
//! * [`parser`]: single-token matching, bounded repetition and zero-width
//!   lookahead over such a buffer;
//! * [`grammar`]: the rules, alternatives, items and meta-directives that a
//!   grammar is made of, and their views;
//! * [`metagrammar`]: the productions of the meta-grammar, as functions of a
//!   token stream and a position;
//! * [`bootstrap`]: the parser of the meta-grammar, each of whose methods
//!   returns what the production of its name gives.
//!
//! Beside them stand [`text`], which compares and joins string slices, and
//! [`input`], a producer of tokens that cuts a text into grapheme clusters.
//!
//! Every function here is verified against its contract, with one exception
//! in [`input`]: what Unicode calls a grapheme cluster is taken on trust from
//! the `unicode-segmentation` crate.

pub mod bootstrap;
pub mod grammar;
pub mod input;
pub mod metagrammar;
pub mod parser;
pub mod text;
pub mod tokenizer;
