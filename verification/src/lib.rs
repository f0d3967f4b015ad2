//! A parser for DolDoc, a markup language of plain text interleaved with
//! commands of the form `$CODE+FLAG-FLAG,KEY=VALUE,"value"$`.
//!
//! [`parser::parse`] turns a whole document into its entries. The stages it is
//! made of are public as well: [`parser::lex`] turns one command block into
//! tokens, [`doldoc::command_from_tokens`] turns the tokens into a command, and
//! [`document::DocumentEntry::new`] resolves a command into an entry.
//!
//! What holds of these on every input is proved in [`laws`] and [`spelling`].

pub mod cursor;
pub mod document;
pub mod doldoc;
pub mod laws;
pub mod parser;
pub mod spelling;
pub mod text;
