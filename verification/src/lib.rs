//! A library for taking apart a shell command line, editing its parts,
//! and putting it back together safely.
//!
//! The core pieces: a shell-aware word splitter ([`tokenize`]) and
//! component classifier ([`command_parser`]); a quoting serializer whose
//! output provably re-parses to the same words ([`command`], see
//! `lemma_quote_round_trip` and `lemma_serialize_round_trip`); a mutable
//! command document with undo/redo stacks and proved inverse laws
//! ([`command`], [`undo`], [`session`]); a display-width-aware wrapping
//! text buffer with byte-exact cursor placement and a proved
//! position/index round trip ([`wrap_text`], [`editor`]); a
//! history-derived value-suggestion index ([`history`]); and the
//! interactive session state itself ([`app`]).  [`shell`] renders the
//! shell integration scripts, [`term`] parses the terminal's cursor
//! report, and [`cli`] holds the command-line arguments as plain data.

pub mod app;
pub mod cli;
pub mod command;
pub mod command_parser;
pub mod editor;
pub mod history;
pub mod session;
pub mod shell;
pub mod strutil;
pub mod term;
pub mod tokenize;
pub mod undo;
pub mod wrap_text;
