//! A byte-oriented tokenizer for a small C-like scripting language.
//!
//! `token` is the set of tokens. `grammar` defines, over plain byte sequences,
//! which token stands at the front of an input and how much of the input it
//! uses up. `lexer` is the executable scanner, proved to follow that
//! definition. `laws` holds what follows from the grammar for every input:
//! scanning ends, the end is final, whitespace between tokens is invisible,
//! a token depends on its own bytes alone, operators, words and literals are
//! read whole. `ascii` names the byte values
//! and `text` relates ASCII bytes to the characters of a string.

pub mod ascii;
pub mod grammar;
pub mod laws;
pub mod lexer;
pub mod text;
pub mod token;
