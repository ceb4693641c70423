//! LALR(1) parser tooling: a lexical analyser and the building blocks of an
//! LALR(1) parser generator and parser runtime.

pub mod alapgen;
pub mod analyzer;
pub mod code;
pub mod description;
pub mod error;
pub mod firsts;
pub mod generator;
pub mod grammar;
pub mod item_set;
pub mod laws;
pub mod lexicon;
pub mod literal_matcher;
pub mod location;
pub mod name_map;
pub mod non_terminal;
pub mod order;
pub mod ordered_set;
pub mod parser;
pub mod production;
pub mod reductions;
pub mod semantics;
pub mod regex_matcher;
pub mod state;
pub mod symbol;
pub mod symbol_table;
pub mod tag;
pub mod terminal;
pub mod text;
pub mod token_stream;
