//! An LL(1) parser generator: a lexical specification and a grammar
//! specification are compiled into a tokenizer, FIRST/FOLLOW sets and a
//! predictive parse table, which then turn input text into a parse tree.

pub mod names;
pub mod text;
pub mod tokenizer;
pub mod grammar;
pub mod sets;
pub mod table;
pub mod parser;
pub mod laws;
pub mod yields;
