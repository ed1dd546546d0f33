//! A line-oriented directive interpreter.
//!
//! A document mixes prose with directive blocks: a head line names a
//! directive, and indented continuation lines carry its body. The scanner
//! partitions the document into blocks, the parser splits a block into a
//! `(name, inline argument, body)` invocation, and the dispatcher resolves
//! the name in a symbol table and runs the matching handler.

pub mod chars;
pub mod metaparser;
pub mod parser;
pub mod scanner;
pub mod symtab;
