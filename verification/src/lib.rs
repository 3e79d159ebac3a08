//! Parser for the sectioned key/value report emitted by the firmware
//! boot-configuration enumeration tool.
//!
//! The input is a sequence of tables, each made of a header line, a dashed
//! separator line, and a body of `key value` lines; lines end in CR LF and
//! tables are separated by blank lines.  Parsing either yields every table
//! in order or fails on the first byte that breaks the grammar.

pub mod grammar;
pub mod laws;
pub mod parser;
pub mod table;
