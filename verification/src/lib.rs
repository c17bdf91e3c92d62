//! A Forth-style stack-language interpreter: a byte-addressed image holding a
//! linked-list dictionary of words, a data and a return stack of 32-bit cells,
//! a threaded-code inner interpreter, and an outer interpreter that looks
//! tokens up in the dictionary or parses them as numbers under the current
//! base.
pub mod boot;
pub mod cells;
pub mod defs;
pub mod dict;
pub mod image;
pub mod io;
pub mod laws;
pub mod number;
pub mod step;
pub mod vm;
