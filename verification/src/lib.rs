//! Verified core of a small interactive shell.
//!
//! The library holds the pieces with real design content: the line tokenizer
//! with its quoting and escaping rules, the PATH resolver with its memoizing
//! cache, and the decision logic of the builtin commands. Reading lines,
//! printing, and spawning child processes live outside the library.

pub mod builtins;
pub mod resolver;
pub mod text;
pub mod tokenizer;
