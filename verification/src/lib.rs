//! The core of a language server for shader packs, whose sources are many
//! small files that name each other by inclusion directives.
//!
//! The library keeps the graph of the files and their inclusions in step
//! with the texts it is given, writes an entry file out as the one text that
//! a shader compiler takes, with every file it names in place, and reads the
//! log of the compiler back into findings against the files that the text
//! was merged from. It reads no file and runs no compiler itself: the texts
//! and the log are handed to it.

pub mod directive;
pub mod entries;
pub mod graph;
pub mod laws;
pub mod parser;
pub mod path;
pub mod server;
pub mod shaders;
pub mod sources;
pub mod stable;
pub mod text;
