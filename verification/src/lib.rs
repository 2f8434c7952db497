//! A byte dumper driven by a format string.
//!
//! A template such as `"%h "` is compiled once into a sequence of commands
//! (literal text and one-byte directives), and that sequence is then applied
//! cyclically to a stream of bytes until the stream runs dry.

pub mod radix;
pub mod format;
pub mod grammar;
pub mod render;
pub mod machine;
pub mod dump;
pub mod theorems;
