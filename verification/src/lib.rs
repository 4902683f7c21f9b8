//! Token-efficient context tooling: symbol outlines and slices of source
//! files, line-range reads, import classification, and compression of
//! command output into a deterministic, byte-stable view.
#![allow(unused_imports)]

pub mod text;
pub mod bytes;
pub mod exec;
pub mod seqs;
pub mod signature;
pub mod syntax;
pub mod symbol;
pub mod paths;
pub mod lang;
pub mod language;
pub mod extract;
pub mod outline;
pub mod imports;
pub mod deps;
pub mod cli;
pub mod tools;
pub mod suggest;
pub mod compact;
pub mod config;
pub mod commands;
pub mod arguments;
