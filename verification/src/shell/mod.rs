//! The commands of the interactive shell and their grammar.

pub mod command;
pub mod parser;

pub use crate::shell::command::Command;
pub use crate::shell::parser::{ParseError, Parser};
