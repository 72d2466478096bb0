//! A templating and macro engine.
//!
//! A source text is scanned for *commands*: sequences that start with `(%`
//! and end with `%)`. The first part of a command is its name, then comes
//! one whitespace character, then the body: `(%cmd body%)`. Every command is
//! replaced by the text its handler returns; everything else is copied.
//!
//! A backslash takes the syntactic meaning from the character after it.
//! Problems never stop an expansion: they are collected as [`Issue`]s.
//!
//! Command names may not contain whitespace or any of the characters `%(){}`.
//!
//! The engine does no input or output. A command that needs a process to be
//! run or a file to be read asks the program around the engine for it: see
//! [`host`]. What expanding a text means is laid down in [`model`], and
//! [`laws`] holds what follows from it for every text.

pub mod engine;
pub mod escape;
pub mod for_loop;
pub mod host;
pub mod issue;
pub mod iterate;
pub mod laws;
pub mod lsdir;
pub mod model;
pub mod number;
pub mod parser;
pub mod predefined_commands;
pub mod shell_util;
pub mod sort;
pub mod span;
pub mod text;
pub mod tools;
pub mod vars;
pub mod within;

pub use crate::engine::{CommandConfig, Engine, InvalidCommandName};
pub use crate::host::{pending_requests, HostAnswer, HostAnswers, HostRequest, HostService};
pub use crate::issue::{absorb_new_issues, Issue, IssueDisplay};
pub use crate::model::CommandHandler;
pub use crate::parser::{parse_commands, SourceAtom};
pub use crate::span::{RowCol, Span};
pub use crate::vars::VarTable;
