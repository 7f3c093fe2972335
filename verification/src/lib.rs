//! A small interactive shell: command-line tokenizing, job bookkeeping,
//! multi-line input detection, completion helpers, configuration and a
//! line editor, each stated and proved with Verus.

pub mod text;
pub mod number;
pub mod table;
pub mod parser;
pub mod input_parser;
pub mod config;
pub mod prompt;
pub mod lua_parser;
pub mod log;
pub mod expand;
pub mod termio;
pub mod order;
pub mod completions;
pub mod shell;
