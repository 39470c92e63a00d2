//! A small interactive shell: its line lexer and parser, the planner that
//! turns a parsed line into the shell's next action, the completion
//! registry, and the tab-completion logic.

pub mod text;
pub mod parse;
pub mod order;
pub mod completions;
pub mod exec;
pub mod complete;
