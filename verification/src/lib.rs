//! A dotfile manager: the lexer for its configuration language, the rules
//! that read a configuration into commands, the path work that places a
//! file of the home directory under the dotfiles directory, the
//! command-line grammar and the help text, all with their contracts.

pub mod text;
pub mod lexer;
pub mod config;
pub mod args;
pub mod usage;
