//! Indexing of the hook and init-target macro conventions of a C code base,
//! with the completion and diagnostic logic of the language server built on it.

pub mod position;
pub mod tokens;
pub mod store;
pub mod text;
pub mod protocol;
pub mod hooks;
pub mod init;
pub mod state;
pub mod compile_commands;
