//! Core of a prompt-assembly utility: file discovery under ignore rules,
//! catalog and tree aggregation, size-capped content loading, and the
//! assembly of one structured output document.

pub mod code_indexer;
pub mod command_runner;
pub mod comments;
pub mod content;
pub mod file_item;
pub mod file_tree;
pub mod ignore;
pub mod preview;
pub mod prompt_builder;
pub mod remote;
pub mod sort;
pub mod strutil;
pub mod system_prompt;
pub mod token_count;
pub mod walker;
