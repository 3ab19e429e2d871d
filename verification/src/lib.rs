use vstd::prelude::*;

pub mod binary;
pub mod bytes;
pub mod chars;
pub mod clock;
pub mod config;
pub mod downloader;
pub mod metadata;
pub mod pipeline;
pub mod parser;
pub mod reader;
pub mod text;
pub mod trie;
pub mod validator;

