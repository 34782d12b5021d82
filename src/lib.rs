//! Idempotent management of comment-delimited text blocks in plain text files.
pub mod block;
pub mod config;
pub mod run;
pub mod text;
