//! A peer-to-peer file sharing library: chunked files, peer scores,
//! downloads, and the messages peers exchange.

pub mod text;
pub mod chunk_name;
pub mod chunker;
pub mod scores;
pub mod transfer_log;
pub mod download;
pub mod commands;
pub mod node;
pub mod protocol;
