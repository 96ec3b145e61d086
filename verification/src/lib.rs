//! Carrying headset screenshots from the client that captured them to the PC that stores them.

pub mod assembler;
pub mod feedback;
pub mod filter;
pub mod laws;
pub mod moment;
pub mod packets;
pub mod polling;
pub mod storage;
pub mod text;
pub mod upload;
pub mod watcher;
