//! A small audio-playback library whose core is a size-bounded
//! least-recently-used cache for decoded audio buffers.

pub mod args;
pub mod cache;
pub mod config;
pub mod player;
