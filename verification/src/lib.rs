//! Aria: local song generation — the encoders, parsers and rules behind it.

pub mod bytes;
pub mod png;
pub mod text;
pub mod path;
pub mod art;
pub mod audio_server;
pub mod client;
pub mod export;
pub mod generation;
pub mod engine;
pub mod models;
pub mod lyrics;
pub mod derive;
pub mod video;
pub mod trim;
pub mod library;
