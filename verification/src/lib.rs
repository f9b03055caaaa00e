//! Turning articles (Markdown, HTML, plain text) into text for speech
//! synthesis: parsing, clean-up for reading aloud, SSML generation,
//! section splitting and chunking for the synthesis service.

pub mod text;
pub mod parser;
pub mod cli;
pub mod config;
pub mod rewrite;
pub mod preprocess;
pub mod reading;
pub mod splitter;
pub mod tts;
pub mod ui;
