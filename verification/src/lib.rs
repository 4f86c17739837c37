//! Aligns a recitation transcript with the verses of a reference text and
//! decides what a transcription service answers.

pub mod access;
pub mod alignment_v2;
pub mod assets;
pub mod candidates;
pub mod chars;
pub mod cleanup;
pub mod clock;
pub mod config;
pub mod confusion;
pub mod demo;
pub mod dp;
pub mod events;
pub mod fx;
pub mod grouping;
pub mod guessing;
pub mod jobs;
pub mod json;
pub mod multispan;
pub mod net;
pub mod npy;
pub mod replies;
pub mod reports;
pub mod results;
pub mod retiming;
pub mod ring;
pub mod rolling;
pub mod scalar;
pub mod scoring;
pub mod session;
pub mod sorting;
pub mod spans;
pub mod stability;
pub mod state;
pub mod streaming;
pub mod text;
pub mod timed;
pub mod tokens;
pub mod transcriber_pool;
pub mod transcripts;
pub mod tree;
pub mod versions;
pub mod wav;
