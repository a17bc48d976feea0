//! Text-to-speech front end: the phoneme vocabulary, the chunking of text under
//! a token budget, the resolution of voice styles and the per-chunk plan that
//! is handed to an inference engine.

pub mod model;
pub mod pool;
pub mod tts;
