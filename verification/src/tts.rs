//! The synthesis pipeline, leaves first: vocabulary, tokenizer, text
//! utilities, chunkers, style store and engine.

pub mod budget;
pub mod koko;
pub mod locate;
pub mod names;
pub mod speech;
pub mod style;
pub mod synth;
pub mod text;
pub mod tokenize;
pub mod vocab;
pub mod wav;
