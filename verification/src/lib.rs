//! Speech synthesis without the arithmetic: text segmentation, prompt layout, decoding
//! schedules, audio assembly and model geometry, each stated in contracts and proved.

pub mod assemble;
pub mod assemble_laws;
pub mod audio8;
pub mod audit;
pub mod bench;
pub mod chars;
pub mod cli;
pub mod cosyvoice;
pub mod engine;
pub mod engines;
pub mod grid;
pub mod masks;
pub mod messages;
pub mod number;
pub mod order;
pub mod quant;
pub mod qwen3tts;
pub mod rng;
pub mod sampling;
pub mod segment_laws;
pub mod settings;
pub mod text;
pub mod text_laws;
pub mod tokens;
pub mod voice;
pub mod wav;
pub mod words_laws;
