//! Qwen3-TTS: a talker with a depth predictor, and a residual codec, 24 kHz.

pub mod audit;
pub mod cfg;
pub mod codec;
pub mod engine;
pub mod engine_laws;
pub mod qwen3;
pub mod render_laws;
pub mod session;
