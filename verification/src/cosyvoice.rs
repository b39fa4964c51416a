//! CosyVoice: a language model over speech tokens, a flow-matching decoder and a vocoder, 24 kHz.

pub mod cfg;
pub mod engine;
pub mod engine_laws;
pub mod flow;
pub mod hift;
pub mod llm;
pub mod llm_laws;
pub mod render_laws;
pub mod stft;
