//! Audio8: a dual autoregressive model and a residual codec, 44.1 kHz.

pub mod ar;
pub mod ar_laws;
pub mod cfg;
pub mod codec;
pub mod engine;
pub mod engine_laws;
pub mod prompt;
pub mod prompt_laws;
pub mod render_laws;
