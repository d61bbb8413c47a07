//! Text handling for a VOICEVOX-backed Discord reading bot.
pub mod audio_cache;
pub mod bot;
pub mod chunking;
pub mod text;
pub mod voicevox;
