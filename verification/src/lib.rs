//! Planning background music for spoken audio.

pub mod assembly;
pub mod assembly_laws;
pub mod cache;
pub mod chapters;
pub mod cli;
pub mod cli_laws;
pub mod command_laws;
pub mod cover;
pub mod discovery;
pub mod discovery_laws;
pub mod document_laws;
pub mod ffmpeg;
pub mod ffmpeg_laws;
pub mod filter_laws;
pub mod image_laws;
pub mod images;
pub mod json;
pub mod limits;
pub mod log;
pub mod mix_laws;
pub mod music_laws;
pub mod music_norm;
pub mod number;
pub mod number_laws;
pub mod order;
pub mod path;
pub mod path_laws;
pub mod pipeline;
pub mod pipeline_laws;
pub mod plan;
pub mod plan_laws;
pub mod playlist_laws;
pub mod progress;
pub mod reading;
pub mod run_laws;
pub mod settings_laws;
pub mod stderr;
pub mod stderr_laws;
pub mod text;
pub mod text_laws;
pub mod time;
pub mod time_laws;
pub mod wiring_laws;
