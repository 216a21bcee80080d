//! Download-queue logic, yt-dlp output handling and version checks of a
//! desktop video downloader.

pub mod text;
pub mod error;
pub mod parser;
pub mod formats;
pub mod updater;
pub mod download;
pub mod ytdlp;
pub mod settings;
pub mod engine;
