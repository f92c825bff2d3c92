//! A polyglot generator for media files: one file that reads as an icon, a
//! video, an HTML page, a PDF document or a ZIP archive, depending on the
//! extension it is given.
pub mod archive;
pub mod bytes;
pub mod cli;
pub mod error;
pub mod laws;
pub mod mp4;
pub mod number;
pub mod outcome;
pub mod pdf;
pub mod picture;
pub mod polyglot;
pub mod stream;
pub mod utils;
pub mod wasm_api;

pub use archive::append_zip_to_output;
pub use picture::convert_image_to_png;
pub use polyglot::{build_polyglot, PolyglotConfig, PolyglotResult};
