//! The library of a reMarkable tablet's documents: every version of each, the tablet's folders,
//! what to ask the tablet next, and the transcripts of handwritten pages.

pub mod text;
pub mod table;
pub mod hash;
pub mod json;
pub mod clock;
pub mod ids;
pub mod error;
pub mod paths;
pub mod blob;
pub mod manifest;
pub mod library;
pub mod db;
pub mod device;
pub mod ocr;
