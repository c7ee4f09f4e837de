//! Text recognition on rendered pages: the model and its download, the prompt, progress,
//! transcripts, and the parts of page rendering that work on whole pixels.

pub mod model;
pub mod progress;
pub mod prompt;
pub mod render;
pub mod transcript;
