//! Turns the downloaded chapters of a book into audio files.
//!
//! The modules hold the rules of that work: how a setting is read (`settings`), how a chapter
//! becomes text to be spoken (`sanitize`), how the text is cut into requests (`chunking`), how
//! the answers are joined (`wav`, `synthesis`), which cover is exported (`cover`), which chapters
//! are worked on (`plan`), what a worker does next (`worker`) and how the work on a book goes on
//! and ends (`run`). `text` holds the character operations that they share.
pub mod chunking;
pub mod cover;
pub mod plan;
pub mod run;
pub mod sanitize;
pub mod settings;
pub mod synthesis;
pub mod text;
pub mod wav;
pub mod worker;
