//! Reads nutrition facts from the noisy text lines that OCR gives for a
//! photograph of a nutrition label.
//!
//! `spellcheck` corrects tokens towards a small domain vocabulary, `extract`
//! reassembles label/value pairs from the lines, and `resolve` maps them onto
//! the eleven nutrition fields.

pub mod extract;
pub mod patterns;
pub mod resolve;
pub mod spellcheck;
pub mod text;
