//! Grapheme-to-phoneme labels: tokenization of engine IPA into versioned
//! phoneme labels, the table of where each language's labels come from,
//! and the built-in Hindi, Korean, Thai, Japanese and Mandarin label
//! stages, with every backend's result brought into one shape.

pub mod text;
pub mod parse;
pub mod language;
pub mod labels;
pub mod error;
pub mod hindi;
pub mod korean;
pub mod thai;
pub mod convert;
pub mod route;
pub mod japanese;
pub mod mandarin;
pub mod data;

pub use hindi::Syllable;
pub use labels::{LabelSource, Phoneme, Phonemized, Pitch, UnknownPhoneme};
pub use language::Language;
pub use parse::{Parsed, Stress};
pub use error::Error;
pub use route::{identity, label_source, phonemize, phonemize_lang, Route};
