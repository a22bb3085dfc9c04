//! Symbol statistics over text: how often each punctuation or operator glyph
//! occurs, and which pairs of distinct glyphs stand together in a text.

pub mod alphabet;
pub mod bigram;
pub mod frequency;
pub mod listing;
pub mod selection;
pub mod detector;

pub use bigram::{Bigram, BigramError};
pub use detector::{count_symbol_bigrams, BigramTable};
pub use frequency::{count_symbols, FrequencyTable};
pub use listing::ToString;
pub use selection::{filter_files, uses_ignore_rules};
