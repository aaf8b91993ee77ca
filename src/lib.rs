//! Scans a byte stream for known multi-word phrases under several fixed
//! character widths at once.
pub mod decode;
pub mod finder;
pub mod text;
pub mod window;

pub use decode::ByteOrder;
pub use finder::{ConfigError, PhraseInstance, TextFinder, WidthSet};
pub use text::{CharString, IntoPhrase, Phrase};
