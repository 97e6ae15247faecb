//! Token-level verification primitives for grounded LLM inference.
//!
//! - [`buffer`]: fixed-capacity ring buffer for streaming token IDs
//! - [`pii`]: PII detection and masking
//! - [`numeric`]: finding numbers in text, their sign, digits and multiplier words
//! - [`text`]: character and UTF-8 helpers shared by the modules above
//! - [`pattern`]: the regular-expression engine the scanners rely on

pub mod buffer;
pub mod numeric;
pub mod pattern;
pub mod pii;
pub mod text;

pub use buffer::TokenRingBuffer;
pub use numeric::{
    multiplier_factor, normalize_digits, scan_numerics, split_numeric_lexeme, NumericLexeme,
};
pub use pii::{PiiDetector, PiiMatch, PiiType};
