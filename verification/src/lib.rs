//! Rendering of citation markers and formatted reference text.
//!
//! The crate has two halves: [`DisplayString`], an append-only rich-text
//! buffer that tracks bold / italic / no-hyphenation spans over its own
//! character offsets and can render them as ANSI escape sequences, and the
//! citation marker formatters, which turn an ordered sequence of
//! [`AtomicCitation`] values into a short printable marker such as
//! `[1-3; 5, p.9]` or `Smith99 (p.4), Doe01`.

pub mod citation;
pub mod display;
pub mod numbers;
mod strutil;

pub use citation::AtomicCitation;
pub use citation::BibliographyFormatter;
pub use citation::CitationError;
pub use citation::CitationFormatter;
pub use citation::CitationMode;
pub use citation::KeyCitationFormatter;
pub use citation::NumericalCitationFormatter;
pub use display::DisplayString;
pub use display::FormatSpan;
pub use display::Formatting;
