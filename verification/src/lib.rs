//! Text-position and indexing engine for a parser runtime.
//!
//! The engine translates between linear byte offsets and 1-based
//! line/column coordinates, renders one-line diagnostic snippets with an
//! aligned caret pointer, and exposes the input as a sequence of UTF-16
//! code units tagged with the number of source bytes each unit stands for.

pub mod context;
pub mod lines;
pub mod scalars;
pub mod span;
pub mod text;
pub mod utf16;

pub use span::TextContext;
pub use span::TextPosition;
pub use span::TextSpan;
pub use text::Text;
pub use utf16::Utf16Iter;
