//! An attributed string for text terminals.
//!
//! An attributed string manages a UTF-8 string together with display attributes
//! attached to byte ranges of it, and renders the combination as the string
//! interleaved with ANSI SGR escape codes.

pub mod attribute;
pub mod attributed_string;
pub mod escape_code;
pub mod events;
pub mod laws;

pub use attribute::Attribute;
pub use attributed_string::AttributedString;
pub use escape_code::EscapeCode;
