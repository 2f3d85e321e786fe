//! SetVer: version identifiers that are hereditarily finite sets.
//!
//! A version is a finite set whose members are themselves such sets,
//! written as nested curly braces (`{}`, `{{}}`, `{{}{{}}}`, ...).
//! The library parses such texts, emits the unique canonical text of a
//! value, compares two values by the subset relation, and converts a
//! brace text to its compact byte or integer encoding.

pub mod codec;
pub mod laws;
pub mod parse;
pub mod text;
pub mod version;

pub use codec::SetVerEncodeError;
pub use parse::SetVerParseError;
pub use version::SetOrder;
pub use version::SetVerOrdering;
pub use version::SetVersion;
