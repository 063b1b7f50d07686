//! Aggregation of validation errors.
//!
//! A path names a location inside a nested value as a sequence of
//! kind-tagged text components; it is backed by a persistent list, so
//! extending it is constant-time and leaves every existing path
//! untouched. A report collects `(Path, Error)` pairs in insertion
//! order, and `select` extracts the errors whose path starts with a
//! given pattern.

pub mod error;
pub mod list;
pub mod path;
pub mod pattern;
pub mod report;

pub use error::Error;
pub use list::List;
pub use pattern::Pattern;
pub use report::Report;
pub use path::Kind;
pub use path::NoKey;
pub use path::Path;
pub use path::PathComponentKind;
pub use path::Sealed;
