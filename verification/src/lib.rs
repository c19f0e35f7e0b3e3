//! A path-query engine over dynamically shaped documents.
//!
//! A selector such as `.child | .vals[0]` is parsed once into a [`Path`] and
//! then resolved against any number of [`Document`] values, by reference, by
//! exclusive handle, or by value.

pub mod document;
pub mod grammar;
pub mod laws;
pub mod parser;
pub mod query;
pub mod resolve;
pub mod selector;

pub use document::{DocView, Document, Scalar, ScalarView, Shape};
pub use parser::{parse_path, ParseError};
pub use query::{QueryError, QueryFailure};
pub use resolve::{
    resolve, resolve_all, resolve_mut, ResolveError, ResolveFailure, Resolved, ResolvedMut,
};
pub use selector::{Builtin, Path, Selector, SelectorView};
