//! Queries: a selector text applied to a document in one call.

use vstd::prelude::*;
use crate::document::{DocView, Document};
use crate::grammar::parse_spec;
use crate::parser::{parse_path, ParseError};
use crate::resolve::{resolve_all, resolve_spec, ResolveError, ResolveFailure};

verus! {

/// Why a query gave no value.
#[derive(Debug, PartialEq, Eq)]
pub enum QueryError {
    /// The selector text is no query.
    Parse(ParseError),
    /// A step of the path could not be taken.
    Resolve(ResolveError),
}

/// The mathematical value of a [`QueryError`].
pub enum QueryFailure {
    /// No token can be read at this offset of the selector text.
    Parse(int),
    Resolve(ResolveFailure),
}

impl View for QueryError {
    type V = QueryFailure;

    open spec fn view(&self) -> QueryFailure {
        match self {
            QueryError::Parse(e) => QueryFailure::Parse(e.offset as int),
            QueryError::Resolve(e) => QueryFailure::Resolve(e@),
        }
    }
}

/// The value that the selector `text` addresses in `doc`.
pub open spec fn query_spec(doc: DocView, text: Seq<char>) -> Result<DocView, QueryFailure> {
    match parse_spec(text) {
        Ok(path) => match resolve_spec(doc, path) {
            Ok(value) => Ok(value),
            Err(failure) => Err(QueryFailure::Resolve(failure)),
        },
        Err(offset) => Err(QueryFailure::Parse(offset)),
    }
}

impl Document {
    /// Applies the selector `sel` to this document.
    ///
    /// The result holds one value, a copy of what `sel` addresses. A selector
    /// that is no query is reported before any step is taken; else the first
    /// step that fails is reported.
    pub fn jq(&self, sel: &str) -> (r: Result<Vec<Document>, QueryError>)
        ensures
            match query_spec(self@, sel@) {
                Ok(value) => r matches Ok(values) && values.len() == 1 && values@[0]@ == value,
                Err(failure) => r matches Err(e) && e@ == failure,
            },
    {
        let path = match parse_path(sel) {
            Ok(path) => path,
            Err(e) => {
                return Err(QueryError::Parse(e));
            },
        };
        let docs: [&Document; 1] = [self];
        match resolve_all(&docs, &path) {
            Ok(values) => Ok(values),
            Err(e) => Err(QueryError::Resolve(e)),
        }
    }
}

} // verus!
