//! The resolver: folds a path over a document, one token at a time from the
//! left, and stops at the first step that fails.

use vstd::prelude::*;
use crate::document::{
    lemma_with_element_same, lemma_with_field_same, DocView, Document, Scalar, ScalarView, Shape,
};
use crate::selector::{selector_views, Builtin, Path, Selector, SelectorView};

verus! {

/// Why a step could not be taken.
#[derive(Debug, PartialEq, Eq)]
pub enum ResolveError {
    /// The step needs a value of shape `expected`; the current one is `actual`.
    TypeMismatch { expected: Shape, actual: Shape },
    /// The current mapping has no entry with this key.
    NoSuchKey(String),
    /// The current sequence has `length` elements, `requested` is none of them.
    IndexOutOfRange { requested: usize, length: usize },
}

/// The mathematical value of a [`ResolveError`].
pub enum ResolveFailure {
    TypeMismatch { expected: Shape, actual: Shape },
    NoSuchKey(Seq<char>),
    IndexOutOfRange { requested: nat, length: nat },
}

impl View for ResolveError {
    type V = ResolveFailure;

    open spec fn view(&self) -> ResolveFailure {
        match self {
            ResolveError::TypeMismatch { expected, actual } => ResolveFailure::TypeMismatch {
                expected: *expected,
                actual: *actual,
            },
            ResolveError::NoSuchKey(name) => ResolveFailure::NoSuchKey(name@),
            ResolveError::IndexOutOfRange { requested, length } => ResolveFailure::IndexOutOfRange {
                requested: *requested as nat,
                length: *length as nat,
            },
        }
    }
}

impl Clone for ResolveError {
    fn clone(&self) -> (r: Self)
        ensures
            r@ == self@,
    {
        match self {
            ResolveError::TypeMismatch { expected, actual } => ResolveError::TypeMismatch {
                expected: *expected,
                actual: *actual,
            },
            ResolveError::NoSuchKey(name) => ResolveError::NoSuchKey(name.clone()),
            ResolveError::IndexOutOfRange { requested, length } => ResolveError::IndexOutOfRange {
                requested: *requested,
                length: *length,
            },
        }
    }
}

/// What one token makes of the current value.
pub open spec fn step_spec(current: DocView, token: SelectorView) -> Result<
    DocView,
    ResolveFailure,
> {
    match token {
        SelectorView::Field(name) => match current {
            DocView::Mapping(_) => match current.field(name) {
                Some(value) => Ok(value),
                None => Err(ResolveFailure::NoSuchKey(name)),
            },
            _ => Err(
                ResolveFailure::TypeMismatch { expected: Shape::Mapping, actual: current.shape() },
            ),
        },
        SelectorView::Index(n) => match current {
            DocView::Sequence(items) => if n < items.len() {
                Ok(items[n as int])
            } else {
                Err(ResolveFailure::IndexOutOfRange { requested: n, length: items.len() })
            },
            _ => Err(
                ResolveFailure::TypeMismatch { expected: Shape::Sequence, actual: current.shape() },
            ),
        },
        SelectorView::Builtin(Builtin::Length) => match current {
            DocView::Sequence(items) => Ok(DocView::Scalar(ScalarView::Int(items.len() as int))),
            _ => Err(
                ResolveFailure::TypeMismatch { expected: Shape::Sequence, actual: current.shape() },
            ),
        },
        SelectorView::PipeBoundary => Ok(current),
        SelectorView::End => Ok(current),
    }
}

/// The value that `path` addresses from `current`: the steps are taken in
/// order up to `End`, and the first one that fails is the outcome.
pub open spec fn resolve_spec(current: DocView, path: Seq<SelectorView>) -> Result<
    DocView,
    ResolveFailure,
>
    decreases path.len(),
{
    if path.len() == 0 || path[0] is End {
        Ok(current)
    } else {
        match step_spec(current, path[0]) {
            Ok(next) => resolve_spec(next, path.drop_first()),
            Err(failure) => Err(failure),
        }
    }
}

/// Some step of `path` before its end is a builtin, so that what the path
/// addresses is computed and has no place in the document.
pub open spec fn computes(path: Seq<SelectorView>) -> bool
    decreases path.len(),
{
    if path.len() == 0 || path[0] is End {
        false
    } else {
        path[0] is Builtin || computes(path.drop_first())
    }
}

/// The document `current` with the place that `path` addresses overwritten
/// by `value`; `current` itself where the path addresses no place in it.
pub open spec fn replace_spec(current: DocView, path: Seq<SelectorView>, value: DocView) -> DocView
    decreases path.len(),
{
    if path.len() == 0 || path[0] is End {
        value
    } else {
        match path[0] {
            SelectorView::Field(name) => match current.field(name) {
                Some(child) => current.with_field(
                    name,
                    replace_spec(child, path.drop_first(), value),
                ),
                None => current,
            },
            SelectorView::Index(n) => match current.element(n as int) {
                Some(child) => current.with_element(
                    n as int,
                    replace_spec(child, path.drop_first(), value),
                ),
                None => current,
            },
            SelectorView::PipeBoundary => replace_spec(current, path.drop_first(), value),
            _ => current,
        }
    }
}

/// A resolved value: a reference into the document, or a value of its own
/// where a builtin computed it.
#[derive(Debug, PartialEq, Eq)]
pub enum Resolved<'a> {
    Borrowed(&'a Document),
    Owned(Document),
}

impl<'a> View for Resolved<'a> {
    type V = DocView;

    open spec fn view(&self) -> DocView {
        match self {
            Resolved::Borrowed(d) => d@,
            Resolved::Owned(d) => d@,
        }
    }
}

impl<'a> Resolved<'a> {
    /// The resolved value, by reference.
    pub fn get(&self) -> (r: &Document)
        ensures
            r@ == self@,
    {
        match self {
            Resolved::Borrowed(d) => d,
            Resolved::Owned(d) => d,
        }
    }

    /// The resolved value, as a value of its own.
    pub fn into_owned(self) -> (r: Document)
        ensures
            r@ == self@,
    {
        match self {
            Resolved::Borrowed(d) => d.clone(),
            Resolved::Owned(d) => d,
        }
    }
}

/// A place resolved for writing: an exclusive handle into the document, or a
/// value of its own where a builtin computed it.
#[derive(Debug, PartialEq, Eq)]
pub enum ResolvedMut<'a> {
    Located(&'a mut Document),
    Computed(Document),
}

/// The error of a `Field` step on a value that yields nothing under `name`.
fn field_failure(shape: Shape, name: &String) -> (r: ResolveError)
    ensures
        r@ == (if shape == Shape::Mapping {
            ResolveFailure::NoSuchKey(name@)
        } else {
            ResolveFailure::TypeMismatch { expected: Shape::Mapping, actual: shape }
        }),
{
    match shape {
        Shape::Mapping => ResolveError::NoSuchKey(name.clone()),
        _ => ResolveError::TypeMismatch { expected: Shape::Mapping, actual: shape },
    }
}

/// The error of an `Index` step on a value of shape `shape` that has no
/// element `requested`; `length` is its length where it is a sequence.
fn index_failure(shape: Shape, length: Option<usize>, requested: usize) -> (r: ResolveError)
    ensures
        r@ == (match length {
            Some(n) => ResolveFailure::IndexOutOfRange {
                requested: requested as nat,
                length: n as nat,
            },
            None => ResolveFailure::TypeMismatch { expected: Shape::Sequence, actual: shape },
        }),
{
    match length {
        Some(n) => ResolveError::IndexOutOfRange { requested, length: n },
        None => ResolveError::TypeMismatch { expected: Shape::Sequence, actual: shape },
    }
}

/// The value of the `length` builtin on `current`.
fn length_value(current: &Document) -> (r: Result<Document, ResolveError>)
    ensures
        match r {
            Ok(value) => step_spec(current@, SelectorView::Builtin(Builtin::Length)) == Ok::<
                DocView,
                ResolveFailure,
            >(value@),
            Err(e) => step_spec(current@, SelectorView::Builtin(Builtin::Length)) == Err::<
                DocView,
                ResolveFailure,
            >(e@),
        },
{
    match current.length_of() {
        Some(count) => Ok(Document::Scalar(Scalar::Int(count as i128))),
        None => Err(
            ResolveError::TypeMismatch { expected: Shape::Sequence, actual: current.shape_of() },
        ),
    }
}

/// Resolves the tokens from `start` on against `doc`.
fn resolve_from<'a>(doc: &'a Document, tokens: &Vec<Selector>, start: usize) -> (r: Result<
    Resolved<'a>,
    ResolveError,
>)
    requires
        start <= tokens.len(),
    ensures
        match r {
            Ok(value) => resolve_spec(doc@, selector_views(tokens@).skip(start as int)) == Ok::<
                DocView,
                ResolveFailure,
            >(value@) && (value is Owned <==> computes(
                selector_views(tokens@).skip(start as int),
            )),
            Err(e) => resolve_spec(doc@, selector_views(tokens@).skip(start as int)) == Err::<
                DocView,
                ResolveFailure,
            >(e@),
        },
    decreases tokens.len() - start,
{
    let ghost path = selector_views(tokens@);
    let mut current: &'a Document = doc;
    let mut i: usize = start;
    while i < tokens.len()
        invariant
            start <= i <= tokens.len(),
            path == selector_views(tokens@),
            resolve_spec(doc@, path.skip(start as int)) == resolve_spec(
                current@,
                path.skip(i as int),
            ),
            computes(path.skip(start as int)) == computes(path.skip(i as int)),
        decreases tokens.len() - i,
    {
        proof {
            assert(path.skip(i as int)[0] == tokens@[i as int]@);
            assert(path.skip(i as int).drop_first() =~= path.skip(i + 1));
        }
        match &tokens[i] {
            Selector::End => {
                return Ok(Resolved::Borrowed(current));
            },
            Selector::PipeBoundary => {},
            Selector::Field(name) => match current.lookup(name) {
                Some(child) => {
                    current = child;
                },
                None => {
                    return Err(field_failure(current.shape_of(), name));
                },
            },
            Selector::Index(n) => match current.get_index(*n) {
                Some(child) => {
                    current = child;
                },
                None => {
                    return Err(index_failure(current.shape_of(), current.length_of(), *n));
                },
            },
            Selector::Builtin(Builtin::Length) => {
                return match length_value(current) {
                    Ok(value) => match resolve_from(&value, tokens, i + 1) {
                        Ok(rest) => Ok(Resolved::Owned(rest.into_owned())),
                        Err(e) => Err(e),
                    },
                    Err(e) => Err(e),
                };
            },
        }
        i += 1;
    }
    Ok(Resolved::Borrowed(current))
}

/// Resolves `path` against `doc` for reading.
///
/// The result is the value that the path addresses: a reference into `doc`
/// where every step descends, a value of its own where a builtin computed
/// it. The first step that fails is returned as the error.
pub fn resolve<'a>(doc: &'a Document, path: &Path) -> (r: Result<Resolved<'a>, ResolveError>)
    ensures
        match r {
            Ok(value) => resolve_spec(doc@, path@) == Ok::<DocView, ResolveFailure>(value@) && (
            value is Owned <==> computes(path@)),
            Err(e) => resolve_spec(doc@, path@) == Err::<DocView, ResolveFailure>(e@),
        },
{
    let tokens = path.tokens();
    proof {
        assert(selector_views(tokens@).skip(0) =~= path@);
    }
    resolve_from(doc, tokens, 0)
}

/// Resolves the tokens from `start` on against `doc`, for writing.
fn resolve_mut_from<'a>(doc: &'a mut Document, tokens: &Vec<Selector>, start: usize) -> (r: Result<
    ResolvedMut<'a>,
    ResolveError,
>)
    requires
        start <= tokens.len(),
    ensures
        match r {
            Ok(ResolvedMut::Located(place)) => resolve_spec(
                old(doc)@,
                selector_views(tokens@).skip(start as int),
            ) == Ok::<DocView, ResolveFailure>(place@) && !computes(
                selector_views(tokens@).skip(start as int),
            ) && final(doc)@ == replace_spec(
                old(doc)@,
                selector_views(tokens@).skip(start as int),
                final(place)@,
            ),
            Ok(ResolvedMut::Computed(value)) => resolve_spec(
                old(doc)@,
                selector_views(tokens@).skip(start as int),
            ) == Ok::<DocView, ResolveFailure>(value@) && computes(
                selector_views(tokens@).skip(start as int),
            ) && final(doc)@ == old(doc)@,
            Err(e) => resolve_spec(old(doc)@, selector_views(tokens@).skip(start as int)) == Err::<
                DocView,
                ResolveFailure,
            >(e@) && final(doc)@ == old(doc)@,
        },
    decreases tokens.len() - start,
{
    if start >= tokens.len() {
        return Ok(ResolvedMut::Located(doc));
    }
    let ghost path = selector_views(tokens@).skip(start as int);
    proof {
        assert(path[0] == tokens@[start as int]@);
        assert(path.drop_first() =~= selector_views(tokens@).skip(start + 1));
    }
    match &tokens[start] {
        Selector::End => Ok(ResolvedMut::Located(doc)),
        Selector::PipeBoundary => resolve_mut_from(doc, tokens, start + 1),
        Selector::Field(name) => {
            let shape = doc.shape_of();
            proof {
                lemma_with_field_same(doc@, name@);
            }
            match doc.lookup_mut(name) {
                Some(child) => resolve_mut_from(child, tokens, start + 1),
                None => Err(field_failure(shape, name)),
            }
        },
        Selector::Index(n) => {
            let shape = doc.shape_of();
            let length = doc.length_of();
            proof {
                lemma_with_element_same(doc@, *n as int);
            }
            match doc.get_index_mut(*n) {
                Some(child) => resolve_mut_from(child, tokens, start + 1),
                None => Err(index_failure(shape, length, *n)),
            }
        },
        Selector::Builtin(Builtin::Length) => match length_value(doc) {
            Ok(value) => match resolve_from(&value, tokens, start + 1) {
                Ok(rest) => Ok(ResolvedMut::Computed(rest.into_owned())),
                Err(e) => Err(e),
            },
            Err(e) => Err(e),
        },
    }
}

/// Resolves `path` against `doc` for writing.
///
/// Where every step descends, the result is an exclusive handle on the
/// place that the path addresses: what the caller writes through it
/// replaces that place in `doc` and nothing else. Where a builtin computed
/// the value, the result is that value and `doc` stays as it was. The first
/// step that fails is returned as the error, and `doc` stays as it was.
pub fn resolve_mut<'a>(doc: &'a mut Document, path: &Path) -> (r: Result<
    ResolvedMut<'a>,
    ResolveError,
>)
    ensures
        match r {
            Ok(ResolvedMut::Located(place)) => resolve_spec(old(doc)@, path@) == Ok::<
                DocView,
                ResolveFailure,
            >(place@) && !computes(path@) && final(doc)@ == replace_spec(
                old(doc)@,
                path@,
                final(place)@,
            ),
            Ok(ResolvedMut::Computed(value)) => resolve_spec(old(doc)@, path@) == Ok::<
                DocView,
                ResolveFailure,
            >(value@) && computes(path@) && final(doc)@ == old(doc)@,
            Err(e) => resolve_spec(old(doc)@, path@) == Err::<DocView, ResolveFailure>(e@)
                && final(doc)@ == old(doc)@,
        },
{
    let tokens = path.tokens();
    proof {
        assert(selector_views(tokens@).skip(0) =~= path@);
    }
    resolve_mut_from(doc, tokens, 0)
}

/// Resolves `path` against each of `docs` and returns the values in that
/// order, each as a value of its own. The first document on which the path
/// fails ends the call with that failure, and no value is returned.
pub fn resolve_all(docs: &[&Document], path: &Path) -> (r: Result<Vec<Document>, ResolveError>)
    ensures
        match r {
            Ok(values) => values.len() == docs.len() && forall|i: int|
                0 <= i < docs.len() ==> resolve_spec((#[trigger] docs@[i])@, path@) == Ok::<
                    DocView,
                    ResolveFailure,
                >(values@[i]@),
            Err(e) => exists|i: int|
                0 <= i < docs.len() && resolve_spec((#[trigger] docs@[i])@, path@) == Err::<
                    DocView,
                    ResolveFailure,
                >(e@) && forall|j: int|
                    0 <= j < i ==> resolve_spec((#[trigger] docs@[j])@, path@) is Ok,
        },
{
    let mut values: Vec<Document> = Vec::new();
    let mut i: usize = 0;
    while i < docs.len()
        invariant
            i <= docs.len(),
            values.len() == i,
            forall|j: int|
                0 <= j < i ==> resolve_spec((#[trigger] docs@[j])@, path@) == Ok::<
                    DocView,
                    ResolveFailure,
                >(values@[j]@),
        decreases docs.len() - i,
    {
        match resolve(docs[i], path) {
            Ok(value) => {
                values.push(value.into_owned());
            },
            Err(e) => {
                return Err(e);
            },
        }
        i += 1;
    }
    Ok(values)
}

} // verus!
