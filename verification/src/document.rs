//! The document value model: scalars, ordered sequences and ordered mappings,
//! with keyed and indexed access that fails in a defined way.

use vstd::prelude::*;

verus! {

/// The shape of a document value.
#[derive(Clone, Copy, Debug, PartialEq, Eq, Structural)]
pub enum Shape {
    Scalar,
    Sequence,
    Mapping,
}

/// A leaf value.
#[derive(Debug, PartialEq, Eq)]
pub enum Scalar {
    Null,
    Bool(bool),
    Int(i128),
    Str(String),
}

/// The mathematical value of a [`Scalar`].
pub enum ScalarView {
    Null,
    Bool(bool),
    Int(int),
    Str(Seq<char>),
}

impl View for Scalar {
    type V = ScalarView;

    open spec fn view(&self) -> ScalarView {
        match self {
            Scalar::Null => ScalarView::Null,
            Scalar::Bool(b) => ScalarView::Bool(*b),
            Scalar::Int(n) => ScalarView::Int(*n as int),
            Scalar::Str(s) => ScalarView::Str(s@),
        }
    }
}

impl Clone for Scalar {
    fn clone(&self) -> (r: Self)
        ensures
            r@ == self@,
    {
        match self {
            Scalar::Null => Scalar::Null,
            Scalar::Bool(b) => Scalar::Bool(*b),
            Scalar::Int(n) => Scalar::Int(*n),
            Scalar::Str(s) => Scalar::Str(s.clone()),
        }
    }
}

/// A dynamically shaped tree value. A mapping keeps its entries in insertion
/// order; a lookup by key yields the first entry that carries the key.
#[derive(Debug, PartialEq, Eq)]
pub enum Document {
    Scalar(Scalar),
    Sequence(Vec<Document>),
    Mapping(Vec<(String, Document)>),
}

/// The mathematical value of a [`Document`].
pub enum DocView {
    Scalar(ScalarView),
    Sequence(Seq<DocView>),
    Mapping(Seq<(Seq<char>, DocView)>),
}

/// `i` is the position of the first entry of `entries` whose key is `key`.
pub open spec fn first_with_key(entries: Seq<(Seq<char>, DocView)>, key: Seq<char>, i: int) -> bool {
    &&& 0 <= i < entries.len()
    &&& entries[i].0 == key
    &&& forall|j: int| 0 <= j < i ==> (#[trigger] entries[j]).0 != key
}

/// Some entry of `entries` carries `key`.
pub open spec fn has_key(entries: Seq<(Seq<char>, DocView)>, key: Seq<char>) -> bool {
    exists|i: int| first_with_key(entries, key, i)
}

/// The position of the first entry of `entries` that carries `key`.
pub open spec fn key_position(entries: Seq<(Seq<char>, DocView)>, key: Seq<char>) -> int {
    choose|i: int| first_with_key(entries, key, i)
}

/// No two entries of `entries` carry the same key.
pub open spec fn keys_unique(entries: Seq<(Seq<char>, DocView)>) -> bool {
    forall|i: int, j: int|
        0 <= i < j < entries.len() ==> (#[trigger] entries[i]).0 != (#[trigger] entries[j]).0
}

impl DocView {
    pub open spec fn shape(self) -> Shape {
        match self {
            DocView::Scalar(_) => Shape::Scalar,
            DocView::Sequence(_) => Shape::Sequence,
            DocView::Mapping(_) => Shape::Mapping,
        }
    }

    /// The value under `key`, where `self` is a mapping that has the key.
    pub open spec fn field(self, key: Seq<char>) -> Option<DocView> {
        match self {
            DocView::Mapping(entries) => if has_key(entries, key) {
                Some(entries[key_position(entries, key)].1)
            } else {
                None
            },
            _ => None,
        }
    }

    /// The element at position `n`, where `self` is a sequence that long.
    pub open spec fn element(self, n: int) -> Option<DocView> {
        match self {
            DocView::Sequence(items) => if 0 <= n < items.len() {
                Some(items[n])
            } else {
                None
            },
            _ => None,
        }
    }

    /// The number of elements, where `self` is a sequence.
    pub open spec fn count(self) -> Option<nat> {
        match self {
            DocView::Sequence(items) => Some(items.len()),
            _ => None,
        }
    }

    /// `self` with the value under `key` replaced by `value`; `self` where
    /// there is no such field.
    pub open spec fn with_field(self, key: Seq<char>, value: DocView) -> DocView {
        match self {
            DocView::Mapping(entries) => if has_key(entries, key) {
                DocView::Mapping(entries.update(key_position(entries, key), (key, value)))
            } else {
                self
            },
            _ => self,
        }
    }

    /// `self` with the element at `n` replaced by `value`; `self` where
    /// there is no such element.
    pub open spec fn with_element(self, n: int, value: DocView) -> DocView {
        match self {
            DocView::Sequence(items) => if 0 <= n < items.len() {
                DocView::Sequence(items.update(n, value))
            } else {
                self
            },
            _ => self,
        }
    }

    /// Every mapping in the tree has pairwise distinct keys.
    pub open spec fn well_formed(self) -> bool
        decreases self,
    {
        match self {
            DocView::Scalar(_) => true,
            DocView::Sequence(items) => forall|i: int|
                0 <= i < items.len() ==> (#[trigger] items[i]).well_formed(),
            DocView::Mapping(entries) => keys_unique(entries) && forall|i: int|
                0 <= i < entries.len() ==> (#[trigger] entries[i]).1.well_formed(),
        }
    }
}

/// The value of a document, by recursion over the tree.
pub open spec fn document_view(d: Document) -> DocView
    decreases d,
{
    match d {
        Document::Scalar(s) => DocView::Scalar(s@),
        Document::Sequence(items) => DocView::Sequence(
            Seq::new(
                items@.len(),
                |i: int|
                    if 0 <= i < items@.len() {
                        document_view(items@[i])
                    } else {
                        arbitrary()
                    },
            ),
        ),
        Document::Mapping(entries) => DocView::Mapping(
            Seq::new(
                entries@.len(),
                |i: int|
                    if 0 <= i < entries@.len() {
                        (entries@[i].0@, document_view(entries@[i].1))
                    } else {
                        arbitrary()
                    },
            ),
        ),
    }
}

/// The values of a run of documents, one for one.
pub open spec fn item_views(items: Seq<Document>) -> Seq<DocView> {
    Seq::new(items.len(), |i: int| document_view(items[i]))
}

/// The values of a run of entries, one for one.
pub open spec fn entry_views(entries: Seq<(String, Document)>) -> Seq<(Seq<char>, DocView)> {
    Seq::new(entries.len(), |i: int| (entries[i].0@, document_view(entries[i].1)))
}

impl View for Document {
    type V = DocView;

    open spec fn view(&self) -> DocView {
        document_view(*self)
    }
}

/// The first position is the chosen one.
pub proof fn lemma_key_position(entries: Seq<(Seq<char>, DocView)>, key: Seq<char>, i: int)
    requires
        first_with_key(entries, key, i),
    ensures
        has_key(entries, key),
        key_position(entries, key) == i,
{
    let p = key_position(entries, key);
    assert(first_with_key(entries, key, p));
    if p < i {
        assert(entries[p].0 != key);
    }
    if i < p {
        assert(entries[i].0 != key);
    }
}

/// Writing back the value that already stands under a key changes nothing.
pub proof fn lemma_with_field_same(d: DocView, key: Seq<char>)
    ensures
        d.field(key) matches Some(value) ==> d.with_field(key, value) == d,
{
    if let Some(value) = d.field(key) {
        let entries = d->Mapping_0;
        let i = key_position(entries, key);
        assert(first_with_key(entries, key, i));
        assert(entries.update(i, (key, value)) =~= entries);
    }
}

/// Writing back the element that already stands at a position changes nothing.
pub proof fn lemma_with_element_same(d: DocView, n: int)
    ensures
        d.element(n) matches Some(value) ==> d.with_element(n, value) == d,
{
    if let Some(value) = d.element(n) {
        let items = d->Sequence_0;
        assert(items.update(n, value) =~= items);
    }
}

/// What was written under a key is what a lookup of that key finds.
pub proof fn lemma_field_of_with_field(d: DocView, key: Seq<char>, value: DocView)
    requires
        d.field(key) is Some,
    ensures
        d.with_field(key, value).field(key) == Some(value),
        d.with_field(key, value).shape() == d.shape(),
{
    let entries = d->Mapping_0;
    let i = key_position(entries, key);
    assert(first_with_key(entries, key, i));
    let written = entries.update(i, (key, value));
    assert forall|j: int| 0 <= j < i implies (#[trigger] written[j]).0 != key by {
        assert(written[j] == entries[j]);
    }
    assert(first_with_key(written, key, i));
    lemma_key_position(written, key, i);
}

/// What was written at a position is what a lookup of that position finds.
pub proof fn lemma_element_of_with_element(d: DocView, n: int, value: DocView)
    requires
        d.element(n) is Some,
    ensures
        d.with_element(n, value).element(n) == Some(value),
        d.with_element(n, value).shape() == d.shape(),
{
}

/// The position of the first entry with the key `key`, by a scan from the front.
fn find_key(entries: &Vec<(String, Document)>, key: &String) -> (r: Option<usize>)
    ensures
        match r {
            Some(i) => i < entries.len() && entries@[i as int].0@ == key@ && forall|j: int|
                0 <= j < i ==> (#[trigger] entries@[j]).0@ != key@,
            None => forall|j: int| 0 <= j < entries.len() ==> (#[trigger] entries@[j]).0@ != key@,
        },
{
    let mut i: usize = 0;
    while i < entries.len()
        invariant
            i <= entries.len(),
            forall|j: int| 0 <= j < i ==> (#[trigger] entries@[j]).0@ != key@,
        decreases entries.len() - i,
    {
        if entries[i].0 == *key {
            return Some(i);
        }
        i += 1;
    }
    None
}

impl Document {
    /// Every mapping in the tree has pairwise distinct keys.
    pub open spec fn wf(&self) -> bool {
        self@.well_formed()
    }

    /// The null scalar.
    pub fn null() -> (r: Document)
        ensures
            r@ == DocView::Scalar(ScalarView::Null),
    {
        Document::Scalar(Scalar::Null)
    }

    /// A boolean scalar.
    pub fn boolean(value: bool) -> (r: Document)
        ensures
            r@ == DocView::Scalar(ScalarView::Bool(value)),
    {
        Document::Scalar(Scalar::Bool(value))
    }

    /// An integer scalar.
    pub fn integer(value: i128) -> (r: Document)
        ensures
            r@ == DocView::Scalar(ScalarView::Int(value as int)),
    {
        Document::Scalar(Scalar::Int(value))
    }

    /// A string scalar.
    pub fn string(value: &str) -> (r: Document)
        ensures
            r@ == DocView::Scalar(ScalarView::Str(value@)),
    {
        Document::Scalar(Scalar::Str(value.to_owned()))
    }

    /// The sequence of `items`, in their order.
    pub fn sequence(items: Vec<Document>) -> (r: Document)
        ensures
            r@ == DocView::Sequence(item_views(items@)),
            (forall|i: int| 0 <= i < items.len() ==> (#[trigger] items@[i]).wf()) ==> r.wf(),
    {
        let r = Document::Sequence(items);
        proof {
            assert(r@->Sequence_0 =~= item_views(items@));
        }
        r
    }

    /// The mapping of `entries`, in their order; `None` where two of them
    /// carry the same key.
    pub fn mapping(entries: Vec<(String, Document)>) -> (r: Option<Document>)
        ensures
            match r {
                Some(d) => d@ == DocView::Mapping(entry_views(entries@)) && keys_unique(
                    entry_views(entries@),
                ) && ((forall|i: int| 0 <= i < entries.len() ==> (#[trigger] entries@[i]).1.wf())
                    ==> d.wf()),
                None => !keys_unique(entry_views(entries@)),
            },
    {
        let ghost views = entry_views(entries@);
        let mut i: usize = 0;
        while i < entries.len()
            invariant
                i <= entries.len(),
                views == entry_views(entries@),
                forall|a: int, b: int|
                    0 <= a < b < i ==> (#[trigger] views[a]).0 != (#[trigger] views[b]).0,
            decreases entries.len() - i,
        {
            let mut j: usize = 0;
            while j < i
                invariant
                    j <= i < entries.len(),
                    views == entry_views(entries@),
                    forall|a: int| 0 <= a < j ==> (#[trigger] views[a]).0 != views[i as int].0,
                decreases i - j,
            {
                if entries[j].0 == entries[i].0 {
                    proof {
                        assert(views[j as int].0 == views[i as int].0);
                    }
                    return None;
                }
                j += 1;
            }
            i += 1;
        }
        let r = Document::Mapping(entries);
        proof {
            assert(r@->Mapping_0 =~= views);
        }
        Some(r)
    }

    pub fn shape_of(&self) -> (r: Shape)
        ensures
            r == self@.shape(),
    {
        match self {
            Document::Scalar(_) => Shape::Scalar,
            Document::Sequence(_) => Shape::Sequence,
            Document::Mapping(_) => Shape::Mapping,
        }
    }

    /// The number of elements of a sequence; `None` for any other shape.
    pub fn length_of(&self) -> (r: Option<usize>)
        ensures
            match r {
                Some(n) => self@.count() == Some(n as nat),
                None => self@.count() is None,
            },
    {
        match self {
            Document::Sequence(items) => Some(items.len()),
            _ => None,
        }
    }

    /// The element at position `n` of a sequence; `None` where `self` is no
    /// sequence or is too short.
    pub fn get_index(&self, n: usize) -> (r: Option<&Document>)
        ensures
            match r {
                Some(d) => self@.element(n as int) == Some(d@),
                None => self@.element(n as int) is None,
            },
    {
        match self {
            Document::Sequence(items) => if n < items.len() {
                Some(&items[n])
            } else {
                None
            },
            _ => None,
        }
    }

    /// The value under `key` in a mapping; `None` where `self` is no mapping
    /// or lacks the key.
    pub fn get_field(&self, key: &str) -> (r: Option<&Document>)
        ensures
            match r {
                Some(d) => self@.field(key@) == Some(d@),
                None => self@.field(key@) is None,
            },
    {
        let owned = key.to_owned();
        self.lookup(&owned)
    }

    pub(crate) fn lookup(&self, key: &String) -> (r: Option<&Document>)
        ensures
            match r {
                Some(d) => self@.field(key@) == Some(d@),
                None => self@.field(key@) is None,
            },
    {
        match self {
            Document::Mapping(entries) => match find_key(entries, key) {
                Some(i) => {
                    proof {
                        lemma_key_position(self@->Mapping_0, key@, i as int);
                    }
                    Some(&entries[i].1)
                },
                None => None,
            },
            _ => None,
        }
    }

    /// An exclusive handle on the element at position `n` of a sequence. What
    /// is written through the handle replaces that element and nothing else.
    pub fn get_index_mut(&mut self, n: usize) -> (r: Option<&mut Document>)
        ensures
            match r {
                Some(d) => old(self)@.element(n as int) == Some(d@) && final(self)@ == old(
                    self,
                )@.with_element(n as int, final(d)@),
                None => old(self)@.element(n as int) is None && final(self)@ == old(self)@,
            },
    {
        let ghost after = *final(self);
        match self {
            Document::Sequence(items) => if n < items.len() {
                let ghost after_items = *final(items);
                let slot = &mut items[n];
                proof {
                    let replaced = old(self)@.with_element(n as int, final(slot)@);
                    assert(after == Document::Sequence(after_items));
                    assert(after@->Sequence_0 =~= replaced->Sequence_0);
                }
                Some(slot)
            } else {
                None
            },
            _ => None,
        }
    }

    /// An exclusive handle on the value under `key` in a mapping. What is
    /// written through the handle replaces that value and nothing else.
    pub fn get_field_mut(&mut self, key: &str) -> (r: Option<&mut Document>)
        ensures
            match r {
                Some(d) => old(self)@.field(key@) == Some(d@) && final(self)@ == old(
                    self,
                )@.with_field(key@, final(d)@),
                None => old(self)@.field(key@) is None && final(self)@ == old(self)@,
            },
    {
        let owned = key.to_owned();
        self.lookup_mut(&owned)
    }

    pub(crate) fn lookup_mut(&mut self, key: &String) -> (r: Option<&mut Document>)
        ensures
            match r {
                Some(d) => old(self)@.field(key@) == Some(d@) && final(self)@ == old(
                    self,
                )@.with_field(key@, final(d)@),
                None => old(self)@.field(key@) is None && final(self)@ == old(self)@,
            },
    {
        let ghost after = *final(self);
        match self {
            Document::Mapping(entries) => match find_key(entries, key) {
                Some(i) => {
                    let ghost after_entries = *final(entries);
                    proof {
                        lemma_key_position(old(self)@->Mapping_0, key@, i as int);
                    }
                    let slot = &mut entries[i].1;
                    proof {
                        let replaced = old(self)@.with_field(key@, final(slot)@);
                        assert(after == Document::Mapping(after_entries));
                        assert(after@->Mapping_0 =~= replaced->Mapping_0);
                    }
                    Some(slot)
                },
                None => None,
            },
            _ => None,
        }
    }
}

impl Clone for Document {
    fn clone(&self) -> (r: Self)
        ensures
            r@ == self@,
        decreases self,
    {
        match self {
            Document::Scalar(s) => Document::Scalar(s.clone()),
            Document::Sequence(items) => {
                let mut out: Vec<Document> = Vec::new();
                let mut i: usize = 0;
                while i < items.len()
                    invariant
                        i <= items.len(),
                        out.len() == i,
                        *self == Document::Sequence(*items),
                        forall|j: int| 0 <= j < i ==> out@[j]@ == items@[j]@,
                    decreases items.len() - i,
                {
                    assert(decreases_to!(self => self->Sequence_0));
                    assert(decreases_to!(items => items@));
                    assert(decreases_to!(items@ => items@[i as int]));
                    out.push(items[i].clone());
                    i += 1;
                }
                let r = Document::Sequence(out);
                assert(r@->Sequence_0 =~= self@->Sequence_0);
                r
            },
            Document::Mapping(entries) => {
                let mut out: Vec<(String, Document)> = Vec::new();
                let mut i: usize = 0;
                while i < entries.len()
                    invariant
                        i <= entries.len(),
                        out.len() == i,
                        *self == Document::Mapping(*entries),
                        forall|j: int|
                            0 <= j < i ==> out@[j].0@ == entries@[j].0@ && out@[j].1@
                                == entries@[j].1@,
                    decreases entries.len() - i,
                {
                    assert(decreases_to!(self => self->Mapping_0));
                    assert(decreases_to!(entries => entries@));
                    assert(decreases_to!(entries@ => entries@[i as int]));
                    assert(decreases_to!(entries@[i as int] => entries@[i as int].1));
                    out.push((entries[i].0.clone(), entries[i].1.clone()));
                    i += 1;
                }
                let r = Document::Mapping(out);
                assert(r@->Mapping_0 =~= self@->Mapping_0);
                r
            },
        }
    }
}

} // verus!
