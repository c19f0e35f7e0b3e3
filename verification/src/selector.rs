//! Selector tokens and parsed paths.

use vstd::prelude::*;

verus! {

/// A named aggregate that replaces the current value by a computed one.
#[derive(Clone, Copy, Debug, PartialEq, Eq, Structural)]
pub enum Builtin {
    /// The number of elements of a sequence.
    Length,
}

/// One step of a path.
#[derive(Debug, PartialEq, Eq)]
pub enum Selector {
    /// Descend into a mapping by key.
    Field(String),
    /// Descend into a sequence by position.
    Index(usize),
    /// Replace the current value by an aggregate of it.
    Builtin(Builtin),
    /// The boundary that a `|` leaves between two segments; it changes nothing.
    PipeBoundary,
    /// The end of the path.
    End,
}

/// The mathematical value of a [`Selector`].
pub enum SelectorView {
    Field(Seq<char>),
    Index(nat),
    Builtin(Builtin),
    PipeBoundary,
    End,
}

impl View for Selector {
    type V = SelectorView;

    open spec fn view(&self) -> SelectorView {
        match self {
            Selector::Field(name) => SelectorView::Field(name@),
            Selector::Index(n) => SelectorView::Index(*n as nat),
            Selector::Builtin(b) => SelectorView::Builtin(*b),
            Selector::PipeBoundary => SelectorView::PipeBoundary,
            Selector::End => SelectorView::End,
        }
    }
}

impl Clone for Selector {
    fn clone(&self) -> (r: Self)
        ensures
            r@ == self@,
    {
        match self {
            Selector::Field(name) => Selector::Field(name.clone()),
            Selector::Index(n) => Selector::Index(*n),
            Selector::Builtin(b) => Selector::Builtin(*b),
            Selector::PipeBoundary => Selector::PipeBoundary,
            Selector::End => Selector::End,
        }
    }
}

/// The values of a run of selectors, one for one.
pub open spec fn selector_views(tokens: Seq<Selector>) -> Seq<SelectorView> {
    Seq::new(tokens.len(), |i: int| tokens[i]@)
}

/// `tokens` ends in `End` and holds no other `End`.
pub open spec fn terminated(tokens: Seq<SelectorView>) -> bool {
    &&& tokens.len() > 0
    &&& tokens.last() is End
    &&& forall|i: int| 0 <= i < tokens.len() - 1 ==> !((#[trigger] tokens[i]) is End)
}

/// An ordered run of selector tokens that ends in `End`. A path holds no
/// reference to any document and can be resolved against many.
#[derive(Debug, PartialEq, Eq)]
pub struct Path {
    tokens: Vec<Selector>,
}

impl View for Path {
    type V = Seq<SelectorView>;

    closed spec fn view(&self) -> Seq<SelectorView> {
        selector_views(self.tokens@)
    }
}

impl Path {
    #[verifier::type_invariant]
    spec fn inv(&self) -> bool {
        terminated(selector_views(self.tokens@))
    }

    /// The path made of `steps` followed by `End`; `None` where `steps`
    /// already holds an `End`.
    pub fn new(steps: Vec<Selector>) -> (r: Option<Path>)
        ensures
            match r {
                Some(p) => p@ == selector_views(steps@).push(SelectorView::End) && terminated(p@),
                None => exists|i: int| 0 <= i < steps.len() && (#[trigger] steps@[i])@ is End,
            },
    {
        let mut i: usize = 0;
        while i < steps.len()
            invariant
                i <= steps.len(),
                forall|j: int| 0 <= j < i ==> !((#[trigger] steps@[j])@ is End),
            decreases steps.len() - i,
        {
            match &steps[i] {
                Selector::End => {
                    return None;
                },
                _ => {},
            }
            i += 1;
        }
        Some(Path::from_steps(steps))
    }

    /// The path made of `steps` followed by `End`.
    pub(crate) fn from_steps(steps: Vec<Selector>) -> (r: Path)
        requires
            forall|i: int| 0 <= i < steps.len() ==> !((#[trigger] steps@[i])@ is End),
        ensures
            r@ == selector_views(steps@).push(SelectorView::End),
            terminated(r@),
    {
        let ghost before = selector_views(steps@);
        let mut tokens = steps;
        tokens.push(Selector::End);
        proof {
            assert(selector_views(tokens@) =~= before.push(SelectorView::End));
        }
        Path { tokens }
    }

    /// The number of tokens, `End` included.
    pub fn len(&self) -> (r: usize)
        ensures
            r == self@.len(),
            r > 0,
    {
        proof {
            use_type_invariant(self);
        }
        self.tokens.len()
    }

    /// The token at position `i`.
    pub fn token(&self, i: usize) -> (r: &Selector)
        requires
            i < self@.len(),
        ensures
            r@ == self@[i as int],
    {
        &self.tokens[i]
    }

    /// The tokens in order, `End` included.
    pub fn tokens(&self) -> (r: &Vec<Selector>)
        ensures
            selector_views(r@) == self@,
            terminated(self@),
    {
        proof {
            use_type_invariant(self);
        }
        &self.tokens
    }
}

impl Clone for Path {
    fn clone(&self) -> (r: Self)
        ensures
            r@ == self@,
    {
        proof {
            use_type_invariant(self);
        }
        let mut tokens: Vec<Selector> = Vec::new();
        let mut i: usize = 0;
        while i < self.tokens.len()
            invariant
                i <= self.tokens.len(),
                tokens.len() == i,
                forall|j: int| 0 <= j < i ==> tokens@[j]@ == self.tokens@[j]@,
            decreases self.tokens.len() - i,
        {
            tokens.push(self.tokens[i].clone());
            i += 1;
        }
        proof {
            assert(selector_views(tokens@) =~= selector_views(self.tokens@));
        }
        Path { tokens }
    }
}

} // verus!
