//! Values buffered for a named argument.

use vstd::prelude::*;

verus! {

/// A read-only window over the values of one named argument.
///
/// The window borrows a contiguous sub-slice of the original argv array; no
/// text is copied, and the window lives no longer than that array.
#[derive(Clone, Copy, Debug, PartialEq)]
pub struct Values<'a> {
    slice: &'a [&'a str],
}

impl<'a> View for Values<'a> {
    type V = Seq<Seq<char>>;

    closed spec fn view(&self) -> Seq<Seq<char>> {
        self.slice.deep_view()
    }
}

impl<'a> DeepView for Values<'a> {
    type V = Seq<Seq<char>>;

    open spec fn deep_view(&self) -> Seq<Seq<char>> {
        self.view()
    }
}

impl<'a> Values<'a> {
    /// Create a new value window over the given slice.
    pub fn new(slice: &'a [&'a str]) -> (r: Self)
        ensures
            r@ == slice.deep_view(),
    {
        Values { slice }
    }

    /// Create an empty value window.
    pub fn empty() -> (r: Self)
        ensures
            r@ == Seq::<Seq<char>>::empty(),
    {
        let slice: &'a [&'a str] = &[];
        assert(slice.deep_view() =~= Seq::<Seq<char>>::empty());
        Values { slice }
    }

    /// The number of buffered values.
    pub fn len(&self) -> (r: usize)
        ensures
            r == self@.len(),
    {
        self.slice.len()
    }

    /// Whether the window holds no value.
    pub fn is_empty(&self) -> (r: bool)
        ensures
            r == (self@.len() == 0),
    {
        self.slice.len() == 0
    }

    /// The value at the given position.
    pub fn get(&self, i: usize) -> (r: &'a str)
        requires
            i < self@.len(),
        ensures
            r@ == self@[i as int],
    {
        self.slice[i]
    }

    /// All buffered values, in order.
    #[verifier::loop_isolation(false)]
    pub fn iter(&self) -> (r: Vec<&'a str>)
        ensures
            r.deep_view() == self@,
    {
        let mut out: Vec<&'a str> = Vec::new();
        let mut i: usize = 0;
        while i < self.slice.len()
            invariant
                i <= self.slice.len(),
                out.deep_view() =~= self@.take(i as int),
            decreases self.slice.len() - i,
        {
            out.push(self.slice[i]);
            i = i + 1;
            proof {
                assert(out.deep_view() =~= self@.take(i as int));
            }
        }
        assert(out.deep_view() =~= self@);
        out
    }
}

/// The number of expected values on a given argument.
#[derive(Debug, Clone, Copy, PartialEq, Eq, PartialOrd, Ord, Hash, Structural)]
pub enum AtMost {
    /// No value expected.
    Zero,

    /// Exactly one value expected.
    One,

    /// One or more values expected.
    Many,
}

impl View for AtMost {
    type V = AtMost;

    open spec fn view(&self) -> AtMost {
        *self
    }
}

impl DeepView for AtMost {
    type V = AtMost;

    open spec fn deep_view(&self) -> AtMost {
        *self
    }
}

} // verus!
