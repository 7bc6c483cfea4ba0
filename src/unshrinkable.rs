//! A wrapper that switches shrinking off for the value it holds.
use vstd::prelude::*;

verus! {

/// Holds a value that quickcheck never shrinks: its shrinker yields no
/// candidates. Wrapping the elements of a `Vec` in it, for instance, lets
/// the `Vec` be shrunk in length while its elements stay as they are.
///
/// A value made by `quickcheck::Arbitrary::arbitrary` holds nothing; one
/// made by `new` holds its argument.
#[derive(Debug, Clone)]
pub struct Unshrinkable<T>(Option<T>);

impl<T> View for Unshrinkable<T> {
    type V = Option<T>;

    closed spec fn view(&self) -> Option<T> {
        self.0
    }
}

impl<T> Unshrinkable<T> {
    /// Wraps `x`.
    pub fn new(x: T) -> (r: Self)
        ensures
            r@ == Some(x),
    {
        Unshrinkable(Some(x))
    }

    /// The value that `new` wrapped.
    pub fn take(self) -> (r: T)
        requires
            self@ is Some,
        ensures
            self@ == Some(r),
    {
        self.0.unwrap()
    }
}

impl<T: Clone + 'static> quickcheck::Arbitrary for Unshrinkable<T> {
    fn arbitrary(_g: &mut quickcheck::Gen) -> Self {
        Unshrinkable(None)
    }
}

} // verus!
