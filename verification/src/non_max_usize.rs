//! An index that is never `usize::MAX`, for parent and component links.
use vstd::prelude::*;

verus! {

/// A `usize` that can never be `usize::MAX`.
///
/// Like `NonZeroUsize`, which excludes zero, it excludes one value: the
/// largest, which an index of the pool never reaches.
#[derive(Clone, Copy, Debug, PartialEq, Eq, Hash, Structural)]
pub struct NonMaxUsize(usize);

impl View for NonMaxUsize {
    type V = usize;

    closed spec fn view(&self) -> usize {
        self.0
    }
}

impl NonMaxUsize {
    #[verifier::type_invariant]
    spec fn never_max(self) -> bool {
        self.0 != usize::MAX
    }

    /// Wraps `value`, or returns `None` when it is `usize::MAX`.
    pub fn new(value: usize) -> (r: Option<Self>)
        ensures
            r is Some <==> value != usize::MAX,
            r matches Some(x) ==> x@ == value,
    {
        if value == usize::MAX {
            None
        } else {
            Some(Self::new_unchecked(value))
        }
    }

    /// Wraps `value`, which the caller guarantees is not `usize::MAX`.
    pub fn new_unchecked(value: usize) -> (r: Self)
        requires
            value != usize::MAX,
        ensures
            r@ == value,
    {
        NonMaxUsize(value)
    }

    /// The wrapped value.
    pub fn get(self) -> (r: usize)
        ensures
            r == self@,
            r != usize::MAX,
    {
        proof {
            use_type_invariant(self);
        }
        self.0
    }
}

impl From<NonMaxUsize> for usize {
    fn from(val: NonMaxUsize) -> (r: usize) {
        val.get()
    }
}

impl vstd::std_specs::convert::FromSpecImpl<NonMaxUsize> for usize {
    open spec fn obeys_from_spec() -> bool {
        true
    }

    open spec fn from_spec(v: NonMaxUsize) -> usize {
        v@
    }
}

} // verus!
