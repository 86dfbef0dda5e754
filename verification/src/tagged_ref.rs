//! A shared reference that carries a two-bit tag.

use crate::share::share;
use std::sync::Arc;
use vstd::prelude::*;

verus! {

/// The largest tag that a reference can carry: a tag takes two bits.
pub const TAG_MASK: usize = 0b11;

/// The error of a tag that does not fit its two bits.
#[derive(Clone, Copy, Debug, PartialEq, Eq)]
pub struct InvalidTag {
    /// The tag that was asked for.
    pub tag: usize,
}

/// A shared reference to a value, with a small tag that tells of what kind the value is.
#[derive(Debug)]
pub struct TaggedRef<T> {
    pointer: Arc<T>,
    tag: usize,
}

impl<T> TaggedRef<T> {
    /// The tag fits its two bits.
    #[verifier::type_invariant]
    pub closed spec fn wf(&self) -> bool {
        self.tag <= TAG_MASK
    }

    /// The value that the reference points to.
    pub closed spec fn value(&self) -> T {
        *self.pointer
    }

    /// The tag that the reference carries.
    pub closed spec fn tag_spec(&self) -> usize {
        self.tag
    }

    /// A reference to `value` that carries `tag`.
    pub fn new(value: T, tag: usize) -> (r: Self)
        requires
            tag <= TAG_MASK,
        ensures
            r.value() == value,
            r.tag_spec() == tag,
    {
        Self { pointer: Arc::new(value), tag }
    }

    /// A reference to `value` that carries `tag`, or the error if `tag` does not fit.
    pub fn try_new(value: T, tag: usize) -> (r: Result<Self, InvalidTag>)
        ensures
            match r {
                Ok(tagged_ref) => {
                    &&& tag <= TAG_MASK
                    &&& tagged_ref.value() == value
                    &&& tagged_ref.tag_spec() == tag
                },
                Err(e) => tag > TAG_MASK && e == (InvalidTag { tag }),
            },
    {
        if tag > TAG_MASK {
            Err(InvalidTag { tag })
        } else {
            Ok(Self::new(value, tag))
        }
    }

    /// The tag that the reference carries.
    pub fn tag(&self) -> (t: usize)
        ensures
            t == self.tag_spec(),
            t <= TAG_MASK,
    {
        proof {
            use_type_invariant(self);
        }
        self.tag
    }

    /// The value that the reference points to.
    pub fn as_ref(&self) -> (r: &T)
        ensures
            *r == self.value(),
    {
        &*self.pointer
    }
}

impl<T> Clone for TaggedRef<T> {
    /// Another reference to the same value, with the same tag.
    fn clone(&self) -> (r: Self)
        ensures
            r.value() == self.value(),
            r.tag_spec() == self.tag_spec(),
    {
        proof {
            use_type_invariant(self);
        }
        Self { pointer: share(&self.pointer), tag: self.tag }
    }
}

} // verus!
