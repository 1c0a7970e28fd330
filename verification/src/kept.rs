//! A value that is held for later.
//!
//! What is put in is what is found there, also where it is a reference to a trait
//! object.

use vstd::prelude::*;

verus! {

/// A value that is held.
pub(crate) struct Kept<T> {
    pub(crate) inner: T,
}

/// Holds a value.
pub(crate) fn keep<T>(x: T) -> (k: Kept<T>)
    ensures
        k.inner == x,
{
    Kept { inner: x }
}

} // verus!
