use core::marker::PhantomData;
use core::mem::{align_of, size_of};
use vstd::prelude::*;

verus! {

/// Tells how a type is laid out in memory.
#[derive(Debug)]
pub struct Typeinfo<T> {
    pub(crate) phantom: PhantomData<T>,
}

impl<T> Typeinfo<T> {
    pub fn new() -> Self {
        Typeinfo { phantom: PhantomData }
    }

    /// The size of a value of the type, in bytes.
    pub fn size() -> (size: usize)
        ensures
            size as nat == vstd::layout::size_of::<T>(),
    {
        size_of::<T>()
    }

    /// The alignment of the type, in bytes.
    pub fn alignment() -> (alignment: usize)
        ensures
            alignment as nat == vstd::layout::align_of::<T>(),
    {
        align_of::<T>()
    }
}

impl<T> Default for Typeinfo<T> {
    fn default() -> Self {
        Typeinfo { phantom: PhantomData }
    }
}

} // verus!
