//! What every reader of bits can do besides reading bits.

use crate::de::BitUnpack;
use crate::de_as::BitUnpackAs;
use crate::error::Error;
use crate::reader::{BitReader, unpack_outcome};
use crate::sequence::{decode_many_as, unpack_many_as};
use vstd::prelude::*;

verus! {

/// Methods that every reader has.
pub trait BitReaderExt: BitReader + Sized {
    /// Reads a value as its type encodes it.
    fn unpack<T: BitUnpack>(&mut self) -> (r: Result<T, Error>)
        requires
            old(self).wf(),
        ensures
            unpack_outcome(*old(self), *final(self), r, T::decode(old(self).remaining())),
    {
        T::unpack(self)
    }

    /// Reads a value as the strategy `As` encodes it.
    fn unpack_as<T: DeepView, As: BitUnpackAs<T>>(&mut self) -> (r: Result<T, Error>)
        requires
            old(self).wf(),
        ensures
            unpack_outcome(*old(self), *final(self), r, As::decode_as(old(self).remaining())),
    {
        As::unpack_as(self)
    }

    /// Reads `n` values one after the other, each as the strategy `As`
    /// encodes it; an error carries the position of the value that could
    /// not be read.
    fn unpack_many_as<T: DeepView, As: BitUnpackAs<T>>(&mut self, n: usize) -> (r: Result<
        Vec<T>,
        Error,
    >)
        requires
            old(self).wf(),
        ensures
            unpack_outcome(
                *old(self),
                *final(self),
                r,
                decode_many_as::<T, As>(old(self).remaining(), n as nat),
            ),
    {
        unpack_many_as::<T, As, Self>(self, n)
    }
}

impl<T: BitReader> BitReaderExt for T {
}

} // verus!
