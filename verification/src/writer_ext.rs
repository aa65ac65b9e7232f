//! What every writer of bits can do besides writing bits.

use crate::error::{Error, ErrorKind, Failure, reports};
use crate::sequence::{
    all_packable, all_packable_as, all_packable_as_with, concat, encodings, encodings_as,
    encodings_as_with, first_failure, first_failure_with, pack_many_as, pack_many_as_with,
    write_bytes,
};
use crate::ser::{BitPack, BitPackWithArgs};
use crate::ser_as::{BitPackAs, BitPackAsWithArgs, Same};
use crate::storage::{Bits, bytes_to_bits};
use crate::writer::{BitCounter, BitWriter, LimitWriter, Tee, pack_outcome, repeated};
use vstd::prelude::*;

verus! {

/// The strategy with arguments that writes a value as the value's own type
/// encodes it with these arguments.
impl<T: BitPackWithArgs + ?Sized> BitPackAsWithArgs<T> for Same {
    type Args = T::Args;

    open spec fn packable_as_with(v: T::V, args: T::Args) -> bool {
        T::packable_with(v, args)
    }

    open spec fn encoding_as_with(v: T::V, args: T::Args) -> Seq<bool> {
        T::encoding_with(v, args)
    }

    open spec fn failure_as_with(v: T::V, args: T::Args, room: nat) -> Failure {
        T::failure_with(v, args, room)
    }

    fn pack_as_with<W: BitWriter>(source: &T, writer: &mut W, args: T::Args) -> (r: Result<
        (),
        Error,
    >) {
        let ghost _own = (
            <Self as BitPackAsWithArgs<T>>::packable_as_with(source.deep_view(), args),
            <Self as BitPackAsWithArgs<T>>::encoding_as_with(source.deep_view(), args),
            <Self as BitPackAsWithArgs<T>>::failure_as_with(source.deep_view(), args, writer.room()),
        );
        source.pack_with(writer, args)
    }
}

/// Methods that every writer has.
pub trait BitWriterExt: BitWriter + Sized {
    /// Writes one bit.
    fn with_bit(&mut self, bit: bool) -> (r: Result<(), Error>)
        requires
            old(self).wf(),
        ensures
            pack_outcome(*old(self), *final(self), r, true, seq![bit]),
            r matches Err(e) ==> reports(e, old(self).plain(), Failure::of(ErrorKind::Capacity)),
    {
        assert(self.written() + seq![bit] =~= self.written().push(bit));
        self.write_bit(bit)
    }

    /// Writes the bits of a bit string.
    fn with_bits(&mut self, bits: &Bits) -> (r: Result<(), Error>)
        requires
            old(self).wf(),
        ensures
            pack_outcome(*old(self), *final(self), r, true, bits@),
            r matches Err(e) ==> reports(e, old(self).plain(), Failure::of(ErrorKind::Capacity)),
    {
        self.write_bitslice(bits)
    }

    /// Writes `n` copies of one bit.
    fn with_repeat_bit(&mut self, n: usize, bit: bool) -> (r: Result<(), Error>)
        requires
            old(self).wf(),
        ensures
            pack_outcome(*old(self), *final(self), r, true, repeated(n as nat, bit)),
            r matches Err(e) ==> reports(e, old(self).plain(), Failure::of(ErrorKind::Capacity)),
    {
        self.repeat_bit(n, bit)
    }

    /// Writes the bits of a byte string, the most significant bit of each
    /// byte first.
    fn with_bytes(&mut self, bytes: &[u8]) -> (r: Result<(), Error>)
        requires
            old(self).wf(),
        ensures
            pack_outcome(*old(self), *final(self), r, true, bytes_to_bits(bytes@)),
            r matches Err(e) ==> reports(e, old(self).plain(), Failure::of(ErrorKind::Capacity)),
    {
        write_bytes(self, bytes)
    }

    /// Writes a value as its type encodes it.
    fn pack<T: BitPack>(&mut self, value: T) -> (r: Result<(), Error>)
        requires
            old(self).wf(),
        ensures
            pack_outcome(
                *old(self),
                *final(self),
                r,
                T::packable(value.deep_view()),
                T::encoding(value.deep_view()),
            ),
            r matches Err(e) ==> reports(
                e,
                old(self).plain(),
                T::failure(value.deep_view(), old(self).room()),
            ),
    {
        value.pack(self)
    }

    /// Writes a value as its type encodes it with the given arguments.
    fn pack_with<T: BitPackWithArgs>(&mut self, value: T, args: T::Args) -> (r: Result<
        (),
        Error,
    >)
        requires
            old(self).wf(),
        ensures
            pack_outcome(
                *old(self),
                *final(self),
                r,
                T::packable_with(value.deep_view(), args),
                T::encoding_with(value.deep_view(), args),
            ),
            r matches Err(e) ==> reports(
                e,
                old(self).plain(),
                T::failure_with(
                    value.deep_view(),
                    args,
                    old(self).room(),
                ),
            ),
    {
        value.pack_with(self, args)
    }

    /// Writes the values of a slice one after the other; an error carries
    /// the position of the value that could not be written.
    fn pack_many<T: BitPack>(&mut self, values: &[T]) -> (r: Result<(), Error>)
        requires
            old(self).wf(),
        ensures
            pack_outcome(
                *old(self),
                *final(self),
                r,
                all_packable::<T>(values.deep_view()),
                concat(encodings::<T>(values.deep_view())),
            ),
            r matches Err(e) ==> reports(
                e,
                old(self).plain(),
                first_failure::<T, Same>(
                    values.deep_view(),
                    old(self).room(),
                    0,
                ),
            ),
    {
        assert(encodings::<T>(values.deep_view()) =~= encodings_as::<T, Same>(
            values.deep_view(),
        ));
        pack_many_as::<T, Same, Self>(self, values)
    }

    /// Writes the values of a slice one after the other, all with the same
    /// arguments; an error carries the position of the value that could not
    /// be written.
    fn pack_many_with<T: BitPackWithArgs>(&mut self, values: &[T], args: T::Args) -> (r: Result<
        (),
        Error,
    >) where T::Args: Copy
        requires
            old(self).wf(),
        ensures
            pack_outcome(
                *old(self),
                *final(self),
                r,
                all_packable_as_with::<T, Same>(values.deep_view(), args),
                concat(encodings_as_with::<T, Same>(values.deep_view(), args)),
            ),
            r matches Err(e) ==> reports(
                e,
                old(self).plain(),
                first_failure_with::<T, Same>(
                    values.deep_view(),
                    args,
                    old(self).room(),
                    0,
                ),
            ),
    {
        pack_many_as_with::<T, Same, Self>(self, values, args)
    }

    /// Writes a value as the strategy `As` encodes it.
    fn pack_as<T: DeepView, As: BitPackAs<T> + ?Sized>(&mut self, value: T) -> (r: Result<
        (),
        Error,
    >)
        requires
            old(self).wf(),
        ensures
            pack_outcome(
                *old(self),
                *final(self),
                r,
                As::packable_as(value.deep_view()),
                As::encoding_as(value.deep_view()),
            ),
            r matches Err(e) ==> reports(
                e,
                old(self).plain(),
                As::failure_as(value.deep_view(), old(self).room()),
            ),
    {
        As::pack_as(&value, self)
    }

    /// Writes a value as the strategy `As` encodes it with the given
    /// arguments.
    fn pack_as_with<T: DeepView, As: BitPackAsWithArgs<T> + ?Sized>(
        &mut self,
        value: T,
        args: As::Args,
    ) -> (r: Result<(), Error>)
        requires
            old(self).wf(),
        ensures
            pack_outcome(
                *old(self),
                *final(self),
                r,
                As::packable_as_with(value.deep_view(), args),
                As::encoding_as_with(value.deep_view(), args),
            ),
            r matches Err(e) ==> reports(
                e,
                old(self).plain(),
                As::failure_as_with(
                    value.deep_view(),
                    args,
                    old(self).room(),
                ),
            ),
    {
        As::pack_as_with(&value, self, args)
    }

    /// Writes the values of a slice one after the other, each as the
    /// strategy `As` encodes it; an error carries the position of the value
    /// that could not be written.
    fn pack_many_as<T: DeepView, As: BitPackAs<T>>(&mut self, values: &[T]) -> (r: Result<
        (),
        Error,
    >)
        requires
            old(self).wf(),
        ensures
            pack_outcome(
                *old(self),
                *final(self),
                r,
                all_packable_as::<T, As>(values.deep_view()),
                concat(encodings_as::<T, As>(values.deep_view())),
            ),
            r matches Err(e) ==> reports(
                e,
                old(self).plain(),
                first_failure::<T, As>(
                    values.deep_view(),
                    old(self).room(),
                    0,
                ),
            ),
    {
        pack_many_as::<T, As, Self>(self, values)
    }

    /// Writes the values of a slice one after the other, each as the
    /// strategy `As` encodes it with the same arguments; an error carries
    /// the position of the value that could not be written.
    fn pack_many_as_with<T: DeepView, As: BitPackAsWithArgs<T>>(
        &mut self,
        values: &[T],
        args: As::Args,
    ) -> (r: Result<(), Error>) where As::Args: Copy
        requires
            old(self).wf(),
        ensures
            pack_outcome(
                *old(self),
                *final(self),
                r,
                all_packable_as_with::<T, As>(values.deep_view(), args),
                concat(encodings_as_with::<T, As>(values.deep_view(), args)),
            ),
            r matches Err(e) ==> reports(
                e,
                old(self).plain(),
                first_failure_with::<T, As>(
                    values.deep_view(),
                    args,
                    old(self).room(),
                    0,
                ),
            ),
    {
        pack_many_as_with::<T, As, Self>(self, values, args)
    }

    /// This writer, with the bits counted that are written from now on.
    fn counted(self) -> (c: BitCounter<Self>)
        ensures
            c.target() == self,
            c.count() == 0,
    {
        BitCounter::new(self)
    }

    /// This writer, with no more than `n` bits to be written from now on.
    fn limit(self, n: usize) -> (w: LimitWriter<Self>)
        ensures
            w.target() == self,
            w.count() == 0,
            w.max_count() == n,
    {
        LimitWriter::new(self, n)
    }

    /// This writer, with every bit handed to `writer` as well.
    fn tee<W: BitWriter>(self, writer: W) -> (t: Tee<Self, W>)
        ensures
            t.first() == self,
            t.second() == writer,
    {
        Tee::new(self, writer)
    }
}

impl<T: BitWriter> BitWriterExt for T {
}

} // verus!
