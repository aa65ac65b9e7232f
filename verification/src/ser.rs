//! Values that have an encoding in bits.

use crate::either::Either;
use crate::error::{Context, Error, ErrorKind, Failure, lemma_reports_at, reports};
use crate::storage::{Bits, max_bits};
use crate::writer::{BitWriter, lemma_prefix_chain, pack_outcome, writable};
use std::rc::Rc;
use std::sync::Arc;
use vstd::prelude::*;

verus! {

/// A type whose values are written as bits.
///
/// `encoding` gives the bits of a value and `packable` says whether a value
/// has an encoding at all. Both speak of the value's deep view.
pub trait BitPack: DeepView {
    /// Whether the value can be written.
    spec fn packable(v: Self::V) -> bool;

    /// The bits that stand for the value.
    spec fn encoding(v: Self::V) -> Seq<bool>;

    /// The failure of writing the value where the writer has room for
    /// `room` bits: of kind `Custom` for a value that cannot be written,
    /// `Capacity` for one that does not fit. A type of several parts gives
    /// the failure of the first part that fails, and on its trail the place
    /// of that part.
    open spec fn failure(v: Self::V, room: nat) -> Failure {
        if Self::packable(v) {
            Failure::of(ErrorKind::Capacity)
        } else {
            Failure::of(ErrorKind::Custom)
        }
    }

    /// Writes the value's encoding.
    fn pack<W: BitWriter>(&self, writer: &mut W) -> (r: Result<(), Error>)
        requires
            old(writer).wf(),
        ensures
            pack_outcome(
                *old(writer),
                *final(writer),
                r,
                Self::packable(self.deep_view()),
                Self::encoding(self.deep_view()),
            ),
            r matches Err(e) ==> reports(
                e,
                old(writer).plain(),
                Self::failure(self.deep_view(), old(writer).room()),
            ),
    ;
}

/// A type whose values are written as bits in a way that depends on
/// arguments given with the call.
pub trait BitPackWithArgs: DeepView {
    /// What the encoding depends on besides the value.
    type Args;

    /// Whether the value can be written with these arguments.
    spec fn packable_with(v: Self::V, args: Self::Args) -> bool;

    /// The bits that stand for the value with these arguments.
    spec fn encoding_with(v: Self::V, args: Self::Args) -> Seq<bool>;

    /// The failure of writing the value where the writer has room for
    /// `room` bits: of kind `Custom` for a value that cannot be written,
    /// `Capacity` for one that does not fit.
    open spec fn failure_with(v: Self::V, args: Self::Args, room: nat) -> Failure {
        if Self::packable_with(v, args) {
            Failure::of(ErrorKind::Capacity)
        } else {
            Failure::of(ErrorKind::Custom)
        }
    }

    /// Writes the value's encoding.
    fn pack_with<W: BitWriter>(&self, writer: &mut W, args: Self::Args) -> (r: Result<(), Error>)
        requires
            old(writer).wf(),
        ensures
            pack_outcome(
                *old(writer),
                *final(writer),
                r,
                Self::packable_with(self.deep_view(), args),
                Self::encoding_with(self.deep_view(), args),
            ),
            r matches Err(e) ==> reports(
                e,
                old(writer).plain(),
                Self::failure_with(self.deep_view(), args, old(writer).room()),
            ),
    ;
}

/// The bits that stand for a value; an error of kind `Capacity` where they
/// are more than a bit string can hold.
pub fn pack<T: BitPack>(value: T) -> (r: Result<Bits, Error>)
    ensures
        r is Ok <==> T::packable(value.deep_view()) && T::encoding(value.deep_view()).len()
            <= max_bits(),
        r matches Ok(bits) ==> bits@ == T::encoding(value.deep_view()),
        r matches Err(e) ==> e@ == T::failure(value.deep_view(), max_bits()),
        r matches Err(e) ==> e.kind == ErrorKind::Capacity || (e.kind == ErrorKind::Custom
            && !T::packable(value.deep_view())),
{
    let mut writer = Bits::new();
    value.pack(&mut writer)?;
    assert(Seq::<bool>::empty() + T::encoding(value.deep_view()) =~= T::encoding(
        value.deep_view(),
    ));
    Ok(writer)
}

/// The bits that stand for a value with the given arguments; an error of
/// kind `Capacity` where they are more than a bit string can hold.
pub fn pack_with<T: BitPackWithArgs>(value: T, args: T::Args) -> (r: Result<Bits, Error>)
    ensures
        r is Ok <==> T::packable_with(value.deep_view(), args) && T::encoding_with(
            value.deep_view(),
            args,
        ).len() <= max_bits(),
        r matches Ok(bits) ==> bits@ == T::encoding_with(value.deep_view(), args),
        r matches Err(e) ==> e@ == T::failure_with(value.deep_view(), args, max_bits()),
        r matches Err(e) ==> e.kind == ErrorKind::Capacity || (e.kind == ErrorKind::Custom
            && !T::packable_with(value.deep_view(), args)),
{
    let mut writer = Bits::new();
    let ghost bits = T::encoding_with(value.deep_view(), args);
    value.pack_with(&mut writer, args)?;
    assert(Seq::<bool>::empty() + bits =~= bits);
    Ok(writer)
}

impl BitPack for () {
    open spec fn packable(v: ()) -> bool {
        true
    }

    open spec fn encoding(v: ()) -> Seq<bool> {
        Seq::empty()
    }

    fn pack<W: BitWriter>(&self, writer: &mut W) -> (r: Result<(), Error>)
        ensures
            r is Ok,
            *final(writer) == *old(writer),
    {
        let ghost _own = (
            Self::packable(self.deep_view()),
            Self::encoding(self.deep_view()),
            Self::failure(self.deep_view(), writer.room()),
        );
        assert(writer.written() + Seq::<bool>::empty() =~= writer.written());
        Ok(())
    }
}

impl BitPack for bool {
    open spec fn packable(v: bool) -> bool {
        true
    }

    open spec fn encoding(v: bool) -> Seq<bool> {
        seq![v]
    }

    fn pack<W: BitWriter>(&self, writer: &mut W) -> (r: Result<(), Error>) {
        let ghost _own = (
            Self::packable(self.deep_view()),
            Self::encoding(self.deep_view()),
            Self::failure(self.deep_view(), writer.room()),
        );
        assert(writer.written() + seq![*self] =~= writer.written().push(*self));
        writer.write_bit(*self)
    }
}

impl BitPack for Bits {
    open spec fn packable(v: Seq<bool>) -> bool {
        true
    }

    open spec fn encoding(v: Seq<bool>) -> Seq<bool> {
        v
    }

    fn pack<W: BitWriter>(&self, writer: &mut W) -> (r: Result<(), Error>) {
        let ghost _own = (
            Self::packable(self.deep_view()),
            Self::encoding(self.deep_view()),
            Self::failure(self.deep_view(), writer.room()),
        );
        writer.write_bitslice(self)
    }
}

impl<'a, T: BitPack + ?Sized> BitPack for &'a T {
    open spec fn packable(v: T::V) -> bool {
        T::packable(v)
    }

    open spec fn encoding(v: T::V) -> Seq<bool> {
        T::encoding(v)
    }

    open spec fn failure(v: T::V, room: nat) -> Failure {
        T::failure(v, room)
    }

    fn pack<W: BitWriter>(&self, writer: &mut W) -> (r: Result<(), Error>) {
        let ghost _own = (
            Self::packable(self.deep_view()),
            Self::encoding(self.deep_view()),
            Self::failure(self.deep_view(), writer.room()),
        );
        (**self).pack(writer)
    }
}

impl<T: BitPack + ?Sized> BitPack for Box<T> {
    open spec fn packable(v: T::V) -> bool {
        T::packable(v)
    }

    open spec fn encoding(v: T::V) -> Seq<bool> {
        T::encoding(v)
    }

    open spec fn failure(v: T::V, room: nat) -> Failure {
        T::failure(v, room)
    }

    fn pack<W: BitWriter>(&self, writer: &mut W) -> (r: Result<(), Error>) {
        let ghost _own = (
            Self::packable(self.deep_view()),
            Self::encoding(self.deep_view()),
            Self::failure(self.deep_view(), writer.room()),
        );
        (**self).pack(writer)
    }
}

impl<T: BitPack> BitPack for Rc<T> {
    open spec fn packable(v: T::V) -> bool {
        T::packable(v)
    }

    open spec fn encoding(v: T::V) -> Seq<bool> {
        T::encoding(v)
    }

    open spec fn failure(v: T::V, room: nat) -> Failure {
        T::failure(v, room)
    }

    fn pack<W: BitWriter>(&self, writer: &mut W) -> (r: Result<(), Error>) {
        let ghost _own = (
            Self::packable(self.deep_view()),
            Self::encoding(self.deep_view()),
            Self::failure(self.deep_view(), writer.room()),
        );
        (**self).pack(writer)
    }
}

impl<T: BitPack> BitPack for Arc<T> {
    open spec fn packable(v: T::V) -> bool {
        T::packable(v)
    }

    open spec fn encoding(v: T::V) -> Seq<bool> {
        T::encoding(v)
    }

    open spec fn failure(v: T::V, room: nat) -> Failure {
        T::failure(v, room)
    }

    fn pack<W: BitWriter>(&self, writer: &mut W) -> (r: Result<(), Error>) {
        let ghost _own = (
            Self::packable(self.deep_view()),
            Self::encoding(self.deep_view()),
            Self::failure(self.deep_view(), writer.room()),
        );
        (**self).pack(writer)
    }
}

/// Writes one part of a value after what has been written of it, and marks
/// an error with the part's place.
pub(crate) fn pack_part<T: BitPack + ?Sized, W: BitWriter>(
    part: &T,
    writer: &mut W,
    place: Context,
    Ghost(start): Ghost<Seq<bool>>,
) -> (r: Result<(), Error>)
    requires
        old(writer).wf(),
        start.is_prefix_of(old(writer).written()),
    ensures
        pack_outcome(
            *old(writer),
            *final(writer),
            r,
            T::packable(part.deep_view()),
            T::encoding(part.deep_view()),
        ),
        r matches Err(e) ==> reports(
            e,
            old(writer).plain(),
            T::failure(part.deep_view(), old(writer).room()).at(place),
        ),
        r is Err ==> start.is_prefix_of(final(writer).written()),
{
    let ghost before = writer.written();
    let ghost plain = writer.plain();
    match part.pack(writer) {
        Ok(()) => Ok(()),
        Err(e) => {
            let out = e.context(place);
            proof {
                lemma_prefix_chain(start, before, writer.written());
                lemma_reports_at(
                    e,
                    out,
                    plain,
                    T::failure(part.deep_view(), old(writer).room()),
                    place,
                );
            }
            Err(out)
        },
    }
}

impl<L: BitPack, R: BitPack> BitPack for Either<L, R> {
    open spec fn packable(v: Either<L::V, R::V>) -> bool {
        match v {
            Either::Left(l) => L::packable(l),
            Either::Right(r) => R::packable(r),
        }
    }

    open spec fn encoding(v: Either<L::V, R::V>) -> Seq<bool> {
        match v {
            Either::Left(l) => seq![false] + L::encoding(l),
            Either::Right(r) => seq![true] + R::encoding(r),
        }
    }

    open spec fn failure(v: Either<L::V, R::V>, room: nat) -> Failure {
        if room < 1 {
            Failure::of(ErrorKind::Capacity).at(Context::Field("tag"))
        } else {
            match v {
                Either::Left(l) => L::failure(l, (room - 1) as nat).at(Context::Field("left")),
                Either::Right(r) => R::failure(r, (room - 1) as nat).at(Context::Field("right")),
            }
        }
    }

    fn pack<W: BitWriter>(&self, writer: &mut W) -> (r: Result<(), Error>) {
        let ghost _own = (
            Self::packable(self.deep_view()),
            Self::encoding(self.deep_view()),
            Self::failure(self.deep_view(), writer.room()),
        );
        let ghost start = writer.written();
        match self {
            Either::Left(l) => {
                pack_part(&false, writer, Context::Field("tag"), Ghost(start))?;
                pack_part(l, writer, Context::Field("left"), Ghost(start))?;
                proof {
                    assert(start + seq![false] + L::encoding(l.deep_view()) =~= start + (seq![false]
                        + L::encoding(l.deep_view())));
                }
            },
            Either::Right(r) => {
                pack_part(&true, writer, Context::Field("tag"), Ghost(start))?;
                pack_part(r, writer, Context::Field("right"), Ghost(start))?;
                proof {
                    assert(start + seq![true] + R::encoding(r.deep_view()) =~= start + (seq![true]
                        + R::encoding(r.deep_view())));
                }
            },
        }
        Ok(())
    }
}

/// An optional value: one bit that says whether the value is there, 0 for
/// no and 1 for yes, and after a 1 the value.
impl<T: BitPack> BitPack for Option<T> {
    open spec fn packable(v: Option<T::V>) -> bool {
        match v {
            None => true,
            Some(x) => T::packable(x),
        }
    }

    open spec fn encoding(v: Option<T::V>) -> Seq<bool> {
        match v {
            None => seq![false],
            Some(x) => seq![true] + T::encoding(x),
        }
    }

    open spec fn failure(v: Option<T::V>, room: nat) -> Failure {
        match v {
            Some(x) if room >= 1 => T::failure(x, (room - 1) as nat).at(Context::Field("right")),
            _ => Failure::of(ErrorKind::Capacity).at(Context::Field("tag")),
        }
    }

    fn pack<W: BitWriter>(&self, writer: &mut W) -> (r: Result<(), Error>) {
        let ghost _own = (
            Self::packable(self.deep_view()),
            Self::encoding(self.deep_view()),
            Self::failure(self.deep_view(), writer.room()),
        );
        let ghost start = writer.written();
        match self {
            None => {
                pack_part(&false, writer, Context::Field("tag"), Ghost(start))?;
            },
            Some(x) => {
                pack_part(&true, writer, Context::Field("tag"), Ghost(start))?;
                pack_part(x, writer, Context::Field("right"), Ghost(start))?;
                proof {
                    assert(start + seq![true] + T::encoding(x.deep_view()) =~= start + (seq![true]
                        + T::encoding(x.deep_view())));
                }
            },
        }
        Ok(())
    }
}

impl<A: BitPack> BitPack for (A,) {
    open spec fn packable(v: (A::V,)) -> bool {
        A::packable(v.0)
    }

    open spec fn encoding(v: (A::V,)) -> Seq<bool> {
        A::encoding(v.0)
    }

    open spec fn failure(v: (A::V,), room: nat) -> Failure {
        A::failure(v.0, room).at(Context::Slot(0))
    }

    fn pack<W: BitWriter>(&self, writer: &mut W) -> (r: Result<(), Error>) {
        let ghost _own = (
            Self::packable(self.deep_view()),
            Self::encoding(self.deep_view()),
            Self::failure(self.deep_view(), writer.room()),
        );
        let ghost start = writer.written();
        pack_part(&self.0, writer, Context::Slot(0), Ghost(start))
    }
}

impl<A: BitPack, B: BitPack> BitPack for (A, B) {
    open spec fn packable(v: (A::V, B::V)) -> bool {
        A::packable(v.0) && B::packable(v.1)
    }

    open spec fn encoding(v: (A::V, B::V)) -> Seq<bool> {
        A::encoding(v.0) + B::encoding(v.1)
    }

    open spec fn failure(v: (A::V, B::V), room: nat) -> Failure {
        if !writable(A::packable(v.0), A::encoding(v.0), room) {
            A::failure(v.0, room).at(Context::Slot(0))
        } else {
            B::failure(v.1, (room - A::encoding(v.0).len()) as nat).at(Context::Slot(1))
        }
    }

    fn pack<W: BitWriter>(&self, writer: &mut W) -> (r: Result<(), Error>) {
        let ghost _own = (
            Self::packable(self.deep_view()),
            Self::encoding(self.deep_view()),
            Self::failure(self.deep_view(), writer.room()),
        );
        let ghost start = writer.written();
        pack_part(&self.0, writer, Context::Slot(0), Ghost(start))?;
        pack_part(&self.1, writer, Context::Slot(1), Ghost(start))?;
        proof {
            let a = A::encoding(self.0.deep_view());
            let b = B::encoding(self.1.deep_view());
            assert(start + a + b =~= start + (a + b));
        }
        Ok(())
    }
}

impl<A: BitPack, B: BitPack, C: BitPack> BitPack for (A, B, C) {
    open spec fn packable(v: (A::V, B::V, C::V)) -> bool {
        A::packable(v.0) && B::packable(v.1) && C::packable(v.2)
    }

    open spec fn encoding(v: (A::V, B::V, C::V)) -> Seq<bool> {
        A::encoding(v.0) + B::encoding(v.1) + C::encoding(v.2)
    }

    open spec fn failure(v: (A::V, B::V, C::V), room: nat) -> Failure {
        if !writable(A::packable(v.0), A::encoding(v.0), room) {
            A::failure(v.0, room).at(Context::Slot(0))
        } else if !writable(
            B::packable(v.1),
            B::encoding(v.1),
            (room - A::encoding(v.0).len()) as nat,
        ) {
            B::failure(v.1, (room - A::encoding(v.0).len()) as nat).at(Context::Slot(1))
        } else {
            C::failure(v.2, (room - A::encoding(v.0).len() - B::encoding(v.1).len()) as nat).at(
                Context::Slot(2),
            )
        }
    }

    fn pack<W: BitWriter>(&self, writer: &mut W) -> (r: Result<(), Error>) {
        let ghost _own = (
            Self::packable(self.deep_view()),
            Self::encoding(self.deep_view()),
            Self::failure(self.deep_view(), writer.room()),
        );
        let ghost start = writer.written();
        pack_part(&self.0, writer, Context::Slot(0), Ghost(start))?;
        pack_part(&self.1, writer, Context::Slot(1), Ghost(start))?;
        pack_part(&self.2, writer, Context::Slot(2), Ghost(start))?;
        proof {
            let a = A::encoding(self.0.deep_view());
            let b = B::encoding(self.1.deep_view());
            let c = C::encoding(self.2.deep_view());
            assert(start + a + b + c =~= start + (a + b + c));
        }
        Ok(())
    }
}

} // verus!
