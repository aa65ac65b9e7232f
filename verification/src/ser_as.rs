//! Writing a value in the way that a strategy names, whatever encoding the
//! value's own type has.

use core::marker::PhantomData;
use crate::either::Either;
use crate::error::{Context, Error, ErrorKind, Failure, lemma_reports_at, reports};
use crate::ser::BitPack;
use crate::storage::{Bits, max_bits};
use crate::writer::{BitWriter, lemma_prefix_chain, pack_outcome, writable};
use std::rc::Rc;
use std::sync::Arc;
use vstd::prelude::*;

verus! {

/// A strategy to write values of type `T`.
///
/// The implementing type only names the strategy; no value of it is needed.
pub trait BitPackAs<T: DeepView + ?Sized> {
    /// Whether the value can be written by this strategy.
    spec fn packable_as(v: T::V) -> bool;

    /// The bits that stand for the value under this strategy.
    spec fn encoding_as(v: T::V) -> Seq<bool>;

    /// The failure of writing the value where the writer has room for
    /// `room` bits: of kind `Custom` for a value that cannot be written,
    /// `Capacity` for one that does not fit. A strategy for several parts
    /// gives the failure of the first part that fails, and on its trail the
    /// place of that part.
    open spec fn failure_as(v: T::V, room: nat) -> Failure {
        if Self::packable_as(v) {
            Failure::of(ErrorKind::Capacity)
        } else {
            Failure::of(ErrorKind::Custom)
        }
    }

    /// Writes the value as this strategy encodes it.
    fn pack_as<W: BitWriter>(source: &T, writer: &mut W) -> (r: Result<(), Error>)
        requires
            old(writer).wf(),
        ensures
            pack_outcome(
                *old(writer),
                *final(writer),
                r,
                Self::packable_as(source.deep_view()),
                Self::encoding_as(source.deep_view()),
            ),
            r matches Err(e) ==> reports(
                e,
                old(writer).plain(),
                Self::failure_as(source.deep_view(), old(writer).room()),
            ),
    ;
}

/// A strategy to write values of type `T` that depends on arguments given
/// with the call.
pub trait BitPackAsWithArgs<T: DeepView + ?Sized> {
    /// What the encoding depends on besides the value.
    type Args;

    /// Whether the value can be written by this strategy with these
    /// arguments.
    spec fn packable_as_with(v: T::V, args: Self::Args) -> bool;

    /// The bits that stand for the value under this strategy with these
    /// arguments.
    spec fn encoding_as_with(v: T::V, args: Self::Args) -> Seq<bool>;

    /// The failure of writing the value where the writer has room for
    /// `room` bits: of kind `Custom` for a value that cannot be written,
    /// `Capacity` for one that does not fit.
    open spec fn failure_as_with(v: T::V, args: Self::Args, room: nat) -> Failure {
        if Self::packable_as_with(v, args) {
            Failure::of(ErrorKind::Capacity)
        } else {
            Failure::of(ErrorKind::Custom)
        }
    }

    /// Writes the value as this strategy encodes it.
    fn pack_as_with<W: BitWriter>(source: &T, writer: &mut W, args: Self::Args) -> (r: Result<
        (),
        Error,
    >)
        requires
            old(writer).wf(),
        ensures
            pack_outcome(
                *old(writer),
                *final(writer),
                r,
                Self::packable_as_with(source.deep_view(), args),
                Self::encoding_as_with(source.deep_view(), args),
            ),
            r matches Err(e) ==> reports(
                e,
                old(writer).plain(),
                Self::failure_as_with(source.deep_view(), args, old(writer).room()),
            ),
    ;
}

/// The bits that stand for a value under a strategy; an error of kind
/// `Capacity` where they are more than a bit string can hold.
pub fn pack_as<T: DeepView, As: BitPackAs<T> + ?Sized>(value: T) -> (r: Result<Bits, Error>)
    ensures
        r is Ok <==> As::packable_as(value.deep_view()) && As::encoding_as(value.deep_view()).len()
            <= max_bits(),
        r matches Ok(bits) ==> bits@ == As::encoding_as(value.deep_view()),
        r matches Err(e) ==> e@ == As::failure_as(value.deep_view(), max_bits()),
        r matches Err(e) ==> e.kind == ErrorKind::Capacity || (e.kind == ErrorKind::Custom
            && !As::packable_as(value.deep_view())),
{
    let mut writer = Bits::new();
    let ghost bits = As::encoding_as(value.deep_view());
    As::pack_as(&value, &mut writer)?;
    assert(Seq::<bool>::empty() + bits =~= bits);
    Ok(writer)
}

/// A borrowed value together with the strategy to write it: a value whose
/// own encoding is the one that the strategy gives.
pub struct BitPackAsWrap<'a, T: ?Sized, As: ?Sized> {
    value: &'a T,
    _phantom: PhantomData<As>,
}

impl<'a, T: DeepView + ?Sized, As: ?Sized> DeepView for BitPackAsWrap<'a, T, As> {
    type V = T::V;

    closed spec fn deep_view(&self) -> T::V {
        self.value.deep_view()
    }
}

impl<'a, T: DeepView + ?Sized, As: BitPackAs<T> + ?Sized> BitPackAsWrap<'a, T, As> {
    /// The value, to be written by the strategy `As`.
    pub fn new(value: &'a T) -> (w: Self)
        ensures
            w.deep_view() == value.deep_view(),
    {
        BitPackAsWrap { value, _phantom: PhantomData }
    }
}

impl<'a, T: DeepView + ?Sized, As: BitPackAs<T> + ?Sized> BitPack for BitPackAsWrap<'a, T, As> {
    open spec fn packable(v: T::V) -> bool {
        As::packable_as(v)
    }

    open spec fn encoding(v: T::V) -> Seq<bool> {
        As::encoding_as(v)
    }

    open spec fn failure(v: T::V, room: nat) -> Failure {
        As::failure_as(v, room)
    }

    fn pack<W: BitWriter>(&self, writer: &mut W) -> (r: Result<(), Error>) {
        let ghost _own = (
            Self::packable(self.deep_view()),
            Self::encoding(self.deep_view()),
            Self::failure(self.deep_view(), writer.room()),
        );
        As::pack_as(self.value, writer)
    }
}

/// Every value can be paired with a strategy to write it.
pub trait BitPackWrapAsExt: DeepView {
    /// This value, to be written by the strategy `As`.
    fn wrap_as<As: BitPackAs<Self> + ?Sized>(&self) -> (w: BitPackAsWrap<'_, Self, As>)
        ensures
            w.deep_view() == self.deep_view(),
    {
        BitPackAsWrap::new(self)
    }
}

impl<T: DeepView + ?Sized> BitPackWrapAsExt for T {
}

/// Writes one part of a value by a strategy, and marks an error with the
/// part's place.
pub(crate) fn pack_part_as<T: DeepView + ?Sized, As: BitPackAs<T> + ?Sized, W: BitWriter>(
    part: &T,
    writer: &mut W,
    place: Context,
    Ghost(start): Ghost<Seq<bool>>,
) -> (r: Result<(), Error>)
    requires
        old(writer).wf(),
        start.is_prefix_of(old(writer).written()),
    ensures
        pack_outcome(
            *old(writer),
            *final(writer),
            r,
            As::packable_as(part.deep_view()),
            As::encoding_as(part.deep_view()),
        ),
        r matches Err(e) ==> reports(
            e,
            old(writer).plain(),
            As::failure_as(part.deep_view(), old(writer).room()).at(place),
        ),
        r is Err ==> start.is_prefix_of(final(writer).written()),
{
    let ghost before = writer.written();
    let ghost plain = writer.plain();
    match As::pack_as(part, writer) {
        Ok(()) => Ok(()),
        Err(e) => {
            let out = e.context(place);
            proof {
                lemma_prefix_chain(start, before, writer.written());
                lemma_reports_at(
                    e,
                    out,
                    plain,
                    As::failure_as(part.deep_view(), old(writer).room()),
                    place,
                );
            }
            Err(out)
        },
    }
}

/// The strategy of a borrowed value is the strategy of the value.
impl<'a, T: DeepView + ?Sized, As: BitPackAs<T> + ?Sized> BitPackAs<&'a T> for &'a As {
    open spec fn packable_as(v: T::V) -> bool {
        As::packable_as(v)
    }

    open spec fn encoding_as(v: T::V) -> Seq<bool> {
        As::encoding_as(v)
    }

    open spec fn failure_as(v: T::V, room: nat) -> Failure {
        As::failure_as(v, room)
    }

    fn pack_as<W: BitWriter>(source: &&'a T, writer: &mut W) -> (r: Result<(), Error>) {
        let ghost _own = (
            <Self as BitPackAs<&'a T>>::packable_as(source.deep_view()),
            <Self as BitPackAs<&'a T>>::encoding_as(source.deep_view()),
            <Self as BitPackAs<&'a T>>::failure_as(source.deep_view(), writer.room()),
        );
        As::pack_as(*source, writer)
    }
}

/// The strategy of a boxed value is the strategy of the value.
impl<T: DeepView + ?Sized, As: BitPackAs<T> + ?Sized> BitPackAs<Box<T>> for Box<As> {
    open spec fn packable_as(v: T::V) -> bool {
        As::packable_as(v)
    }

    open spec fn encoding_as(v: T::V) -> Seq<bool> {
        As::encoding_as(v)
    }

    open spec fn failure_as(v: T::V, room: nat) -> Failure {
        As::failure_as(v, room)
    }

    fn pack_as<W: BitWriter>(source: &Box<T>, writer: &mut W) -> (r: Result<(), Error>) {
        let ghost _own = (
            <Self as BitPackAs<Box<T>>>::packable_as(source.deep_view()),
            <Self as BitPackAs<Box<T>>>::encoding_as(source.deep_view()),
            <Self as BitPackAs<Box<T>>>::failure_as(source.deep_view(), writer.room()),
        );
        As::pack_as(&**source, writer)
    }
}

/// The strategy of a shared value is the strategy of the value.
impl<T: DeepView, As: BitPackAs<T>> BitPackAs<Rc<T>> for Rc<As> {
    open spec fn packable_as(v: T::V) -> bool {
        As::packable_as(v)
    }

    open spec fn encoding_as(v: T::V) -> Seq<bool> {
        As::encoding_as(v)
    }

    open spec fn failure_as(v: T::V, room: nat) -> Failure {
        As::failure_as(v, room)
    }

    fn pack_as<W: BitWriter>(source: &Rc<T>, writer: &mut W) -> (r: Result<(), Error>) {
        let ghost _own = (
            <Self as BitPackAs<Rc<T>>>::packable_as(source.deep_view()),
            <Self as BitPackAs<Rc<T>>>::encoding_as(source.deep_view()),
            <Self as BitPackAs<Rc<T>>>::failure_as(source.deep_view(), writer.room()),
        );
        As::pack_as(&**source, writer)
    }
}

/// The strategy of a shared value is the strategy of the value.
impl<T: DeepView, As: BitPackAs<T>> BitPackAs<Arc<T>> for Arc<As> {
    open spec fn packable_as(v: T::V) -> bool {
        As::packable_as(v)
    }

    open spec fn encoding_as(v: T::V) -> Seq<bool> {
        As::encoding_as(v)
    }

    open spec fn failure_as(v: T::V, room: nat) -> Failure {
        As::failure_as(v, room)
    }

    fn pack_as<W: BitWriter>(source: &Arc<T>, writer: &mut W) -> (r: Result<(), Error>) {
        let ghost _own = (
            <Self as BitPackAs<Arc<T>>>::packable_as(source.deep_view()),
            <Self as BitPackAs<Arc<T>>>::encoding_as(source.deep_view()),
            <Self as BitPackAs<Arc<T>>>::failure_as(source.deep_view(), writer.room()),
        );
        As::pack_as(&**source, writer)
    }
}

/// An optional value under a strategy: one bit that says whether the value
/// is there, 0 for no and 1 for yes, and after a 1 the value as the strategy
/// encodes it.
impl<T: DeepView, As: BitPackAs<T>> BitPackAs<Option<T>> for Option<As> {
    open spec fn packable_as(v: Option<T::V>) -> bool {
        match v {
            None => true,
            Some(x) => As::packable_as(x),
        }
    }

    open spec fn encoding_as(v: Option<T::V>) -> Seq<bool> {
        match v {
            None => seq![false],
            Some(x) => seq![true] + As::encoding_as(x),
        }
    }

    open spec fn failure_as(v: Option<T::V>, room: nat) -> Failure {
        match v {
            Some(x) if room >= 1 => As::failure_as(x, (room - 1) as nat).at(Context::Field("right")),
            _ => Failure::of(ErrorKind::Capacity).at(Context::Field("tag")),
        }
    }

    fn pack_as<W: BitWriter>(source: &Option<T>, writer: &mut W) -> (r: Result<(), Error>) {
        let ghost _own = (
            <Self as BitPackAs<Option<T>>>::packable_as(source.deep_view()),
            <Self as BitPackAs<Option<T>>>::encoding_as(source.deep_view()),
            <Self as BitPackAs<Option<T>>>::failure_as(source.deep_view(), writer.room()),
        );
        let ghost start = writer.written();
        match source {
            None => {
                pack_part_as::<bool, Same, W>(&false, writer, Context::Field("tag"), Ghost(start))?;
            },
            Some(x) => {
                pack_part_as::<bool, Same, W>(&true, writer, Context::Field("tag"), Ghost(start))?;
                pack_part_as::<T, As, W>(x, writer, Context::Field("right"), Ghost(start))?;
                proof {
                    let bits = As::encoding_as(x.deep_view());
                    assert(start + seq![true] + bits =~= start + (seq![true] + bits));
                }
            },
        }
        Ok(())
    }
}

/// One of two values under two strategies: one bit that says which, 0 for
/// the left and 1 for the right, and the value as its strategy encodes it.
impl<L: DeepView, R: DeepView, AsL: BitPackAs<L>, AsR: BitPackAs<R>> BitPackAs<
    Either<L, R>,
> for Either<AsL, AsR> {
    open spec fn packable_as(v: Either<L::V, R::V>) -> bool {
        match v {
            Either::Left(l) => AsL::packable_as(l),
            Either::Right(r) => AsR::packable_as(r),
        }
    }

    open spec fn encoding_as(v: Either<L::V, R::V>) -> Seq<bool> {
        match v {
            Either::Left(l) => seq![false] + AsL::encoding_as(l),
            Either::Right(r) => seq![true] + AsR::encoding_as(r),
        }
    }

    open spec fn failure_as(v: Either<L::V, R::V>, room: nat) -> Failure {
        if room < 1 {
            Failure::of(ErrorKind::Capacity).at(Context::Field("tag"))
        } else {
            match v {
                Either::Left(l) => AsL::failure_as(l, (room - 1) as nat).at(
                    Context::Field("left"),
                ),
                Either::Right(r) => AsR::failure_as(r, (room - 1) as nat).at(
                    Context::Field("right"),
                ),
            }
        }
    }

    fn pack_as<W: BitWriter>(source: &Either<L, R>, writer: &mut W) -> (r: Result<(), Error>) {
        let ghost _own = (
            <Self as BitPackAs<Either<L, R>>>::packable_as(source.deep_view()),
            <Self as BitPackAs<Either<L, R>>>::encoding_as(source.deep_view()),
            <Self as BitPackAs<Either<L, R>>>::failure_as(source.deep_view(), writer.room()),
        );
        let ghost start = writer.written();
        match source {
            Either::Left(l) => {
                pack_part_as::<bool, Same, W>(&false, writer, Context::Field("tag"), Ghost(start))?;
                pack_part_as::<L, AsL, W>(l, writer, Context::Field("left"), Ghost(start))?;
                proof {
                    let bits = AsL::encoding_as(l.deep_view());
                    assert(start + seq![false] + bits =~= start + (seq![false] + bits));
                }
            },
            Either::Right(r) => {
                pack_part_as::<bool, Same, W>(&true, writer, Context::Field("tag"), Ghost(start))?;
                pack_part_as::<R, AsR, W>(r, writer, Context::Field("right"), Ghost(start))?;
                proof {
                    let bits = AsR::encoding_as(r.deep_view());
                    assert(start + seq![true] + bits =~= start + (seq![true] + bits));
                }
            },
        }
        Ok(())
    }
}

/// An optional value as one of two: nothing on the left, the value on the
/// right.
impl<T: DeepView, As: BitPackAs<T>> BitPackAs<Option<T>> for Either<(), As> {
    open spec fn packable_as(v: Option<T::V>) -> bool {
        <Option<As> as BitPackAs<Option<T>>>::packable_as(v)
    }

    open spec fn encoding_as(v: Option<T::V>) -> Seq<bool> {
        <Option<As> as BitPackAs<Option<T>>>::encoding_as(v)
    }

    open spec fn failure_as(v: Option<T::V>, room: nat) -> Failure {
        <Option<As> as BitPackAs<Option<T>>>::failure_as(v, room)
    }

    fn pack_as<W: BitWriter>(source: &Option<T>, writer: &mut W) -> (r: Result<(), Error>) {
        let ghost _own = (
            <Self as BitPackAs<Option<T>>>::packable_as(source.deep_view()),
            <Self as BitPackAs<Option<T>>>::encoding_as(source.deep_view()),
            <Self as BitPackAs<Option<T>>>::failure_as(source.deep_view(), writer.room()),
        );
        <Option<As> as BitPackAs<Option<T>>>::pack_as(source, writer)
    }
}

impl<A: DeepView, AsA: BitPackAs<A>> BitPackAs<(A,)> for (AsA,) {
    open spec fn packable_as(v: (A::V,)) -> bool {
        AsA::packable_as(v.0)
    }

    open spec fn encoding_as(v: (A::V,)) -> Seq<bool> {
        AsA::encoding_as(v.0)
    }

    open spec fn failure_as(v: (A::V,), room: nat) -> Failure {
        AsA::failure_as(v.0, room).at(Context::Slot(0))
    }

    fn pack_as<W: BitWriter>(source: &(A,), writer: &mut W) -> (r: Result<(), Error>) {
        let ghost _own = (
            <Self as BitPackAs<(A,)>>::packable_as(source.deep_view()),
            <Self as BitPackAs<(A,)>>::encoding_as(source.deep_view()),
            <Self as BitPackAs<(A,)>>::failure_as(source.deep_view(), writer.room()),
        );
        let ghost start = writer.written();
        pack_part_as::<A, AsA, W>(&source.0, writer, Context::Slot(0), Ghost(start))
    }
}

impl<A: DeepView, B: DeepView, AsA: BitPackAs<A>, AsB: BitPackAs<B>> BitPackAs<(A, B)> for (
    AsA,
    AsB,
) {
    open spec fn packable_as(v: (A::V, B::V)) -> bool {
        AsA::packable_as(v.0) && AsB::packable_as(v.1)
    }

    open spec fn encoding_as(v: (A::V, B::V)) -> Seq<bool> {
        AsA::encoding_as(v.0) + AsB::encoding_as(v.1)
    }

    open spec fn failure_as(v: (A::V, B::V), room: nat) -> Failure {
        if !writable(AsA::packable_as(v.0), AsA::encoding_as(v.0), room) {
            AsA::failure_as(v.0, room).at(Context::Slot(0))
        } else {
            AsB::failure_as(v.1, (room - AsA::encoding_as(v.0).len()) as nat).at(Context::Slot(1))
        }
    }

    fn pack_as<W: BitWriter>(source: &(A, B), writer: &mut W) -> (r: Result<(), Error>) {
        let ghost _own = (
            <Self as BitPackAs<(A, B)>>::packable_as(source.deep_view()),
            <Self as BitPackAs<(A, B)>>::encoding_as(source.deep_view()),
            <Self as BitPackAs<(A, B)>>::failure_as(source.deep_view(), writer.room()),
        );
        let ghost start = writer.written();
        pack_part_as::<A, AsA, W>(&source.0, writer, Context::Slot(0), Ghost(start))?;
        pack_part_as::<B, AsB, W>(&source.1, writer, Context::Slot(1), Ghost(start))?;
        proof {
            let a = AsA::encoding_as(source.0.deep_view());
            let b = AsB::encoding_as(source.1.deep_view());
            assert(start + a + b =~= start + (a + b));
        }
        Ok(())
    }
}

impl<
    A: DeepView,
    B: DeepView,
    C: DeepView,
    AsA: BitPackAs<A>,
    AsB: BitPackAs<B>,
    AsC: BitPackAs<C>,
> BitPackAs<(A, B, C)> for (AsA, AsB, AsC) {
    open spec fn packable_as(v: (A::V, B::V, C::V)) -> bool {
        AsA::packable_as(v.0) && AsB::packable_as(v.1) && AsC::packable_as(v.2)
    }

    open spec fn encoding_as(v: (A::V, B::V, C::V)) -> Seq<bool> {
        AsA::encoding_as(v.0) + AsB::encoding_as(v.1) + AsC::encoding_as(v.2)
    }

    open spec fn failure_as(v: (A::V, B::V, C::V), room: nat) -> Failure {
        if !writable(AsA::packable_as(v.0), AsA::encoding_as(v.0), room) {
            AsA::failure_as(v.0, room).at(Context::Slot(0))
        } else if !writable(
            AsB::packable_as(v.1),
            AsB::encoding_as(v.1),
            (room - AsA::encoding_as(v.0).len()) as nat,
        ) {
            AsB::failure_as(v.1, (room - AsA::encoding_as(v.0).len()) as nat).at(Context::Slot(1))
        } else {
            AsC::failure_as(
                v.2,
                (room - AsA::encoding_as(v.0).len() - AsB::encoding_as(v.1).len()) as nat,
            ).at(Context::Slot(2))
        }
    }

    fn pack_as<W: BitWriter>(source: &(A, B, C), writer: &mut W) -> (r: Result<(), Error>) {
        let ghost _own = (
            <Self as BitPackAs<(A, B, C)>>::packable_as(source.deep_view()),
            <Self as BitPackAs<(A, B, C)>>::encoding_as(source.deep_view()),
            <Self as BitPackAs<(A, B, C)>>::failure_as(source.deep_view(), writer.room()),
        );
        let ghost start = writer.written();
        pack_part_as::<A, AsA, W>(&source.0, writer, Context::Slot(0), Ghost(start))?;
        pack_part_as::<B, AsB, W>(&source.1, writer, Context::Slot(1), Ghost(start))?;
        pack_part_as::<C, AsC, W>(&source.2, writer, Context::Slot(2), Ghost(start))?;
        proof {
            let a = AsA::encoding_as(source.0.deep_view());
            let b = AsB::encoding_as(source.1.deep_view());
            let c = AsC::encoding_as(source.2.deep_view());
            assert(start + a + b + c =~= start + (a + b + c));
        }
        Ok(())
    }
}

/// The strategy that writes a value as the value's own type encodes it.
pub struct Same;

impl<T: BitPack + ?Sized> BitPackAs<T> for Same {
    open spec fn packable_as(v: T::V) -> bool {
        T::packable(v)
    }

    open spec fn encoding_as(v: T::V) -> Seq<bool> {
        T::encoding(v)
    }

    open spec fn failure_as(v: T::V, room: nat) -> Failure {
        T::failure(v, room)
    }

    fn pack_as<W: BitWriter>(source: &T, writer: &mut W) -> (r: Result<(), Error>) {
        let ghost _own = (
            <Self as BitPackAs<T>>::packable_as(source.deep_view()),
            <Self as BitPackAs<T>>::encoding_as(source.deep_view()),
            <Self as BitPackAs<T>>::failure_as(source.deep_view(), writer.room()),
        );
        source.pack(writer)
    }
}

} // verus!
