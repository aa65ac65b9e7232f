//! Reading a value in the way that a strategy names, whatever encoding the
//! value's own type has.

use core::marker::PhantomData;
use crate::de::{BitUnpack, agrees};
use crate::either::Either;
use crate::error::{Context, Error, ErrorKind, Failure, seen_at};
use crate::reader::{BitCursor, BitReader, unpack_outcome};
use crate::ser_as::Same;
use crate::storage::{Bits, bytes_to_bits, max_bits};
use std::rc::Rc;
use std::sync::Arc;
use vstd::prelude::*;

verus! {

/// A strategy to read values of type `T`.
///
/// The implementing type only names the strategy; no value of it is needed.
pub trait BitUnpackAs<T: DeepView> {
    /// The value at the front of a bit string under this strategy, and the
    /// number of bits that stand for it.
    spec fn decode_as(bits: Seq<bool>) -> Result<(T::V, nat), Failure>;

    /// A value takes no more bits than there are.
    proof fn lemma_decode_as_within(bits: Seq<bool>)
        ensures
            Self::decode_as(bits) matches Ok((_, n)) ==> n <= bits.len(),
    ;

    /// Reads the value at the front of what the reader holds.
    fn unpack_as<R: BitReader>(reader: &mut R) -> (r: Result<T, Error>)
        requires
            old(reader).wf(),
        ensures
            unpack_outcome(
                *old(reader),
                *final(reader),
                r,
                Self::decode_as(old(reader).remaining()),
            ),
    ;
}

/// What a bit string stands for under a strategy, bits after the value left
/// alone.
pub open spec fn decode_front_as<T: DeepView, As: BitUnpackAs<T>>(bits: Seq<bool>) -> Result<
    T::V,
    Failure,
> {
    match As::decode_as(bits) {
        Ok((v, _)) => Ok(v),
        Err(k) => Err(k),
    }
}

/// What a bit string stands for under a strategy where all of it has to be
/// used.
pub open spec fn decode_fully_as<T: DeepView, As: BitUnpackAs<T>>(bits: Seq<bool>) -> Result<
    T::V,
    Failure,
> {
    match As::decode_as(bits) {
        Ok((v, n)) => if n == bits.len() {
            Ok(v)
        } else {
            Err(Failure::of(ErrorKind::TrailingData))
        },
        Err(k) => Err(k),
    }
}

/// What a byte string stands for under a strategy, read as bits with the
/// most significant bit of each byte first; `Capacity` where it is too long
/// to be read so.
pub open spec fn decode_bytes_as<T: DeepView, As: BitUnpackAs<T>>(bytes: Seq<u8>) -> Result<
    T::V,
    Failure,
> {
    if 8 * bytes.len() > max_bits() {
        Err(Failure::of(ErrorKind::Capacity))
    } else {
        decode_front_as::<T, As>(bytes_to_bits(bytes))
    }
}

/// What a byte string stands for under a strategy where all of its bits have
/// to be used.
pub open spec fn decode_bytes_fully_as<T: DeepView, As: BitUnpackAs<T>>(bytes: Seq<u8>) -> Result<
    T::V,
    Failure,
> {
    if 8 * bytes.len() > max_bits() {
        Err(Failure::of(ErrorKind::Capacity))
    } else {
        decode_fully_as::<T, As>(bytes_to_bits(bytes))
    }
}

/// Reads the value at the front of a bit string by a strategy; bits after
/// it are left alone.
pub fn unpack_as<T: DeepView, As: BitUnpackAs<T>>(bits: &Bits) -> (r: Result<T, Error>)
    ensures
        agrees(r, decode_front_as::<T, As>(bits@)),
{
    let mut reader = BitCursor::new(bits);
    As::unpack_as(&mut reader)
}

/// Reads the value that a bit string stands for under a strategy; it is an
/// error of kind `TrailingData` if bits are left over.
pub fn unpack_fully_as<T: DeepView, As: BitUnpackAs<T>>(bits: &Bits) -> (r: Result<T, Error>)
    ensures
        agrees(r, decode_fully_as::<T, As>(bits@)),
{
    let mut reader = BitCursor::new(bits);
    let v = As::unpack_as(&mut reader)?;
    if reader.bits_left() != 0 {
        return Err(Error::new(ErrorKind::TrailingData));
    }
    Ok(v)
}

/// Reads the value at the front of a byte string by a strategy.
pub fn unpack_bytes_as<T: DeepView, As: BitUnpackAs<T>>(bytes: &[u8]) -> (r: Result<T, Error>)
    ensures
        agrees(r, decode_bytes_as::<T, As>(bytes@)),
{
    match Bits::from_bytes(bytes) {
        Some(bits) => unpack_as::<T, As>(&bits),
        None => Err(Error::new(ErrorKind::Capacity)),
    }
}

/// Reads the value that a byte string stands for under a strategy; it is an
/// error of kind `TrailingData` if bits are left over.
pub fn unpack_bytes_fully_as<T: DeepView, As: BitUnpackAs<T>>(bytes: &[u8]) -> (r: Result<
    T,
    Error,
>)
    ensures
        agrees(r, decode_bytes_fully_as::<T, As>(bytes@)),
{
    match Bits::from_bytes(bytes) {
        Some(bits) => unpack_fully_as::<T, As>(&bits),
        None => Err(Error::new(ErrorKind::Capacity)),
    }
}

/// Reads one part of a value by a strategy after `taken` bits of it have
/// been read, and marks an error with the part's place.
pub(crate) fn unpack_part_as<T: DeepView, As: BitUnpackAs<T>, R: BitReader>(
    reader: &mut R,
    place: Context,
    Ghost(all): Ghost<Seq<bool>>,
    Ghost(taken): Ghost<nat>,
) -> (r: Result<T, Error>)
    requires
        old(reader).wf(),
        taken <= all.len(),
        old(reader).remaining() == all.skip(taken as int),
    ensures
        unpack_outcome(
            *old(reader),
            *final(reader),
            r,
            seen_at(As::decode_as(all.skip(taken as int)), place),
        ),
        As::decode_as(all.skip(taken as int)) matches Ok((_, n)) ==> taken + n <= all.len()
            && final(reader).remaining() == all.skip((taken + n) as int),
{
    match As::unpack_as(reader) {
        Ok(v) => {
            proof {
                let n = As::decode_as(all.skip(taken as int))->Ok_0.1;
                assert(all.skip(taken as int).skip(n as int) =~= all.skip((taken + n) as int));
            }
            Ok(v)
        },
        Err(e) => Err(e.context(place)),
    }
}

impl<T: BitUnpack> BitUnpackAs<T> for Same {
    open spec fn decode_as(bits: Seq<bool>) -> Result<(T::V, nat), Failure> {
        T::decode(bits)
    }

    proof fn lemma_decode_as_within(bits: Seq<bool>) {
        let _own = <Self as BitUnpackAs<T>>::decode_as(bits);
        T::lemma_decode_within(bits);
    }

    fn unpack_as<R: BitReader>(reader: &mut R) -> (r: Result<T, Error>) {
        let ghost _own = <Self as BitUnpackAs<T>>::decode_as(reader.remaining());
        T::unpack(reader)
    }
}

/// The strategy of a boxed value is the strategy of the value.
impl<T: DeepView, As: BitUnpackAs<T>> BitUnpackAs<Box<T>> for Box<As> {
    open spec fn decode_as(bits: Seq<bool>) -> Result<(T::V, nat), Failure> {
        As::decode_as(bits)
    }

    proof fn lemma_decode_as_within(bits: Seq<bool>) {
        let _own = <Self as BitUnpackAs<Box<T>>>::decode_as(bits);
        As::lemma_decode_as_within(bits);
    }

    fn unpack_as<R: BitReader>(reader: &mut R) -> (r: Result<Box<T>, Error>) {
        let ghost _own = <Self as BitUnpackAs<Box<T>>>::decode_as(reader.remaining());
        let v = As::unpack_as(reader)?;
        Ok(Box::new(v))
    }
}

/// The strategy of a shared value is the strategy of the value.
impl<T: DeepView, As: BitUnpackAs<T>> BitUnpackAs<Rc<T>> for Rc<As> {
    open spec fn decode_as(bits: Seq<bool>) -> Result<(T::V, nat), Failure> {
        As::decode_as(bits)
    }

    proof fn lemma_decode_as_within(bits: Seq<bool>) {
        let _own = <Self as BitUnpackAs<Rc<T>>>::decode_as(bits);
        As::lemma_decode_as_within(bits);
    }

    fn unpack_as<R: BitReader>(reader: &mut R) -> (r: Result<Rc<T>, Error>) {
        let ghost _own = <Self as BitUnpackAs<Rc<T>>>::decode_as(reader.remaining());
        let v = As::unpack_as(reader)?;
        Ok(Rc::new(v))
    }
}

/// The strategy of a shared value is the strategy of the value.
impl<T: DeepView, As: BitUnpackAs<T>> BitUnpackAs<Arc<T>> for Arc<As> {
    open spec fn decode_as(bits: Seq<bool>) -> Result<(T::V, nat), Failure> {
        As::decode_as(bits)
    }

    proof fn lemma_decode_as_within(bits: Seq<bool>) {
        let _own = <Self as BitUnpackAs<Arc<T>>>::decode_as(bits);
        As::lemma_decode_as_within(bits);
    }

    fn unpack_as<R: BitReader>(reader: &mut R) -> (r: Result<Arc<T>, Error>) {
        let ghost _own = <Self as BitUnpackAs<Arc<T>>>::decode_as(reader.remaining());
        let v = As::unpack_as(reader)?;
        Ok(Arc::new(v))
    }
}

/// An optional value under a strategy: one bit that says whether the value
/// is there, 0 for no and 1 for yes, and after a 1 the value as the strategy
/// encodes it.
impl<T: DeepView, As: BitUnpackAs<T>> BitUnpackAs<Option<T>> for Option<As> {
    open spec fn decode_as(bits: Seq<bool>) -> Result<(Option<T::V>, nat), Failure> {
        match bool::decode(bits) {
            Err(k) => Err(k.at(Context::Field("tag"))),
            Ok((false, _)) => Ok((None, 1)),
            Ok((true, _)) => match As::decode_as(bits.skip(1)) {
                Ok((v, n)) => Ok((Some(v), n + 1)),
                Err(k) => Err(k.at(Context::Field("right"))),
            },
        }
    }

    proof fn lemma_decode_as_within(bits: Seq<bool>) {
        let _own = <Self as BitUnpackAs<Option<T>>>::decode_as(bits);
        if bits.len() > 0 {
            As::lemma_decode_as_within(bits.skip(1));
        }
    }

    fn unpack_as<R: BitReader>(reader: &mut R) -> (r: Result<Option<T>, Error>) {
        let ghost _own = <Self as BitUnpackAs<Option<T>>>::decode_as(reader.remaining());
        let ghost all = reader.remaining();
        proof {
            assert(all.skip(0) =~= all);
        }
        let tag = unpack_part_as::<bool, Same, R>(
            reader,
            Context::Field("tag"),
            Ghost(all),
            Ghost(0),
        )?;
        if !tag {
            Ok(None)
        } else {
            let v = unpack_part_as::<T, As, R>(
                reader,
                Context::Field("right"),
                Ghost(all),
                Ghost(1),
            )?;
            Ok(Some(v))
        }
    }
}

/// One of two values under two strategies: one bit that says which, 0 for
/// the left and 1 for the right, and the value as its strategy encodes it.
impl<A: DeepView, B: DeepView, AsA: BitUnpackAs<A>, AsB: BitUnpackAs<B>> BitUnpackAs<
    Either<A, B>,
> for Either<AsA, AsB> {
    open spec fn decode_as(bits: Seq<bool>) -> Result<(Either<A::V, B::V>, nat), Failure> {
        match bool::decode(bits) {
            Err(k) => Err(k.at(Context::Field("tag"))),
            Ok((false, _)) => match AsA::decode_as(bits.skip(1)) {
                Ok((v, n)) => Ok((Either::Left(v), n + 1)),
                Err(k) => Err(k.at(Context::Field("left"))),
            },
            Ok((true, _)) => match AsB::decode_as(bits.skip(1)) {
                Ok((v, n)) => Ok((Either::Right(v), n + 1)),
                Err(k) => Err(k.at(Context::Field("right"))),
            },
        }
    }

    proof fn lemma_decode_as_within(bits: Seq<bool>) {
        let _own = <Self as BitUnpackAs<Either<A, B>>>::decode_as(bits);
        if bits.len() > 0 {
            AsA::lemma_decode_as_within(bits.skip(1));
            AsB::lemma_decode_as_within(bits.skip(1));
        }
    }

    fn unpack_as<R: BitReader>(reader: &mut R) -> (r: Result<Either<A, B>, Error>) {
        let ghost _own = <Self as BitUnpackAs<Either<A, B>>>::decode_as(reader.remaining());
        let ghost all = reader.remaining();
        proof {
            assert(all.skip(0) =~= all);
        }
        let tag = unpack_part_as::<bool, Same, R>(
            reader,
            Context::Field("tag"),
            Ghost(all),
            Ghost(0),
        )?;
        if !tag {
            let v = unpack_part_as::<A, AsA, R>(
                reader,
                Context::Field("left"),
                Ghost(all),
                Ghost(1),
            )?;
            Ok(Either::Left(v))
        } else {
            let v = unpack_part_as::<B, AsB, R>(
                reader,
                Context::Field("right"),
                Ghost(all),
                Ghost(1),
            )?;
            Ok(Either::Right(v))
        }
    }
}

/// An optional value as one of two: nothing on the left, the value on the
/// right.
impl<T: DeepView, As: BitUnpackAs<T>> BitUnpackAs<Option<T>> for Either<(), As> {
    open spec fn decode_as(bits: Seq<bool>) -> Result<(Option<T::V>, nat), Failure> {
        <Option<As> as BitUnpackAs<Option<T>>>::decode_as(bits)
    }

    proof fn lemma_decode_as_within(bits: Seq<bool>) {
        let _own = <Self as BitUnpackAs<Option<T>>>::decode_as(bits);
        <Option<As> as BitUnpackAs<Option<T>>>::lemma_decode_as_within(bits);
    }

    fn unpack_as<R: BitReader>(reader: &mut R) -> (r: Result<Option<T>, Error>) {
        let ghost _own = <Self as BitUnpackAs<Option<T>>>::decode_as(reader.remaining());
        <Option<As> as BitUnpackAs<Option<T>>>::unpack_as(reader)
    }
}

impl<A: DeepView, AsA: BitUnpackAs<A>> BitUnpackAs<(A,)> for (AsA,) {
    open spec fn decode_as(bits: Seq<bool>) -> Result<((A::V,), nat), Failure> {
        match AsA::decode_as(bits) {
            Ok((a, n)) => Ok(((a,), n)),
            Err(k) => Err(k.at(Context::Slot(0))),
        }
    }

    proof fn lemma_decode_as_within(bits: Seq<bool>) {
        let _own = <Self as BitUnpackAs<(A,)>>::decode_as(bits);
        AsA::lemma_decode_as_within(bits);
    }

    fn unpack_as<R: BitReader>(reader: &mut R) -> (r: Result<(A,), Error>) {
        let ghost _own = <Self as BitUnpackAs<(A,)>>::decode_as(reader.remaining());
        let ghost all = reader.remaining();
        proof {
            assert(all.skip(0) =~= all);
        }
        let a = unpack_part_as::<A, AsA, R>(reader, Context::Slot(0), Ghost(all), Ghost(0))?;
        Ok((a,))
    }
}

impl<A: DeepView, B: DeepView, AsA: BitUnpackAs<A>, AsB: BitUnpackAs<B>> BitUnpackAs<
    (A, B),
> for (AsA, AsB) {
    open spec fn decode_as(bits: Seq<bool>) -> Result<((A::V, B::V), nat), Failure> {
        match AsA::decode_as(bits) {
            Err(k) => Err(k.at(Context::Slot(0))),
            Ok((a, n)) => match AsB::decode_as(bits.skip(n as int)) {
                Err(k) => Err(k.at(Context::Slot(1))),
                Ok((b, m)) => Ok(((a, b), n + m)),
            },
        }
    }

    proof fn lemma_decode_as_within(bits: Seq<bool>) {
        let _own = <Self as BitUnpackAs<(A, B)>>::decode_as(bits);
        AsA::lemma_decode_as_within(bits);
        if let Ok((a, n)) = AsA::decode_as(bits) {
            AsB::lemma_decode_as_within(bits.skip(n as int));
        }
    }

    fn unpack_as<R: BitReader>(reader: &mut R) -> (r: Result<(A, B), Error>) {
        let ghost _own = <Self as BitUnpackAs<(A, B)>>::decode_as(reader.remaining());
        let ghost all = reader.remaining();
        proof {
            assert(all.skip(0) =~= all);
        }
        let a = unpack_part_as::<A, AsA, R>(reader, Context::Slot(0), Ghost(all), Ghost(0))?;
        let ghost n = AsA::decode_as(all)->Ok_0.1;
        let b = unpack_part_as::<B, AsB, R>(reader, Context::Slot(1), Ghost(all), Ghost(n))?;
        Ok((a, b))
    }
}

impl<
    A: DeepView,
    B: DeepView,
    C: DeepView,
    AsA: BitUnpackAs<A>,
    AsB: BitUnpackAs<B>,
    AsC: BitUnpackAs<C>,
> BitUnpackAs<(A, B, C)> for (AsA, AsB, AsC) {
    open spec fn decode_as(bits: Seq<bool>) -> Result<((A::V, B::V, C::V), nat), Failure> {
        match AsA::decode_as(bits) {
            Err(k) => Err(k.at(Context::Slot(0))),
            Ok((a, n)) => match AsB::decode_as(bits.skip(n as int)) {
                Err(k) => Err(k.at(Context::Slot(1))),
                Ok((b, m)) => match AsC::decode_as(bits.skip((n + m) as int)) {
                    Err(k) => Err(k.at(Context::Slot(2))),
                    Ok((c, l)) => Ok(((a, b, c), n + m + l)),
                },
            },
        }
    }

    proof fn lemma_decode_as_within(bits: Seq<bool>) {
        let _own = <Self as BitUnpackAs<(A, B, C)>>::decode_as(bits);
        AsA::lemma_decode_as_within(bits);
        if let Ok((a, n)) = AsA::decode_as(bits) {
            AsB::lemma_decode_as_within(bits.skip(n as int));
            if let Ok((b, m)) = AsB::decode_as(bits.skip(n as int)) {
                AsC::lemma_decode_as_within(bits.skip((n + m) as int));
            }
        }
    }

    fn unpack_as<R: BitReader>(reader: &mut R) -> (r: Result<(A, B, C), Error>) {
        let ghost _own = <Self as BitUnpackAs<(A, B, C)>>::decode_as(reader.remaining());
        let ghost all = reader.remaining();
        proof {
            assert(all.skip(0) =~= all);
        }
        let a = unpack_part_as::<A, AsA, R>(reader, Context::Slot(0), Ghost(all), Ghost(0))?;
        let ghost n = AsA::decode_as(all)->Ok_0.1;
        let b = unpack_part_as::<B, AsB, R>(reader, Context::Slot(1), Ghost(all), Ghost(n))?;
        let ghost m = AsB::decode_as(all.skip(n as int))->Ok_0.1;
        let c = unpack_part_as::<C, AsC, R>(reader, Context::Slot(2), Ghost(all), Ghost(n + m))?;
        Ok((a, b, c))
    }
}

/// A type with a default value whose deep view is known.
pub trait DefaultValue: DeepView + Sized {
    /// The deep view of the default value.
    spec fn default_view() -> Self::V;

    /// The default value.
    fn default_value() -> (v: Self)
        ensures
            v.deep_view() == Self::default_view(),
    ;
}

impl DefaultValue for () {
    open spec fn default_view() -> () {
        ()
    }

    fn default_value() -> (v: Self) {
        let ghost _own = Self::default_view();
        ()
    }
}

impl DefaultValue for bool {
    open spec fn default_view() -> bool {
        false
    }

    fn default_value() -> (v: Self) {
        let ghost _own = Self::default_view();
        false
    }
}

impl DefaultValue for u8 {
    open spec fn default_view() -> u8 {
        0
    }

    fn default_value() -> (v: Self) {
        let ghost _own = Self::default_view();
        0
    }
}

impl DefaultValue for u16 {
    open spec fn default_view() -> u16 {
        0
    }

    fn default_value() -> (v: Self) {
        let ghost _own = Self::default_view();
        0
    }
}

impl DefaultValue for u32 {
    open spec fn default_view() -> u32 {
        0
    }

    fn default_value() -> (v: Self) {
        let ghost _own = Self::default_view();
        0
    }
}

impl DefaultValue for u64 {
    open spec fn default_view() -> u64 {
        0
    }

    fn default_value() -> (v: Self) {
        let ghost _own = Self::default_view();
        0
    }
}

impl<T: DeepView> DefaultValue for Option<T> {
    open spec fn default_view() -> Option<T::V> {
        None
    }

    fn default_value() -> (v: Self) {
        let ghost _own = Self::default_view();
        None
    }
}

impl<T: DeepView> DefaultValue for Vec<T> {
    open spec fn default_view() -> Seq<T::V> {
        Seq::empty()
    }

    fn default_value() -> (v: Self) {
        let ghost _own = Self::default_view();
        let v: Vec<T> = Vec::new();
        assert(v.deep_view() =~= Seq::<T::V>::empty());
        v
    }
}

impl DefaultValue for Bits {
    open spec fn default_view() -> Seq<bool> {
        Seq::empty()
    }

    fn default_value() -> (v: Self) {
        let ghost _own = Self::default_view();
        Bits::new()
    }
}

/// The strategy that reads an optional value by the strategy `As` and gives
/// the type's default value where none is there.
pub struct DefaultOnNone<As = Same>(PhantomData<As>);

impl<T: DefaultValue, As: BitUnpackAs<T>> BitUnpackAs<T> for DefaultOnNone<As> {
    open spec fn decode_as(bits: Seq<bool>) -> Result<(T::V, nat), Failure> {
        match <Option<As> as BitUnpackAs<Option<T>>>::decode_as(bits) {
            Ok((Some(v), n)) => Ok((v, n)),
            Ok((None, n)) => Ok((T::default_view(), n)),
            Err(k) => Err(k),
        }
    }

    proof fn lemma_decode_as_within(bits: Seq<bool>) {
        let _own = <Self as BitUnpackAs<T>>::decode_as(bits);
        <Option<As> as BitUnpackAs<Option<T>>>::lemma_decode_as_within(bits);
    }

    fn unpack_as<R: BitReader>(reader: &mut R) -> (r: Result<T, Error>) {
        let ghost _own = <Self as BitUnpackAs<T>>::decode_as(reader.remaining());
        match <Option<As> as BitUnpackAs<Option<T>>>::unpack_as(reader)? {
            Some(v) => Ok(v),
            None => Ok(T::default_value()),
        }
    }
}

} // verus!
