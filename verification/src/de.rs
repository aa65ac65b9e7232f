//! Values that are read back from bits.

use crate::either::Either;
use crate::error::{Context, Error, ErrorKind, Failure, seen_at};
use crate::reader::{BitCursor, BitReader, unpack_outcome};
use crate::storage::{Bits, bytes_to_bits, max_bits};
use std::rc::Rc;
use std::sync::Arc;
use vstd::prelude::*;

verus! {

/// A type whose values are read from bits.
///
/// `decode` says what a bit string stands for: the value at its front and
/// the number of bits that the value takes, or the failure, with the place
/// of the part that cannot be read on its trail.
pub trait BitUnpack: DeepView + Sized {
    /// The value at the front of a bit string and the number of bits that
    /// stand for it.
    spec fn decode(bits: Seq<bool>) -> Result<(Self::V, nat), Failure>;

    /// A value takes no more bits than there are.
    proof fn lemma_decode_within(bits: Seq<bool>)
        ensures
            Self::decode(bits) matches Ok((_, n)) ==> n <= bits.len(),
    ;

    /// Reads the value at the front of what the reader holds.
    fn unpack<R: BitReader>(reader: &mut R) -> (r: Result<Self, Error>)
        requires
            old(reader).wf(),
        ensures
            unpack_outcome(*old(reader), *final(reader), r, Self::decode(old(reader).remaining())),
    ;
}

/// What a bit string stands for where all of it has to be used.
pub open spec fn decode_fully<T: BitUnpack>(bits: Seq<bool>) -> Result<T::V, Failure> {
    match T::decode(bits) {
        Ok((v, n)) => if n == bits.len() {
            Ok(v)
        } else {
            Err(Failure::of(ErrorKind::TrailingData))
        },
        Err(k) => Err(k),
    }
}

/// Whether an outcome is the one that was asked for: the value
/// by its deep view, the error by its kind and its trail.
pub open spec fn agrees<T: DeepView>(r: Result<T, Error>, want: Result<T::V, Failure>) -> bool {
    match want {
        Ok(v) => r matches Ok(x) && x.deep_view() == v,
        Err(k) => r matches Err(e) && e@ == k,
    }
}

/// Reads the value at the front of a bit string; bits after it are left
/// alone.
pub fn unpack<T: BitUnpack>(bits: &Bits) -> (r: Result<T, Error>)
    ensures
        agrees(
            r,
            match T::decode(bits@) {
                Ok((v, _)) => Ok(v),
                Err(k) => Err(k),
            },
        ),
{
    let mut reader = BitCursor::new(bits);
    T::unpack(&mut reader)
}

/// Reads the value that a bit string stands for; it is an error of kind
/// `TrailingData` if bits are left over.
pub fn unpack_fully<T: BitUnpack>(bits: &Bits) -> (r: Result<T, Error>)
    ensures
        agrees(r, decode_fully::<T>(bits@)),
{
    let mut reader = BitCursor::new(bits);
    let v = T::unpack(&mut reader)?;
    proof {
        T::lemma_decode_within(bits@);
    }
    if reader.bits_left() != 0 {
        return Err(Error::new(ErrorKind::TrailingData));
    }
    Ok(v)
}

/// What a byte string stands for, read as bits with the most significant bit
/// of each byte first; `Capacity` where it is too long to be read so.
pub open spec fn decode_bytes<T: BitUnpack>(bytes: Seq<u8>) -> Result<T::V, Failure> {
    if 8 * bytes.len() > max_bits() {
        Err(Failure::of(ErrorKind::Capacity))
    } else {
        match T::decode(bytes_to_bits(bytes)) {
            Ok((v, _)) => Ok(v),
            Err(k) => Err(k),
        }
    }
}

/// What a byte string stands for where all of its bits have to be used.
pub open spec fn decode_bytes_fully<T: BitUnpack>(bytes: Seq<u8>) -> Result<T::V, Failure> {
    if 8 * bytes.len() > max_bits() {
        Err(Failure::of(ErrorKind::Capacity))
    } else {
        decode_fully::<T>(bytes_to_bits(bytes))
    }
}

/// Reads the value at the front of a byte string.
pub fn unpack_bytes<T: BitUnpack>(bytes: &[u8]) -> (r: Result<T, Error>)
    ensures
        agrees(r, decode_bytes::<T>(bytes@)),
{
    match Bits::from_bytes(bytes) {
        Some(bits) => unpack(&bits),
        None => Err(Error::new(ErrorKind::Capacity)),
    }
}

/// Reads the value that a byte string stands for; it is an error of kind
/// `TrailingData` if bits are left over.
pub fn unpack_bytes_fully<T: BitUnpack>(bytes: &[u8]) -> (r: Result<T, Error>)
    ensures
        agrees(r, decode_bytes_fully::<T>(bytes@)),
{
    match Bits::from_bytes(bytes) {
        Some(bits) => unpack_fully(&bits),
        None => Err(Error::new(ErrorKind::Capacity)),
    }
}

impl BitUnpack for () {
    open spec fn decode(bits: Seq<bool>) -> Result<((), nat), Failure> {
        Ok(((), 0))
    }

    proof fn lemma_decode_within(bits: Seq<bool>) {
        let _own = Self::decode(bits);
    }

    fn unpack<R: BitReader>(reader: &mut R) -> (r: Result<Self, Error>) {
        let ghost _own = Self::decode(reader.remaining());
        assert(reader.remaining().skip(0) =~= reader.remaining());
        Ok(())
    }
}

impl BitUnpack for bool {
    open spec fn decode(bits: Seq<bool>) -> Result<(bool, nat), Failure> {
        if bits.len() == 0 {
            Err(Failure::of(ErrorKind::Exhaustion))
        } else {
            Ok((bits[0], 1))
        }
    }

    proof fn lemma_decode_within(bits: Seq<bool>) {
        let _own = Self::decode(bits);
    }

    fn unpack<R: BitReader>(reader: &mut R) -> (r: Result<Self, Error>) {
        let ghost _own = Self::decode(reader.remaining());
        reader.read_bit()
    }
}

/// Reads one part of a value after `taken` bits of it have been read, and
/// marks an error with the part's place.
pub(crate) fn unpack_part<T: BitUnpack, R: BitReader>(
    reader: &mut R,
    place: Context,
    Ghost(all): Ghost<Seq<bool>>,
    Ghost(taken): Ghost<nat>,
) -> (r: Result<T, Error>)
    requires
        old(reader).wf(),
        taken <= all.len(),
        old(reader).remaining() == all.skip(taken as int),
    ensures
        unpack_outcome(
            *old(reader),
            *final(reader),
            r,
            seen_at(T::decode(all.skip(taken as int)), place),
        ),
        T::decode(all.skip(taken as int)) matches Ok((_, n)) ==> taken + n <= all.len() && final(reader).remaining() == all.skip((taken + n) as int),
{
    match T::unpack(reader) {
        Ok(v) => {
            proof {
                let n = T::decode(all.skip(taken as int))->Ok_0.1;
                assert(all.skip(taken as int).skip(n as int) =~= all.skip((taken + n) as int));
            }
            Ok(v)
        },
        Err(e) => Err(e.context(place)),
    }
}

impl<A: BitUnpack, B: BitUnpack> BitUnpack for Either<A, B> {
    open spec fn decode(bits: Seq<bool>) -> Result<(Either<A::V, B::V>, nat), Failure> {
        match bool::decode(bits) {
            Err(k) => Err(k.at(Context::Field("tag"))),
            Ok((false, _)) => match A::decode(bits.skip(1)) {
                Ok((v, n)) => Ok((Either::Left(v), n + 1)),
                Err(k) => Err(k.at(Context::Field("left"))),
            },
            Ok((true, _)) => match B::decode(bits.skip(1)) {
                Ok((v, n)) => Ok((Either::Right(v), n + 1)),
                Err(k) => Err(k.at(Context::Field("right"))),
            },
        }
    }

    proof fn lemma_decode_within(bits: Seq<bool>) {
        let _own = Self::decode(bits);
        if bits.len() > 0 {
            A::lemma_decode_within(bits.skip(1));
            B::lemma_decode_within(bits.skip(1));
        }
    }

    fn unpack<R: BitReader>(reader: &mut R) -> (r: Result<Self, Error>) {
        let ghost _own = Self::decode(reader.remaining());
        let ghost all = reader.remaining();
        proof {
            assert(all.skip(0) =~= all);
        }
        let tag: bool = unpack_part(reader, Context::Field("tag"), Ghost(all), Ghost(0))?;
        if !tag {
            let v: A = unpack_part(reader, Context::Field("left"), Ghost(all), Ghost(1))?;
            Ok(Either::Left(v))
        } else {
            let v: B = unpack_part(reader, Context::Field("right"), Ghost(all), Ghost(1))?;
            Ok(Either::Right(v))
        }
    }
}

/// An optional value: one bit that says whether the value is there, 0 for
/// no and 1 for yes, and after a 1 the value.
impl<T: BitUnpack> BitUnpack for Option<T> {
    open spec fn decode(bits: Seq<bool>) -> Result<(Option<T::V>, nat), Failure> {
        match bool::decode(bits) {
            Err(k) => Err(k.at(Context::Field("tag"))),
            Ok((false, _)) => Ok((None, 1)),
            Ok((true, _)) => match T::decode(bits.skip(1)) {
                Ok((v, n)) => Ok((Some(v), n + 1)),
                Err(k) => Err(k.at(Context::Field("right"))),
            },
        }
    }

    proof fn lemma_decode_within(bits: Seq<bool>) {
        let _own = Self::decode(bits);
        if bits.len() > 0 {
            T::lemma_decode_within(bits.skip(1));
        }
    }

    fn unpack<R: BitReader>(reader: &mut R) -> (r: Result<Self, Error>) {
        let ghost _own = Self::decode(reader.remaining());
        let ghost all = reader.remaining();
        proof {
            assert(all.skip(0) =~= all);
        }
        let tag: bool = unpack_part(reader, Context::Field("tag"), Ghost(all), Ghost(0))?;
        if !tag {
            Ok(None)
        } else {
            let v: T = unpack_part(reader, Context::Field("right"), Ghost(all), Ghost(1))?;
            Ok(Some(v))
        }
    }
}

impl<T: BitUnpack> BitUnpack for Box<T> {
    open spec fn decode(bits: Seq<bool>) -> Result<(T::V, nat), Failure> {
        T::decode(bits)
    }

    proof fn lemma_decode_within(bits: Seq<bool>) {
        let _own = Self::decode(bits);
        T::lemma_decode_within(bits);
    }

    fn unpack<R: BitReader>(reader: &mut R) -> (r: Result<Self, Error>) {
        let ghost _own = Self::decode(reader.remaining());
        let v = T::unpack(reader)?;
        Ok(Box::new(v))
    }
}

impl<T: BitUnpack> BitUnpack for Rc<T> {
    open spec fn decode(bits: Seq<bool>) -> Result<(T::V, nat), Failure> {
        T::decode(bits)
    }

    proof fn lemma_decode_within(bits: Seq<bool>) {
        let _own = Self::decode(bits);
        T::lemma_decode_within(bits);
    }

    fn unpack<R: BitReader>(reader: &mut R) -> (r: Result<Self, Error>) {
        let ghost _own = Self::decode(reader.remaining());
        let v = T::unpack(reader)?;
        Ok(Rc::new(v))
    }
}

impl<T: BitUnpack> BitUnpack for Arc<T> {
    open spec fn decode(bits: Seq<bool>) -> Result<(T::V, nat), Failure> {
        T::decode(bits)
    }

    proof fn lemma_decode_within(bits: Seq<bool>) {
        let _own = Self::decode(bits);
        T::lemma_decode_within(bits);
    }

    fn unpack<R: BitReader>(reader: &mut R) -> (r: Result<Self, Error>) {
        let ghost _own = Self::decode(reader.remaining());
        let v = T::unpack(reader)?;
        Ok(Arc::new(v))
    }
}

impl<A: BitUnpack> BitUnpack for (A,) {
    open spec fn decode(bits: Seq<bool>) -> Result<((A::V,), nat), Failure> {
        match A::decode(bits) {
            Ok((a, n)) => Ok(((a,), n)),
            Err(k) => Err(k.at(Context::Slot(0))),
        }
    }

    proof fn lemma_decode_within(bits: Seq<bool>) {
        let _own = Self::decode(bits);
        A::lemma_decode_within(bits);
    }

    fn unpack<R: BitReader>(reader: &mut R) -> (r: Result<Self, Error>) {
        let ghost _own = Self::decode(reader.remaining());
        let ghost all = reader.remaining();
        proof {
            assert(all.skip(0) =~= all);
        }
        let a: A = unpack_part(reader, Context::Slot(0), Ghost(all), Ghost(0))?;
        Ok((a,))
    }
}

impl<A: BitUnpack, B: BitUnpack> BitUnpack for (A, B) {
    open spec fn decode(bits: Seq<bool>) -> Result<((A::V, B::V), nat), Failure> {
        match A::decode(bits) {
            Err(k) => Err(k.at(Context::Slot(0))),
            Ok((a, n)) => match B::decode(bits.skip(n as int)) {
                Err(k) => Err(k.at(Context::Slot(1))),
                Ok((b, m)) => Ok(((a, b), n + m)),
            },
        }
    }

    proof fn lemma_decode_within(bits: Seq<bool>) {
        let _own = Self::decode(bits);
        A::lemma_decode_within(bits);
        if let Ok((a, n)) = A::decode(bits) {
            B::lemma_decode_within(bits.skip(n as int));
        }
    }

    fn unpack<R: BitReader>(reader: &mut R) -> (r: Result<Self, Error>) {
        let ghost _own = Self::decode(reader.remaining());
        let ghost all = reader.remaining();
        proof {
            assert(all.skip(0) =~= all);
        }
        let a: A = unpack_part(reader, Context::Slot(0), Ghost(all), Ghost(0))?;
        let ghost n = A::decode(all)->Ok_0.1;
        let b: B = unpack_part(reader, Context::Slot(1), Ghost(all), Ghost(n))?;
        Ok((a, b))
    }
}

impl<A: BitUnpack, B: BitUnpack, C: BitUnpack> BitUnpack for (A, B, C) {
    open spec fn decode(bits: Seq<bool>) -> Result<((A::V, B::V, C::V), nat), Failure> {
        match A::decode(bits) {
            Err(k) => Err(k.at(Context::Slot(0))),
            Ok((a, n)) => match B::decode(bits.skip(n as int)) {
                Err(k) => Err(k.at(Context::Slot(1))),
                Ok((b, m)) => match C::decode(bits.skip((n + m) as int)) {
                    Err(k) => Err(k.at(Context::Slot(2))),
                    Ok((c, l)) => Ok(((a, b, c), n + m + l)),
                },
            },
        }
    }

    proof fn lemma_decode_within(bits: Seq<bool>) {
        let _own = Self::decode(bits);
        A::lemma_decode_within(bits);
        if let Ok((a, n)) = A::decode(bits) {
            B::lemma_decode_within(bits.skip(n as int));
            if let Ok((b, m)) = B::decode(bits.skip(n as int)) {
                C::lemma_decode_within(bits.skip((n + m) as int));
            }
        }
    }

    fn unpack<R: BitReader>(reader: &mut R) -> (r: Result<Self, Error>) {
        let ghost _own = Self::decode(reader.remaining());
        let ghost all = reader.remaining();
        proof {
            assert(all.skip(0) =~= all);
        }
        let a: A = unpack_part(reader, Context::Slot(0), Ghost(all), Ghost(0))?;
        let ghost n = A::decode(all)->Ok_0.1;
        let b: B = unpack_part(reader, Context::Slot(1), Ghost(all), Ghost(n))?;
        let ghost m = B::decode(all.skip(n as int))->Ok_0.1;
        let c: C = unpack_part(reader, Context::Slot(2), Ghost(all), Ghost(n + m))?;
        Ok((a, b, c))
    }
}

} // verus!
