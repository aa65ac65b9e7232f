//! Tuples of four to ten parts: the parts are written one after the other,
//! and an error carries the position of the part that failed.

use crate::codec::{BitCodec, lemma_skip_first};
use crate::de::{BitUnpack, unpack_part};
use crate::error::{Context, Error, Failure};
use crate::reader::BitReader;
use crate::ser::{BitPack, pack_part};
use crate::writer::{BitWriter, writable};
use vstd::prelude::*;

verus! {

/// A tuple of three borrowed parts is written as the tuple of the parts.
pub proof fn lemma_borrowed_three<A: BitPack, B: BitPack, C: BitPack>(
    v: (A::V, B::V, C::V),
    room: nat,
)
    ensures
        <(&A, &B, &C) as BitPack>::packable(v)
            == <(A, B, C) as BitPack>::packable(v),
        <(&A, &B, &C) as BitPack>::encoding(v)
            == <(A, B, C) as BitPack>::encoding(v),
        <(&A, &B, &C) as BitPack>::failure(v, room)
            == <(A, B, C) as BitPack>::failure(v, room),
{
}

/// A tuple of four parts: the first three as a tuple of their own, then the
/// last.
impl<A: BitPack, B: BitPack, C: BitPack, D: BitPack> BitPack for (A, B, C, D) {
    open spec fn packable(v: (A::V, B::V, C::V, D::V)) -> bool {
        <(A, B, C) as BitPack>::packable((v.0, v.1, v.2)) && D::packable(v.3)
    }

    open spec fn encoding(v: (A::V, B::V, C::V, D::V)) -> Seq<bool> {
        <(A, B, C) as BitPack>::encoding((v.0, v.1, v.2)) + D::encoding(v.3)
    }

    open spec fn failure(v: (A::V, B::V, C::V, D::V), room: nat) -> Failure {
        let front = (v.0, v.1, v.2);
        let bits = <(A, B, C) as BitPack>::encoding(front);
        if !writable(<(A, B, C) as BitPack>::packable(front), bits, room) {
            <(A, B, C) as BitPack>::failure(front, room)
        } else {
            D::failure(v.3, (room - bits.len()) as nat).at(Context::Slot(3))
        }
    }

    fn pack<W: BitWriter>(&self, writer: &mut W) -> (r: Result<(), Error>) {
        let ghost _own = (
            Self::packable(self.deep_view()),
            Self::encoding(self.deep_view()),
            Self::failure(self.deep_view(), writer.room()),
        );
        let ghost start = writer.written();
        let front = (&self.0, &self.1, &self.2);
        proof {
            lemma_borrowed_three::<A, B, C>(front.deep_view(), writer.room());
        }
        front.pack(writer)?;
        pack_part(&self.3, writer, Context::Slot(3), Ghost(start))?;
        proof {
            let a = <(A, B, C) as BitPack>::encoding(front.deep_view());
            let b = D::encoding(self.3.deep_view());
            assert(start + a + b =~= start + (a + b));
        }
        Ok(())
    }
}

/// A tuple of four parts: the first three as a tuple of their own, then the
/// last.
impl<A: BitUnpack, B: BitUnpack, C: BitUnpack, D: BitUnpack> BitUnpack for (A, B, C, D) {
    open spec fn decode(bits: Seq<bool>) -> Result<
        ((A::V, B::V, C::V, D::V), nat),
        Failure,
    > {
        match <(A, B, C) as BitUnpack>::decode(bits) {
            Err(k) => Err(k),
            Ok((f, n)) => match D::decode(bits.skip(n as int)) {
                Err(k) => Err(k.at(Context::Slot(3))),
                Ok((x, m)) => Ok(((f.0, f.1, f.2, x), n + m)),
            },
        }
    }

    proof fn lemma_decode_within(bits: Seq<bool>) {
        let _own = Self::decode(bits);
        <(A, B, C) as BitUnpack>::lemma_decode_within(bits);
        if let Ok((f, n)) = <(A, B, C) as BitUnpack>::decode(bits) {
            D::lemma_decode_within(bits.skip(n as int));
        }
    }

    fn unpack<R: BitReader>(reader: &mut R) -> (r: Result<Self, Error>) {
        let ghost _own = Self::decode(reader.remaining());
        let ghost all = reader.remaining();
        let (a, b, c) = <(A, B, C) as BitUnpack>::unpack(reader)?;
        let ghost n = <(A, B, C) as BitUnpack>::decode(all)->Ok_0.1;
        let d: D = unpack_part(reader, Context::Slot(3), Ghost(all), Ghost(n))?;
        Ok((a, b, c, d))
    }
}

impl<A: BitCodec, B: BitCodec, C: BitCodec, D: BitCodec> BitCodec for (A, B, C, D) {
    proof fn lemma_round_trip(v: (A::V, B::V, C::V, D::V), rest: Seq<bool>) {
        let _own = (Self::packable(v), Self::encoding(v), Self::decode(rest));
        let front = (v.0, v.1, v.2);
        let a = <(A, B, C) as BitPack>::encoding(front);
        let b = D::encoding(v.3);
        lemma_skip_first(a, b, rest);
        <(A, B, C) as BitCodec>::lemma_round_trip(front, b + rest);
        D::lemma_round_trip(v.3, rest);
    }
}

/// A tuple of four borrowed parts is written as the tuple of the parts.
pub proof fn lemma_borrowed_four<A: BitPack, B: BitPack, C: BitPack, D: BitPack>(
    v: (A::V, B::V, C::V, D::V),
    room: nat,
)
    ensures
        <(&A, &B, &C, &D) as BitPack>::packable(v)
            == <(A, B, C, D) as BitPack>::packable(v),
        <(&A, &B, &C, &D) as BitPack>::encoding(v)
            == <(A, B, C, D) as BitPack>::encoding(v),
        <(&A, &B, &C, &D) as BitPack>::failure(v, room)
            == <(A, B, C, D) as BitPack>::failure(v, room),
{
    lemma_borrowed_three::<A, B, C>((v.0, v.1, v.2), room);
}

/// A tuple of five parts: the first four as a tuple of their own, then the
/// last.
impl<A: BitPack, B: BitPack, C: BitPack, D: BitPack, E: BitPack> BitPack for (A, B, C, D, E) {
    open spec fn packable(v: (A::V, B::V, C::V, D::V, E::V)) -> bool {
        <(A, B, C, D) as BitPack>::packable((v.0, v.1, v.2, v.3)) && E::packable(v.4)
    }

    open spec fn encoding(v: (A::V, B::V, C::V, D::V, E::V)) -> Seq<bool> {
        <(A, B, C, D) as BitPack>::encoding((v.0, v.1, v.2, v.3)) + E::encoding(v.4)
    }

    open spec fn failure(v: (A::V, B::V, C::V, D::V, E::V), room: nat) -> Failure {
        let front = (v.0, v.1, v.2, v.3);
        let bits = <(A, B, C, D) as BitPack>::encoding(front);
        if !writable(<(A, B, C, D) as BitPack>::packable(front), bits, room) {
            <(A, B, C, D) as BitPack>::failure(front, room)
        } else {
            E::failure(v.4, (room - bits.len()) as nat).at(Context::Slot(4))
        }
    }

    fn pack<W: BitWriter>(&self, writer: &mut W) -> (r: Result<(), Error>) {
        let ghost _own = (
            Self::packable(self.deep_view()),
            Self::encoding(self.deep_view()),
            Self::failure(self.deep_view(), writer.room()),
        );
        let ghost start = writer.written();
        let front = (&self.0, &self.1, &self.2, &self.3);
        proof {
            lemma_borrowed_four::<A, B, C, D>(front.deep_view(), writer.room());
        }
        front.pack(writer)?;
        pack_part(&self.4, writer, Context::Slot(4), Ghost(start))?;
        proof {
            let a = <(A, B, C, D) as BitPack>::encoding(front.deep_view());
            let b = E::encoding(self.4.deep_view());
            assert(start + a + b =~= start + (a + b));
        }
        Ok(())
    }
}

/// A tuple of five parts: the first four as a tuple of their own, then the
/// last.
impl<
    A: BitUnpack,
    B: BitUnpack,
    C: BitUnpack,
    D: BitUnpack,
    E: BitUnpack,
> BitUnpack for (A, B, C, D, E) {
    open spec fn decode(bits: Seq<bool>) -> Result<
        ((A::V, B::V, C::V, D::V, E::V), nat),
        Failure,
    > {
        match <(A, B, C, D) as BitUnpack>::decode(bits) {
            Err(k) => Err(k),
            Ok((f, n)) => match E::decode(bits.skip(n as int)) {
                Err(k) => Err(k.at(Context::Slot(4))),
                Ok((x, m)) => Ok(((f.0, f.1, f.2, f.3, x), n + m)),
            },
        }
    }

    proof fn lemma_decode_within(bits: Seq<bool>) {
        let _own = Self::decode(bits);
        <(A, B, C, D) as BitUnpack>::lemma_decode_within(bits);
        if let Ok((f, n)) = <(A, B, C, D) as BitUnpack>::decode(bits) {
            E::lemma_decode_within(bits.skip(n as int));
        }
    }

    fn unpack<R: BitReader>(reader: &mut R) -> (r: Result<Self, Error>) {
        let ghost _own = Self::decode(reader.remaining());
        let ghost all = reader.remaining();
        let (a, b, c, d) = <(A, B, C, D) as BitUnpack>::unpack(reader)?;
        let ghost n = <(A, B, C, D) as BitUnpack>::decode(all)->Ok_0.1;
        let e: E = unpack_part(reader, Context::Slot(4), Ghost(all), Ghost(n))?;
        Ok((a, b, c, d, e))
    }
}

impl<A: BitCodec, B: BitCodec, C: BitCodec, D: BitCodec, E: BitCodec> BitCodec for (A, B, C, D, E) {
    proof fn lemma_round_trip(v: (A::V, B::V, C::V, D::V, E::V), rest: Seq<bool>) {
        let _own = (Self::packable(v), Self::encoding(v), Self::decode(rest));
        let front = (v.0, v.1, v.2, v.3);
        let a = <(A, B, C, D) as BitPack>::encoding(front);
        let b = E::encoding(v.4);
        lemma_skip_first(a, b, rest);
        <(A, B, C, D) as BitCodec>::lemma_round_trip(front, b + rest);
        E::lemma_round_trip(v.4, rest);
    }
}

/// A tuple of five borrowed parts is written as the tuple of the parts.
pub proof fn lemma_borrowed_five<A: BitPack, B: BitPack, C: BitPack, D: BitPack, E: BitPack>(
    v: (A::V, B::V, C::V, D::V, E::V),
    room: nat,
)
    ensures
        <(&A, &B, &C, &D, &E) as BitPack>::packable(v)
            == <(A, B, C, D, E) as BitPack>::packable(v),
        <(&A, &B, &C, &D, &E) as BitPack>::encoding(v)
            == <(A, B, C, D, E) as BitPack>::encoding(v),
        <(&A, &B, &C, &D, &E) as BitPack>::failure(v, room)
            == <(A, B, C, D, E) as BitPack>::failure(v, room),
{
    lemma_borrowed_four::<A, B, C, D>((v.0, v.1, v.2, v.3), room);
}

/// A tuple of six parts: the first five as a tuple of their own, then the
/// last.
impl<
    A: BitPack,
    B: BitPack,
    C: BitPack,
    D: BitPack,
    E: BitPack,
    F: BitPack,
> BitPack for (A, B, C, D, E, F) {
    open spec fn packable(v: (A::V, B::V, C::V, D::V, E::V, F::V)) -> bool {
        <(A, B, C, D, E) as BitPack>::packable((v.0, v.1, v.2, v.3, v.4)) && F::packable(v.5)
    }

    open spec fn encoding(v: (A::V, B::V, C::V, D::V, E::V, F::V)) -> Seq<bool> {
        <(A, B, C, D, E) as BitPack>::encoding((v.0, v.1, v.2, v.3, v.4)) + F::encoding(v.5)
    }

    open spec fn failure(v: (A::V, B::V, C::V, D::V, E::V, F::V), room: nat) -> Failure {
        let front = (v.0, v.1, v.2, v.3, v.4);
        let bits = <(A, B, C, D, E) as BitPack>::encoding(front);
        if !writable(<(A, B, C, D, E) as BitPack>::packable(front), bits, room) {
            <(A, B, C, D, E) as BitPack>::failure(front, room)
        } else {
            F::failure(v.5, (room - bits.len()) as nat).at(Context::Slot(5))
        }
    }

    fn pack<W: BitWriter>(&self, writer: &mut W) -> (r: Result<(), Error>) {
        let ghost _own = (
            Self::packable(self.deep_view()),
            Self::encoding(self.deep_view()),
            Self::failure(self.deep_view(), writer.room()),
        );
        let ghost start = writer.written();
        let front = (&self.0, &self.1, &self.2, &self.3, &self.4);
        proof {
            lemma_borrowed_five::<A, B, C, D, E>(front.deep_view(), writer.room());
        }
        front.pack(writer)?;
        pack_part(&self.5, writer, Context::Slot(5), Ghost(start))?;
        proof {
            let a = <(A, B, C, D, E) as BitPack>::encoding(front.deep_view());
            let b = F::encoding(self.5.deep_view());
            assert(start + a + b =~= start + (a + b));
        }
        Ok(())
    }
}

/// A tuple of six parts: the first five as a tuple of their own, then the
/// last.
impl<
    A: BitUnpack,
    B: BitUnpack,
    C: BitUnpack,
    D: BitUnpack,
    E: BitUnpack,
    F: BitUnpack,
> BitUnpack for (A, B, C, D, E, F) {
    open spec fn decode(bits: Seq<bool>) -> Result<
        ((A::V, B::V, C::V, D::V, E::V, F::V), nat),
        Failure,
    > {
        match <(A, B, C, D, E) as BitUnpack>::decode(bits) {
            Err(k) => Err(k),
            Ok((f, n)) => match F::decode(bits.skip(n as int)) {
                Err(k) => Err(k.at(Context::Slot(5))),
                Ok((x, m)) => Ok(((f.0, f.1, f.2, f.3, f.4, x), n + m)),
            },
        }
    }

    proof fn lemma_decode_within(bits: Seq<bool>) {
        let _own = Self::decode(bits);
        <(A, B, C, D, E) as BitUnpack>::lemma_decode_within(bits);
        if let Ok((f, n)) = <(A, B, C, D, E) as BitUnpack>::decode(bits) {
            F::lemma_decode_within(bits.skip(n as int));
        }
    }

    fn unpack<R: BitReader>(reader: &mut R) -> (r: Result<Self, Error>) {
        let ghost _own = Self::decode(reader.remaining());
        let ghost all = reader.remaining();
        let (a, b, c, d, e) = <(A, B, C, D, E) as BitUnpack>::unpack(reader)?;
        let ghost n = <(A, B, C, D, E) as BitUnpack>::decode(all)->Ok_0.1;
        let f: F = unpack_part(reader, Context::Slot(5), Ghost(all), Ghost(n))?;
        Ok((a, b, c, d, e, f))
    }
}

impl<
    A: BitCodec,
    B: BitCodec,
    C: BitCodec,
    D: BitCodec,
    E: BitCodec,
    F: BitCodec,
> BitCodec for (A, B, C, D, E, F) {
    proof fn lemma_round_trip(v: (A::V, B::V, C::V, D::V, E::V, F::V), rest: Seq<bool>) {
        let _own = (Self::packable(v), Self::encoding(v), Self::decode(rest));
        let front = (v.0, v.1, v.2, v.3, v.4);
        let a = <(A, B, C, D, E) as BitPack>::encoding(front);
        let b = F::encoding(v.5);
        lemma_skip_first(a, b, rest);
        <(A, B, C, D, E) as BitCodec>::lemma_round_trip(front, b + rest);
        F::lemma_round_trip(v.5, rest);
    }
}

/// A tuple of six borrowed parts is written as the tuple of the parts.
pub proof fn lemma_borrowed_six<A: BitPack, B: BitPack, C: BitPack, D: BitPack, E: BitPack, F: BitPack>(
    v: (A::V, B::V, C::V, D::V, E::V, F::V),
    room: nat,
)
    ensures
        <(&A, &B, &C, &D, &E, &F) as BitPack>::packable(v)
            == <(A, B, C, D, E, F) as BitPack>::packable(v),
        <(&A, &B, &C, &D, &E, &F) as BitPack>::encoding(v)
            == <(A, B, C, D, E, F) as BitPack>::encoding(v),
        <(&A, &B, &C, &D, &E, &F) as BitPack>::failure(v, room)
            == <(A, B, C, D, E, F) as BitPack>::failure(v, room),
{
    lemma_borrowed_five::<A, B, C, D, E>((v.0, v.1, v.2, v.3, v.4), room);
}

/// A tuple of seven parts: the first six as a tuple of their own, then the
/// last.
impl<
    A: BitPack,
    B: BitPack,
    C: BitPack,
    D: BitPack,
    E: BitPack,
    F: BitPack,
    G: BitPack,
> BitPack for (A, B, C, D, E, F, G) {
    open spec fn packable(v: (A::V, B::V, C::V, D::V, E::V, F::V, G::V)) -> bool {
        <(A, B, C, D, E, F) as BitPack>::packable((v.0, v.1, v.2, v.3, v.4, v.5)) && G::packable(v.6)
    }

    open spec fn encoding(v: (A::V, B::V, C::V, D::V, E::V, F::V, G::V)) -> Seq<bool> {
        <(A, B, C, D, E, F) as BitPack>::encoding((v.0, v.1, v.2, v.3, v.4, v.5)) + G::encoding(v.6)
    }

    open spec fn failure(v: (A::V, B::V, C::V, D::V, E::V, F::V, G::V), room: nat) -> Failure {
        let front = (v.0, v.1, v.2, v.3, v.4, v.5);
        let bits = <(A, B, C, D, E, F) as BitPack>::encoding(front);
        if !writable(<(A, B, C, D, E, F) as BitPack>::packable(front), bits, room) {
            <(A, B, C, D, E, F) as BitPack>::failure(front, room)
        } else {
            G::failure(v.6, (room - bits.len()) as nat).at(Context::Slot(6))
        }
    }

    fn pack<W: BitWriter>(&self, writer: &mut W) -> (r: Result<(), Error>) {
        let ghost _own = (
            Self::packable(self.deep_view()),
            Self::encoding(self.deep_view()),
            Self::failure(self.deep_view(), writer.room()),
        );
        let ghost start = writer.written();
        let front = (&self.0, &self.1, &self.2, &self.3, &self.4, &self.5);
        proof {
            lemma_borrowed_six::<A, B, C, D, E, F>(front.deep_view(), writer.room());
        }
        front.pack(writer)?;
        pack_part(&self.6, writer, Context::Slot(6), Ghost(start))?;
        proof {
            let a = <(A, B, C, D, E, F) as BitPack>::encoding(front.deep_view());
            let b = G::encoding(self.6.deep_view());
            assert(start + a + b =~= start + (a + b));
        }
        Ok(())
    }
}

/// A tuple of seven parts: the first six as a tuple of their own, then the
/// last.
impl<
    A: BitUnpack,
    B: BitUnpack,
    C: BitUnpack,
    D: BitUnpack,
    E: BitUnpack,
    F: BitUnpack,
    G: BitUnpack,
> BitUnpack for (A, B, C, D, E, F, G) {
    open spec fn decode(bits: Seq<bool>) -> Result<
        ((A::V, B::V, C::V, D::V, E::V, F::V, G::V), nat),
        Failure,
    > {
        match <(A, B, C, D, E, F) as BitUnpack>::decode(bits) {
            Err(k) => Err(k),
            Ok((f, n)) => match G::decode(bits.skip(n as int)) {
                Err(k) => Err(k.at(Context::Slot(6))),
                Ok((x, m)) => Ok(((f.0, f.1, f.2, f.3, f.4, f.5, x), n + m)),
            },
        }
    }

    proof fn lemma_decode_within(bits: Seq<bool>) {
        let _own = Self::decode(bits);
        <(A, B, C, D, E, F) as BitUnpack>::lemma_decode_within(bits);
        if let Ok((f, n)) = <(A, B, C, D, E, F) as BitUnpack>::decode(bits) {
            G::lemma_decode_within(bits.skip(n as int));
        }
    }

    fn unpack<R: BitReader>(reader: &mut R) -> (r: Result<Self, Error>) {
        let ghost _own = Self::decode(reader.remaining());
        let ghost all = reader.remaining();
        let (a, b, c, d, e, f) = <(A, B, C, D, E, F) as BitUnpack>::unpack(reader)?;
        let ghost n = <(A, B, C, D, E, F) as BitUnpack>::decode(all)->Ok_0.1;
        let g: G = unpack_part(reader, Context::Slot(6), Ghost(all), Ghost(n))?;
        Ok((a, b, c, d, e, f, g))
    }
}

impl<
    A: BitCodec,
    B: BitCodec,
    C: BitCodec,
    D: BitCodec,
    E: BitCodec,
    F: BitCodec,
    G: BitCodec,
> BitCodec for (A, B, C, D, E, F, G) {
    proof fn lemma_round_trip(v: (A::V, B::V, C::V, D::V, E::V, F::V, G::V), rest: Seq<bool>) {
        let _own = (Self::packable(v), Self::encoding(v), Self::decode(rest));
        let front = (v.0, v.1, v.2, v.3, v.4, v.5);
        let a = <(A, B, C, D, E, F) as BitPack>::encoding(front);
        let b = G::encoding(v.6);
        lemma_skip_first(a, b, rest);
        <(A, B, C, D, E, F) as BitCodec>::lemma_round_trip(front, b + rest);
        G::lemma_round_trip(v.6, rest);
    }
}

/// A tuple of seven borrowed parts is written as the tuple of the parts.
pub proof fn lemma_borrowed_seven<A: BitPack, B: BitPack, C: BitPack, D: BitPack, E: BitPack, F: BitPack, G: BitPack>(
    v: (A::V, B::V, C::V, D::V, E::V, F::V, G::V),
    room: nat,
)
    ensures
        <(&A, &B, &C, &D, &E, &F, &G) as BitPack>::packable(v)
            == <(A, B, C, D, E, F, G) as BitPack>::packable(v),
        <(&A, &B, &C, &D, &E, &F, &G) as BitPack>::encoding(v)
            == <(A, B, C, D, E, F, G) as BitPack>::encoding(v),
        <(&A, &B, &C, &D, &E, &F, &G) as BitPack>::failure(v, room)
            == <(A, B, C, D, E, F, G) as BitPack>::failure(v, room),
{
    lemma_borrowed_six::<A, B, C, D, E, F>((v.0, v.1, v.2, v.3, v.4, v.5), room);
}

/// A tuple of eight parts: the first seven as a tuple of their own, then the
/// last.
impl<
    A: BitPack,
    B: BitPack,
    C: BitPack,
    D: BitPack,
    E: BitPack,
    F: BitPack,
    G: BitPack,
    H: BitPack,
> BitPack for (A, B, C, D, E, F, G, H) {
    open spec fn packable(v: (A::V, B::V, C::V, D::V, E::V, F::V, G::V, H::V)) -> bool {
        <(A, B, C, D, E, F, G) as BitPack>::packable((v.0, v.1, v.2, v.3, v.4, v.5, v.6)) && H::packable(v.7)
    }

    open spec fn encoding(v: (A::V, B::V, C::V, D::V, E::V, F::V, G::V, H::V)) -> Seq<bool> {
        <(A, B, C, D, E, F, G) as BitPack>::encoding((v.0, v.1, v.2, v.3, v.4, v.5, v.6)) + H::encoding(v.7)
    }

    open spec fn failure(v: (A::V, B::V, C::V, D::V, E::V, F::V, G::V, H::V), room: nat) -> Failure {
        let front = (v.0, v.1, v.2, v.3, v.4, v.5, v.6);
        let bits = <(A, B, C, D, E, F, G) as BitPack>::encoding(front);
        if !writable(<(A, B, C, D, E, F, G) as BitPack>::packable(front), bits, room) {
            <(A, B, C, D, E, F, G) as BitPack>::failure(front, room)
        } else {
            H::failure(v.7, (room - bits.len()) as nat).at(Context::Slot(7))
        }
    }

    fn pack<W: BitWriter>(&self, writer: &mut W) -> (r: Result<(), Error>) {
        let ghost _own = (
            Self::packable(self.deep_view()),
            Self::encoding(self.deep_view()),
            Self::failure(self.deep_view(), writer.room()),
        );
        let ghost start = writer.written();
        let front = (&self.0, &self.1, &self.2, &self.3, &self.4, &self.5, &self.6);
        proof {
            lemma_borrowed_seven::<A, B, C, D, E, F, G>(front.deep_view(), writer.room());
        }
        front.pack(writer)?;
        pack_part(&self.7, writer, Context::Slot(7), Ghost(start))?;
        proof {
            let a = <(A, B, C, D, E, F, G) as BitPack>::encoding(front.deep_view());
            let b = H::encoding(self.7.deep_view());
            assert(start + a + b =~= start + (a + b));
        }
        Ok(())
    }
}

/// A tuple of eight parts: the first seven as a tuple of their own, then the
/// last.
impl<
    A: BitUnpack,
    B: BitUnpack,
    C: BitUnpack,
    D: BitUnpack,
    E: BitUnpack,
    F: BitUnpack,
    G: BitUnpack,
    H: BitUnpack,
> BitUnpack for (A, B, C, D, E, F, G, H) {
    open spec fn decode(bits: Seq<bool>) -> Result<
        ((A::V, B::V, C::V, D::V, E::V, F::V, G::V, H::V), nat),
        Failure,
    > {
        match <(A, B, C, D, E, F, G) as BitUnpack>::decode(bits) {
            Err(k) => Err(k),
            Ok((f, n)) => match H::decode(bits.skip(n as int)) {
                Err(k) => Err(k.at(Context::Slot(7))),
                Ok((x, m)) => Ok(((f.0, f.1, f.2, f.3, f.4, f.5, f.6, x), n + m)),
            },
        }
    }

    proof fn lemma_decode_within(bits: Seq<bool>) {
        let _own = Self::decode(bits);
        <(A, B, C, D, E, F, G) as BitUnpack>::lemma_decode_within(bits);
        if let Ok((f, n)) = <(A, B, C, D, E, F, G) as BitUnpack>::decode(bits) {
            H::lemma_decode_within(bits.skip(n as int));
        }
    }

    fn unpack<R: BitReader>(reader: &mut R) -> (r: Result<Self, Error>) {
        let ghost _own = Self::decode(reader.remaining());
        let ghost all = reader.remaining();
        let (a, b, c, d, e, f, g) = <(A, B, C, D, E, F, G) as BitUnpack>::unpack(reader)?;
        let ghost n = <(A, B, C, D, E, F, G) as BitUnpack>::decode(all)->Ok_0.1;
        let h: H = unpack_part(reader, Context::Slot(7), Ghost(all), Ghost(n))?;
        Ok((a, b, c, d, e, f, g, h))
    }
}

impl<
    A: BitCodec,
    B: BitCodec,
    C: BitCodec,
    D: BitCodec,
    E: BitCodec,
    F: BitCodec,
    G: BitCodec,
    H: BitCodec,
> BitCodec for (A, B, C, D, E, F, G, H) {
    proof fn lemma_round_trip(v: (A::V, B::V, C::V, D::V, E::V, F::V, G::V, H::V), rest: Seq<bool>) {
        let _own = (Self::packable(v), Self::encoding(v), Self::decode(rest));
        let front = (v.0, v.1, v.2, v.3, v.4, v.5, v.6);
        let a = <(A, B, C, D, E, F, G) as BitPack>::encoding(front);
        let b = H::encoding(v.7);
        lemma_skip_first(a, b, rest);
        <(A, B, C, D, E, F, G) as BitCodec>::lemma_round_trip(front, b + rest);
        H::lemma_round_trip(v.7, rest);
    }
}

/// A tuple of eight borrowed parts is written as the tuple of the parts.
pub proof fn lemma_borrowed_eight<A: BitPack, B: BitPack, C: BitPack, D: BitPack, E: BitPack, F: BitPack, G: BitPack, H: BitPack>(
    v: (A::V, B::V, C::V, D::V, E::V, F::V, G::V, H::V),
    room: nat,
)
    ensures
        <(&A, &B, &C, &D, &E, &F, &G, &H) as BitPack>::packable(v)
            == <(A, B, C, D, E, F, G, H) as BitPack>::packable(v),
        <(&A, &B, &C, &D, &E, &F, &G, &H) as BitPack>::encoding(v)
            == <(A, B, C, D, E, F, G, H) as BitPack>::encoding(v),
        <(&A, &B, &C, &D, &E, &F, &G, &H) as BitPack>::failure(v, room)
            == <(A, B, C, D, E, F, G, H) as BitPack>::failure(v, room),
{
    lemma_borrowed_seven::<A, B, C, D, E, F, G>((v.0, v.1, v.2, v.3, v.4, v.5, v.6), room);
}

/// A tuple of nine parts: the first eight as a tuple of their own, then the
/// last.
impl<
    A: BitPack,
    B: BitPack,
    C: BitPack,
    D: BitPack,
    E: BitPack,
    F: BitPack,
    G: BitPack,
    H: BitPack,
    I: BitPack,
> BitPack for (A, B, C, D, E, F, G, H, I) {
    open spec fn packable(v: (A::V, B::V, C::V, D::V, E::V, F::V, G::V, H::V, I::V)) -> bool {
        <(A, B, C, D, E, F, G, H) as BitPack>::packable((v.0, v.1, v.2, v.3, v.4, v.5, v.6, v.7)) && I::packable(v.8)
    }

    open spec fn encoding(v: (A::V, B::V, C::V, D::V, E::V, F::V, G::V, H::V, I::V)) -> Seq<bool> {
        <(A, B, C, D, E, F, G, H) as BitPack>::encoding((v.0, v.1, v.2, v.3, v.4, v.5, v.6, v.7)) + I::encoding(v.8)
    }

    open spec fn failure(v: (A::V, B::V, C::V, D::V, E::V, F::V, G::V, H::V, I::V), room: nat) -> Failure {
        let front = (v.0, v.1, v.2, v.3, v.4, v.5, v.6, v.7);
        let bits = <(A, B, C, D, E, F, G, H) as BitPack>::encoding(front);
        if !writable(<(A, B, C, D, E, F, G, H) as BitPack>::packable(front), bits, room) {
            <(A, B, C, D, E, F, G, H) as BitPack>::failure(front, room)
        } else {
            I::failure(v.8, (room - bits.len()) as nat).at(Context::Slot(8))
        }
    }

    fn pack<W: BitWriter>(&self, writer: &mut W) -> (r: Result<(), Error>) {
        let ghost _own = (
            Self::packable(self.deep_view()),
            Self::encoding(self.deep_view()),
            Self::failure(self.deep_view(), writer.room()),
        );
        let ghost start = writer.written();
        let front = (&self.0, &self.1, &self.2, &self.3, &self.4, &self.5, &self.6, &self.7);
        proof {
            lemma_borrowed_eight::<A, B, C, D, E, F, G, H>(front.deep_view(), writer.room());
        }
        front.pack(writer)?;
        pack_part(&self.8, writer, Context::Slot(8), Ghost(start))?;
        proof {
            let a = <(A, B, C, D, E, F, G, H) as BitPack>::encoding(front.deep_view());
            let b = I::encoding(self.8.deep_view());
            assert(start + a + b =~= start + (a + b));
        }
        Ok(())
    }
}

/// A tuple of nine parts: the first eight as a tuple of their own, then the
/// last.
impl<
    A: BitUnpack,
    B: BitUnpack,
    C: BitUnpack,
    D: BitUnpack,
    E: BitUnpack,
    F: BitUnpack,
    G: BitUnpack,
    H: BitUnpack,
    I: BitUnpack,
> BitUnpack for (A, B, C, D, E, F, G, H, I) {
    open spec fn decode(bits: Seq<bool>) -> Result<
        ((A::V, B::V, C::V, D::V, E::V, F::V, G::V, H::V, I::V), nat),
        Failure,
    > {
        match <(A, B, C, D, E, F, G, H) as BitUnpack>::decode(bits) {
            Err(k) => Err(k),
            Ok((f, n)) => match I::decode(bits.skip(n as int)) {
                Err(k) => Err(k.at(Context::Slot(8))),
                Ok((x, m)) => Ok(((f.0, f.1, f.2, f.3, f.4, f.5, f.6, f.7, x), n + m)),
            },
        }
    }

    proof fn lemma_decode_within(bits: Seq<bool>) {
        let _own = Self::decode(bits);
        <(A, B, C, D, E, F, G, H) as BitUnpack>::lemma_decode_within(bits);
        if let Ok((f, n)) = <(A, B, C, D, E, F, G, H) as BitUnpack>::decode(bits) {
            I::lemma_decode_within(bits.skip(n as int));
        }
    }

    fn unpack<R: BitReader>(reader: &mut R) -> (r: Result<Self, Error>) {
        let ghost _own = Self::decode(reader.remaining());
        let ghost all = reader.remaining();
        let (a, b, c, d, e, f, g, h) = <(A, B, C, D, E, F, G, H) as BitUnpack>::unpack(reader)?;
        let ghost n = <(A, B, C, D, E, F, G, H) as BitUnpack>::decode(all)->Ok_0.1;
        let i: I = unpack_part(reader, Context::Slot(8), Ghost(all), Ghost(n))?;
        Ok((a, b, c, d, e, f, g, h, i))
    }
}

impl<
    A: BitCodec,
    B: BitCodec,
    C: BitCodec,
    D: BitCodec,
    E: BitCodec,
    F: BitCodec,
    G: BitCodec,
    H: BitCodec,
    I: BitCodec,
> BitCodec for (A, B, C, D, E, F, G, H, I) {
    proof fn lemma_round_trip(v: (A::V, B::V, C::V, D::V, E::V, F::V, G::V, H::V, I::V), rest: Seq<bool>) {
        let _own = (Self::packable(v), Self::encoding(v), Self::decode(rest));
        let front = (v.0, v.1, v.2, v.3, v.4, v.5, v.6, v.7);
        let a = <(A, B, C, D, E, F, G, H) as BitPack>::encoding(front);
        let b = I::encoding(v.8);
        lemma_skip_first(a, b, rest);
        <(A, B, C, D, E, F, G, H) as BitCodec>::lemma_round_trip(front, b + rest);
        I::lemma_round_trip(v.8, rest);
    }
}

/// A tuple of nine borrowed parts is written as the tuple of the parts.
pub proof fn lemma_borrowed_nine<A: BitPack, B: BitPack, C: BitPack, D: BitPack, E: BitPack, F: BitPack, G: BitPack, H: BitPack, I: BitPack>(
    v: (A::V, B::V, C::V, D::V, E::V, F::V, G::V, H::V, I::V),
    room: nat,
)
    ensures
        <(&A, &B, &C, &D, &E, &F, &G, &H, &I) as BitPack>::packable(v)
            == <(A, B, C, D, E, F, G, H, I) as BitPack>::packable(v),
        <(&A, &B, &C, &D, &E, &F, &G, &H, &I) as BitPack>::encoding(v)
            == <(A, B, C, D, E, F, G, H, I) as BitPack>::encoding(v),
        <(&A, &B, &C, &D, &E, &F, &G, &H, &I) as BitPack>::failure(v, room)
            == <(A, B, C, D, E, F, G, H, I) as BitPack>::failure(v, room),
{
    lemma_borrowed_eight::<A, B, C, D, E, F, G, H>((v.0, v.1, v.2, v.3, v.4, v.5, v.6, v.7), room);
}

/// A tuple of ten parts: the first nine as a tuple of their own, then the
/// last.
impl<
    A: BitPack,
    B: BitPack,
    C: BitPack,
    D: BitPack,
    E: BitPack,
    F: BitPack,
    G: BitPack,
    H: BitPack,
    I: BitPack,
    J: BitPack,
> BitPack for (A, B, C, D, E, F, G, H, I, J) {
    open spec fn packable(v: (A::V, B::V, C::V, D::V, E::V, F::V, G::V, H::V, I::V, J::V)) -> bool {
        <(A, B, C, D, E, F, G, H, I) as BitPack>::packable((v.0, v.1, v.2, v.3, v.4, v.5, v.6, v.7, v.8)) && J::packable(v.9)
    }

    open spec fn encoding(v: (A::V, B::V, C::V, D::V, E::V, F::V, G::V, H::V, I::V, J::V)) -> Seq<bool> {
        <(A, B, C, D, E, F, G, H, I) as BitPack>::encoding((v.0, v.1, v.2, v.3, v.4, v.5, v.6, v.7, v.8)) + J::encoding(v.9)
    }

    open spec fn failure(v: (A::V, B::V, C::V, D::V, E::V, F::V, G::V, H::V, I::V, J::V), room: nat) -> Failure {
        let front = (v.0, v.1, v.2, v.3, v.4, v.5, v.6, v.7, v.8);
        let bits = <(A, B, C, D, E, F, G, H, I) as BitPack>::encoding(front);
        if !writable(<(A, B, C, D, E, F, G, H, I) as BitPack>::packable(front), bits, room) {
            <(A, B, C, D, E, F, G, H, I) as BitPack>::failure(front, room)
        } else {
            J::failure(v.9, (room - bits.len()) as nat).at(Context::Slot(9))
        }
    }

    fn pack<W: BitWriter>(&self, writer: &mut W) -> (r: Result<(), Error>) {
        let ghost _own = (
            Self::packable(self.deep_view()),
            Self::encoding(self.deep_view()),
            Self::failure(self.deep_view(), writer.room()),
        );
        let ghost start = writer.written();
        let front =
            (&self.0, &self.1, &self.2, &self.3, &self.4, &self.5, &self.6, &self.7, &self.8);
        proof {
            lemma_borrowed_nine::<A, B, C, D, E, F, G, H, I>(front.deep_view(), writer.room());
        }
        front.pack(writer)?;
        pack_part(&self.9, writer, Context::Slot(9), Ghost(start))?;
        proof {
            let a = <(A, B, C, D, E, F, G, H, I) as BitPack>::encoding(front.deep_view());
            let b = J::encoding(self.9.deep_view());
            assert(start + a + b =~= start + (a + b));
        }
        Ok(())
    }
}

/// A tuple of ten parts: the first nine as a tuple of their own, then the
/// last.
impl<
    A: BitUnpack,
    B: BitUnpack,
    C: BitUnpack,
    D: BitUnpack,
    E: BitUnpack,
    F: BitUnpack,
    G: BitUnpack,
    H: BitUnpack,
    I: BitUnpack,
    J: BitUnpack,
> BitUnpack for (A, B, C, D, E, F, G, H, I, J) {
    open spec fn decode(bits: Seq<bool>) -> Result<
        ((A::V, B::V, C::V, D::V, E::V, F::V, G::V, H::V, I::V, J::V), nat),
        Failure,
    > {
        match <(A, B, C, D, E, F, G, H, I) as BitUnpack>::decode(bits) {
            Err(k) => Err(k),
            Ok((f, n)) => match J::decode(bits.skip(n as int)) {
                Err(k) => Err(k.at(Context::Slot(9))),
                Ok((x, m)) => Ok(((f.0, f.1, f.2, f.3, f.4, f.5, f.6, f.7, f.8, x), n + m)),
            },
        }
    }

    proof fn lemma_decode_within(bits: Seq<bool>) {
        let _own = Self::decode(bits);
        <(A, B, C, D, E, F, G, H, I) as BitUnpack>::lemma_decode_within(bits);
        if let Ok((f, n)) = <(A, B, C, D, E, F, G, H, I) as BitUnpack>::decode(bits) {
            J::lemma_decode_within(bits.skip(n as int));
        }
    }

    fn unpack<R: BitReader>(reader: &mut R) -> (r: Result<Self, Error>) {
        let ghost _own = Self::decode(reader.remaining());
        let ghost all = reader.remaining();
        let (a, b, c, d, e, f, g, h, i) =
            <(A, B, C, D, E, F, G, H, I) as BitUnpack>::unpack(reader)?;
        let ghost n = <(A, B, C, D, E, F, G, H, I) as BitUnpack>::decode(all)->Ok_0.1;
        let j: J = unpack_part(reader, Context::Slot(9), Ghost(all), Ghost(n))?;
        Ok((a, b, c, d, e, f, g, h, i, j))
    }
}

impl<
    A: BitCodec,
    B: BitCodec,
    C: BitCodec,
    D: BitCodec,
    E: BitCodec,
    F: BitCodec,
    G: BitCodec,
    H: BitCodec,
    I: BitCodec,
    J: BitCodec,
> BitCodec for (A, B, C, D, E, F, G, H, I, J) {
    proof fn lemma_round_trip(v: (A::V, B::V, C::V, D::V, E::V, F::V, G::V, H::V, I::V, J::V), rest: Seq<bool>) {
        let _own = (Self::packable(v), Self::encoding(v), Self::decode(rest));
        let front = (v.0, v.1, v.2, v.3, v.4, v.5, v.6, v.7, v.8);
        let a = <(A, B, C, D, E, F, G, H, I) as BitPack>::encoding(front);
        let b = J::encoding(v.9);
        lemma_skip_first(a, b, rest);
        <(A, B, C, D, E, F, G, H, I) as BitCodec>::lemma_round_trip(front, b + rest);
        J::lemma_round_trip(v.9, rest);
    }
}

} // verus!
