//! Strategies for tuples of four to ten parts: one strategy for each part,
//! applied in their order; an error carries the position of the part that
//! failed.

use crate::codec::{BitCodecAs, lemma_skip_first};
use crate::de_as::{BitUnpackAs, unpack_part_as};
use crate::error::{Context, Error, Failure};
use crate::reader::BitReader;
use crate::ser_as::{BitPackAs, pack_part_as};
use crate::writer::{BitWriter, writable};
use vstd::prelude::*;

verus! {

/// The strategies of three borrowed parts write as the strategies of the parts.
pub proof fn lemma_borrowed_as_three<
    A: DeepView,
    B: DeepView,
    C: DeepView,
    AsA: BitPackAs<A>,
    AsB: BitPackAs<B>,
    AsC: BitPackAs<C>,
>(v: (A::V, B::V, C::V), room: nat)
    ensures
        <(&AsA, &AsB, &AsC) as BitPackAs<(&A, &B, &C)>>::packable_as(v)
            == <(AsA, AsB, AsC) as BitPackAs<(A, B, C)>>::packable_as(v),
        <(&AsA, &AsB, &AsC) as BitPackAs<(&A, &B, &C)>>::encoding_as(v)
            == <(AsA, AsB, AsC) as BitPackAs<(A, B, C)>>::encoding_as(v),
        <(&AsA, &AsB, &AsC) as BitPackAs<(&A, &B, &C)>>::failure_as(v, room)
            == <(AsA, AsB, AsC) as BitPackAs<(A, B, C)>>::failure_as(v, room),
{
}

/// Strategies for four parts: those of the first three as a strategy of their
/// own, then that of the last.
impl<
    A: DeepView,
    B: DeepView,
    C: DeepView,
    D: DeepView,
    AsA: BitPackAs<A>,
    AsB: BitPackAs<B>,
    AsC: BitPackAs<C>,
    AsD: BitPackAs<D>,
> BitPackAs<(A, B, C, D)> for (AsA, AsB, AsC, AsD) {
    open spec fn packable_as(v: (A::V, B::V, C::V, D::V)) -> bool {
        <(AsA, AsB, AsC) as BitPackAs<(A, B, C)>>::packable_as(
            (v.0, v.1, v.2),
        ) && AsD::packable_as(v.3)
    }

    open spec fn encoding_as(v: (A::V, B::V, C::V, D::V)) -> Seq<bool> {
        <(AsA, AsB, AsC) as BitPackAs<(A, B, C)>>::encoding_as(
            (v.0, v.1, v.2),
        ) + AsD::encoding_as(v.3)
    }

    open spec fn failure_as(v: (A::V, B::V, C::V, D::V), room: nat) -> Failure {
        let front = (v.0, v.1, v.2);
        let bits =
            <(AsA, AsB, AsC) as BitPackAs<(A, B, C)>>::encoding_as(front);
        if !writable(
            <(AsA, AsB, AsC) as BitPackAs<(A, B, C)>>::packable_as(front),
            bits,
            room,
        ) {
            <(AsA, AsB, AsC) as BitPackAs<(A, B, C)>>::failure_as(front, room)
        } else {
            AsD::failure_as(v.3, (room - bits.len()) as nat).at(Context::Slot(3))
        }
    }

    fn pack_as<W: BitWriter>(source: &(A, B, C, D), writer: &mut W) -> (r: Result<(), Error>) {
        let ghost _own = (
            <Self as BitPackAs<(A, B, C, D)>>::packable_as(source.deep_view()),
            <Self as BitPackAs<(A, B, C, D)>>::encoding_as(source.deep_view()),
            <Self as BitPackAs<(A, B, C, D)>>::failure_as(source.deep_view(), writer.room()),
        );
        let ghost start = writer.written();
        let front = (&source.0, &source.1, &source.2);
        proof {
            lemma_borrowed_as_three::<A, B, C, AsA, AsB, AsC>(front.deep_view(), writer.room());
        }
        <(&AsA, &AsB, &AsC) as BitPackAs<(&A, &B, &C)>>::pack_as(&front, writer)?;
        pack_part_as::<D, AsD, W>(&source.3, writer, Context::Slot(3), Ghost(start))?;
        proof {
            let a = <(AsA, AsB, AsC) as BitPackAs<(A, B, C)>>::encoding_as(front.deep_view());
            let b = AsD::encoding_as(source.3.deep_view());
            assert(start + a + b =~= start + (a + b));
        }
        Ok(())
    }
}

/// Strategies for four parts: those of the first three as a strategy of their
/// own, then that of the last.
impl<
    A: DeepView,
    B: DeepView,
    C: DeepView,
    D: DeepView,
    AsA: BitUnpackAs<A>,
    AsB: BitUnpackAs<B>,
    AsC: BitUnpackAs<C>,
    AsD: BitUnpackAs<D>,
> BitUnpackAs<(A, B, C, D)> for (AsA, AsB, AsC, AsD) {
    open spec fn decode_as(bits: Seq<bool>) -> Result<
        ((A::V, B::V, C::V, D::V), nat),
        Failure,
    > {
        match <(AsA, AsB, AsC) as BitUnpackAs<(A, B, C)>>::decode_as(bits) {
            Err(k) => Err(k),
            Ok((f, n)) => match AsD::decode_as(bits.skip(n as int)) {
                Err(k) => Err(k.at(Context::Slot(3))),
                Ok((x, m)) => Ok(((f.0, f.1, f.2, x), n + m)),
            },
        }
    }

    proof fn lemma_decode_as_within(bits: Seq<bool>) {
        let _own = <Self as BitUnpackAs<(A, B, C, D)>>::decode_as(bits);
        <(AsA, AsB, AsC) as BitUnpackAs<(A, B, C)>>::lemma_decode_as_within(bits);
        if let Ok((f, n)) = <(AsA, AsB, AsC) as BitUnpackAs<(A, B, C)>>::decode_as(bits) {
            AsD::lemma_decode_as_within(bits.skip(n as int));
        }
    }

    fn unpack_as<R: BitReader>(reader: &mut R) -> (r: Result<(A, B, C, D), Error>) {
        let ghost _own = <Self as BitUnpackAs<(A, B, C, D)>>::decode_as(reader.remaining());
        let ghost all = reader.remaining();
        let (a, b, c) = <(AsA, AsB, AsC) as BitUnpackAs<(A, B, C)>>::unpack_as(reader)?;
        let ghost n = <(AsA, AsB, AsC) as BitUnpackAs<(A, B, C)>>::decode_as(all)->Ok_0.1;
        let d = unpack_part_as::<D, AsD, R>(reader, Context::Slot(3), Ghost(all), Ghost(n))?;
        Ok((a, b, c, d))
    }
}

impl<
    A: DeepView,
    B: DeepView,
    C: DeepView,
    D: DeepView,
    AsA: BitCodecAs<A>,
    AsB: BitCodecAs<B>,
    AsC: BitCodecAs<C>,
    AsD: BitCodecAs<D>,
> BitCodecAs<(A, B, C, D)> for (AsA, AsB, AsC, AsD) {
    proof fn lemma_round_trip_as(v: (A::V, B::V, C::V, D::V), rest: Seq<bool>) {
        let _own = (
            <Self as BitPackAs<(A, B, C, D)>>::packable_as(v),
            <Self as BitPackAs<(A, B, C, D)>>::encoding_as(v),
            <Self as BitUnpackAs<(A, B, C, D)>>::decode_as(rest),
        );
        let front = (v.0, v.1, v.2);
        let a = <(AsA, AsB, AsC) as BitPackAs<(A, B, C)>>::encoding_as(front);
        let b = AsD::encoding_as(v.3);
        lemma_skip_first(a, b, rest);
        <(AsA, AsB, AsC) as BitCodecAs<(A, B, C)>>::lemma_round_trip_as(front, b + rest);
        AsD::lemma_round_trip_as(v.3, rest);
    }
}

/// The strategies of four borrowed parts write as the strategies of the parts.
pub proof fn lemma_borrowed_as_four<
    A: DeepView,
    B: DeepView,
    C: DeepView,
    D: DeepView,
    AsA: BitPackAs<A>,
    AsB: BitPackAs<B>,
    AsC: BitPackAs<C>,
    AsD: BitPackAs<D>,
>(v: (A::V, B::V, C::V, D::V), room: nat)
    ensures
        <(&AsA, &AsB, &AsC, &AsD) as BitPackAs<(&A, &B, &C, &D)>>::packable_as(v)
            == <(AsA, AsB, AsC, AsD) as BitPackAs<(A, B, C, D)>>::packable_as(v),
        <(&AsA, &AsB, &AsC, &AsD) as BitPackAs<(&A, &B, &C, &D)>>::encoding_as(v)
            == <(AsA, AsB, AsC, AsD) as BitPackAs<(A, B, C, D)>>::encoding_as(v),
        <(&AsA, &AsB, &AsC, &AsD) as BitPackAs<(&A, &B, &C, &D)>>::failure_as(v, room)
            == <(AsA, AsB, AsC, AsD) as BitPackAs<(A, B, C, D)>>::failure_as(v, room),
{
    lemma_borrowed_as_three::<A, B, C, AsA, AsB, AsC>((v.0, v.1, v.2), room);
}

/// Strategies for five parts: those of the first four as a strategy of their
/// own, then that of the last.
impl<
    A: DeepView,
    B: DeepView,
    C: DeepView,
    D: DeepView,
    E: DeepView,
    AsA: BitPackAs<A>,
    AsB: BitPackAs<B>,
    AsC: BitPackAs<C>,
    AsD: BitPackAs<D>,
    AsE: BitPackAs<E>,
> BitPackAs<(A, B, C, D, E)> for (AsA, AsB, AsC, AsD, AsE) {
    open spec fn packable_as(v: (A::V, B::V, C::V, D::V, E::V)) -> bool {
        <(AsA, AsB, AsC, AsD) as BitPackAs<(A, B, C, D)>>::packable_as(
            (v.0, v.1, v.2, v.3),
        ) && AsE::packable_as(v.4)
    }

    open spec fn encoding_as(v: (A::V, B::V, C::V, D::V, E::V)) -> Seq<bool> {
        <(AsA, AsB, AsC, AsD) as BitPackAs<(A, B, C, D)>>::encoding_as(
            (v.0, v.1, v.2, v.3),
        ) + AsE::encoding_as(v.4)
    }

    open spec fn failure_as(v: (A::V, B::V, C::V, D::V, E::V), room: nat) -> Failure {
        let front = (v.0, v.1, v.2, v.3);
        let bits =
            <(AsA, AsB, AsC, AsD) as BitPackAs<(A, B, C, D)>>::encoding_as(front);
        if !writable(
            <(AsA, AsB, AsC, AsD) as BitPackAs<(A, B, C, D)>>::packable_as(front),
            bits,
            room,
        ) {
            <(AsA, AsB, AsC, AsD) as BitPackAs<(A, B, C, D)>>::failure_as(front, room)
        } else {
            AsE::failure_as(v.4, (room - bits.len()) as nat).at(Context::Slot(4))
        }
    }

    fn pack_as<W: BitWriter>(source: &(A, B, C, D, E), writer: &mut W) -> (r: Result<(), Error>) {
        let ghost _own = (
            <Self as BitPackAs<(A, B, C, D, E)>>::packable_as(source.deep_view()),
            <Self as BitPackAs<(A, B, C, D, E)>>::encoding_as(source.deep_view()),
            <Self as BitPackAs<(A, B, C, D, E)>>::failure_as(source.deep_view(), writer.room()),
        );
        let ghost start = writer.written();
        let front = (&source.0, &source.1, &source.2, &source.3);
        proof {
            lemma_borrowed_as_four::<A, B, C, D, AsA, AsB, AsC, AsD>(
                front.deep_view(),
                writer.room(),
            );
        }
        <(&AsA, &AsB, &AsC, &AsD) as BitPackAs<(&A, &B, &C, &D)>>::pack_as(&front, writer)?;
        pack_part_as::<E, AsE, W>(&source.4, writer, Context::Slot(4), Ghost(start))?;
        proof {
            let a =
                <(AsA, AsB, AsC, AsD) as BitPackAs<(A, B, C, D)>>::encoding_as(front.deep_view());
            let b = AsE::encoding_as(source.4.deep_view());
            assert(start + a + b =~= start + (a + b));
        }
        Ok(())
    }
}

/// Strategies for five parts: those of the first four as a strategy of their
/// own, then that of the last.
impl<
    A: DeepView,
    B: DeepView,
    C: DeepView,
    D: DeepView,
    E: DeepView,
    AsA: BitUnpackAs<A>,
    AsB: BitUnpackAs<B>,
    AsC: BitUnpackAs<C>,
    AsD: BitUnpackAs<D>,
    AsE: BitUnpackAs<E>,
> BitUnpackAs<(A, B, C, D, E)> for (AsA, AsB, AsC, AsD, AsE) {
    open spec fn decode_as(bits: Seq<bool>) -> Result<
        ((A::V, B::V, C::V, D::V, E::V), nat),
        Failure,
    > {
        match <(AsA, AsB, AsC, AsD) as BitUnpackAs<(A, B, C, D)>>::decode_as(bits) {
            Err(k) => Err(k),
            Ok((f, n)) => match AsE::decode_as(bits.skip(n as int)) {
                Err(k) => Err(k.at(Context::Slot(4))),
                Ok((x, m)) => Ok(((f.0, f.1, f.2, f.3, x), n + m)),
            },
        }
    }

    proof fn lemma_decode_as_within(bits: Seq<bool>) {
        let _own = <Self as BitUnpackAs<(A, B, C, D, E)>>::decode_as(bits);
        <(AsA, AsB, AsC, AsD) as BitUnpackAs<(A, B, C, D)>>::lemma_decode_as_within(bits);
        if let Ok((f, n)) = <(AsA, AsB, AsC, AsD) as BitUnpackAs<(A, B, C, D)>>::decode_as(bits) {
            AsE::lemma_decode_as_within(bits.skip(n as int));
        }
    }

    fn unpack_as<R: BitReader>(reader: &mut R) -> (r: Result<(A, B, C, D, E), Error>) {
        let ghost _own = <Self as BitUnpackAs<(A, B, C, D, E)>>::decode_as(reader.remaining());
        let ghost all = reader.remaining();
        let (a, b, c, d) = <(AsA, AsB, AsC, AsD) as BitUnpackAs<(A, B, C, D)>>::unpack_as(reader)?;
        let ghost n = <(AsA, AsB, AsC, AsD) as BitUnpackAs<(A, B, C, D)>>::decode_as(all)->Ok_0.1;
        let e = unpack_part_as::<E, AsE, R>(reader, Context::Slot(4), Ghost(all), Ghost(n))?;
        Ok((a, b, c, d, e))
    }
}

impl<
    A: DeepView,
    B: DeepView,
    C: DeepView,
    D: DeepView,
    E: DeepView,
    AsA: BitCodecAs<A>,
    AsB: BitCodecAs<B>,
    AsC: BitCodecAs<C>,
    AsD: BitCodecAs<D>,
    AsE: BitCodecAs<E>,
> BitCodecAs<(A, B, C, D, E)> for (AsA, AsB, AsC, AsD, AsE) {
    proof fn lemma_round_trip_as(v: (A::V, B::V, C::V, D::V, E::V), rest: Seq<bool>) {
        let _own = (
            <Self as BitPackAs<(A, B, C, D, E)>>::packable_as(v),
            <Self as BitPackAs<(A, B, C, D, E)>>::encoding_as(v),
            <Self as BitUnpackAs<(A, B, C, D, E)>>::decode_as(rest),
        );
        let front = (v.0, v.1, v.2, v.3);
        let a = <(AsA, AsB, AsC, AsD) as BitPackAs<(A, B, C, D)>>::encoding_as(front);
        let b = AsE::encoding_as(v.4);
        lemma_skip_first(a, b, rest);
        <(AsA, AsB, AsC, AsD) as BitCodecAs<(A, B, C, D)>>::lemma_round_trip_as(front, b + rest);
        AsE::lemma_round_trip_as(v.4, rest);
    }
}

/// The strategies of five borrowed parts write as the strategies of the parts.
pub proof fn lemma_borrowed_as_five<
    A: DeepView,
    B: DeepView,
    C: DeepView,
    D: DeepView,
    E: DeepView,
    AsA: BitPackAs<A>,
    AsB: BitPackAs<B>,
    AsC: BitPackAs<C>,
    AsD: BitPackAs<D>,
    AsE: BitPackAs<E>,
>(v: (A::V, B::V, C::V, D::V, E::V), room: nat)
    ensures
        <(&AsA, &AsB, &AsC, &AsD, &AsE) as BitPackAs<(&A, &B, &C, &D, &E)>>::packable_as(v)
            == <(AsA, AsB, AsC, AsD, AsE) as BitPackAs<(A, B, C, D, E)>>::packable_as(v),
        <(&AsA, &AsB, &AsC, &AsD, &AsE) as BitPackAs<(&A, &B, &C, &D, &E)>>::encoding_as(v)
            == <(AsA, AsB, AsC, AsD, AsE) as BitPackAs<(A, B, C, D, E)>>::encoding_as(v),
        <(&AsA, &AsB, &AsC, &AsD, &AsE) as BitPackAs<(&A, &B, &C, &D, &E)>>::failure_as(v, room)
            == <(AsA, AsB, AsC, AsD, AsE) as BitPackAs<(A, B, C, D, E)>>::failure_as(v, room),
{
    lemma_borrowed_as_four::<A, B, C, D, AsA, AsB, AsC, AsD>((v.0, v.1, v.2, v.3), room);
}

/// Strategies for six parts: those of the first five as a strategy of their
/// own, then that of the last.
impl<
    A: DeepView,
    B: DeepView,
    C: DeepView,
    D: DeepView,
    E: DeepView,
    F: DeepView,
    AsA: BitPackAs<A>,
    AsB: BitPackAs<B>,
    AsC: BitPackAs<C>,
    AsD: BitPackAs<D>,
    AsE: BitPackAs<E>,
    AsF: BitPackAs<F>,
> BitPackAs<(A, B, C, D, E, F)> for (AsA, AsB, AsC, AsD, AsE, AsF) {
    open spec fn packable_as(v: (A::V, B::V, C::V, D::V, E::V, F::V)) -> bool {
        <(AsA, AsB, AsC, AsD, AsE) as BitPackAs<(A, B, C, D, E)>>::packable_as(
            (v.0, v.1, v.2, v.3, v.4),
        ) && AsF::packable_as(v.5)
    }

    open spec fn encoding_as(v: (A::V, B::V, C::V, D::V, E::V, F::V)) -> Seq<bool> {
        <(AsA, AsB, AsC, AsD, AsE) as BitPackAs<(A, B, C, D, E)>>::encoding_as(
            (v.0, v.1, v.2, v.3, v.4),
        ) + AsF::encoding_as(v.5)
    }

    open spec fn failure_as(v: (A::V, B::V, C::V, D::V, E::V, F::V), room: nat) -> Failure {
        let front = (v.0, v.1, v.2, v.3, v.4);
        let bits =
            <(AsA, AsB, AsC, AsD, AsE) as BitPackAs<(A, B, C, D, E)>>::encoding_as(front);
        if !writable(
            <(AsA, AsB, AsC, AsD, AsE) as BitPackAs<(A, B, C, D, E)>>::packable_as(front),
            bits,
            room,
        ) {
            <(AsA, AsB, AsC, AsD, AsE) as BitPackAs<(A, B, C, D, E)>>::failure_as(front, room)
        } else {
            AsF::failure_as(v.5, (room - bits.len()) as nat).at(Context::Slot(5))
        }
    }

    fn pack_as<W: BitWriter>(source: &(A, B, C, D, E, F), writer: &mut W) -> (r: Result<(), Error>) {
        let ghost _own = (
            <Self as BitPackAs<(A, B, C, D, E, F)>>::packable_as(source.deep_view()),
            <Self as BitPackAs<(A, B, C, D, E, F)>>::encoding_as(source.deep_view()),
            <Self as BitPackAs<(A, B, C, D, E, F)>>::failure_as(source.deep_view(), writer.room()),
        );
        let ghost start = writer.written();
        let front = (&source.0, &source.1, &source.2, &source.3, &source.4);
        proof {
            lemma_borrowed_as_five::<A, B, C, D, E, AsA, AsB, AsC, AsD, AsE>(
                front.deep_view(),
                writer.room(),
            );
        }
        <(&AsA, &AsB, &AsC, &AsD, &AsE) as BitPackAs<(&A, &B, &C, &D, &E)>>::pack_as(&front, writer)?;
        pack_part_as::<F, AsF, W>(&source.5, writer, Context::Slot(5), Ghost(start))?;
        proof {
            let a =
                <(AsA, AsB, AsC, AsD, AsE) as BitPackAs<(A, B, C, D, E)>>::encoding_as(front.deep_view());
            let b = AsF::encoding_as(source.5.deep_view());
            assert(start + a + b =~= start + (a + b));
        }
        Ok(())
    }
}

/// Strategies for six parts: those of the first five as a strategy of their
/// own, then that of the last.
impl<
    A: DeepView,
    B: DeepView,
    C: DeepView,
    D: DeepView,
    E: DeepView,
    F: DeepView,
    AsA: BitUnpackAs<A>,
    AsB: BitUnpackAs<B>,
    AsC: BitUnpackAs<C>,
    AsD: BitUnpackAs<D>,
    AsE: BitUnpackAs<E>,
    AsF: BitUnpackAs<F>,
> BitUnpackAs<(A, B, C, D, E, F)> for (AsA, AsB, AsC, AsD, AsE, AsF) {
    open spec fn decode_as(bits: Seq<bool>) -> Result<
        ((A::V, B::V, C::V, D::V, E::V, F::V), nat),
        Failure,
    > {
        match <(AsA, AsB, AsC, AsD, AsE) as BitUnpackAs<(A, B, C, D, E)>>::decode_as(bits) {
            Err(k) => Err(k),
            Ok((f, n)) => match AsF::decode_as(bits.skip(n as int)) {
                Err(k) => Err(k.at(Context::Slot(5))),
                Ok((x, m)) => Ok(((f.0, f.1, f.2, f.3, f.4, x), n + m)),
            },
        }
    }

    proof fn lemma_decode_as_within(bits: Seq<bool>) {
        let _own = <Self as BitUnpackAs<(A, B, C, D, E, F)>>::decode_as(bits);
        <(AsA, AsB, AsC, AsD, AsE) as BitUnpackAs<(A, B, C, D, E)>>::lemma_decode_as_within(bits);
        if let Ok((f, n)) = <(AsA, AsB, AsC, AsD, AsE) as BitUnpackAs<(A, B, C, D, E)>>::decode_as(bits) {
            AsF::lemma_decode_as_within(bits.skip(n as int));
        }
    }

    fn unpack_as<R: BitReader>(reader: &mut R) -> (r: Result<(A, B, C, D, E, F), Error>) {
        let ghost _own = <Self as BitUnpackAs<(A, B, C, D, E, F)>>::decode_as(reader.remaining());
        let ghost all = reader.remaining();
        let (a, b, c, d, e) =
            <(AsA, AsB, AsC, AsD, AsE) as BitUnpackAs<(A, B, C, D, E)>>::unpack_as(reader)?;
        let ghost n =
            <(AsA, AsB, AsC, AsD, AsE) as BitUnpackAs<(A, B, C, D, E)>>::decode_as(all)->Ok_0.1;
        let f = unpack_part_as::<F, AsF, R>(reader, Context::Slot(5), Ghost(all), Ghost(n))?;
        Ok((a, b, c, d, e, f))
    }
}

impl<
    A: DeepView,
    B: DeepView,
    C: DeepView,
    D: DeepView,
    E: DeepView,
    F: DeepView,
    AsA: BitCodecAs<A>,
    AsB: BitCodecAs<B>,
    AsC: BitCodecAs<C>,
    AsD: BitCodecAs<D>,
    AsE: BitCodecAs<E>,
    AsF: BitCodecAs<F>,
> BitCodecAs<(A, B, C, D, E, F)> for (AsA, AsB, AsC, AsD, AsE, AsF) {
    proof fn lemma_round_trip_as(v: (A::V, B::V, C::V, D::V, E::V, F::V), rest: Seq<bool>) {
        let _own = (
            <Self as BitPackAs<(A, B, C, D, E, F)>>::packable_as(v),
            <Self as BitPackAs<(A, B, C, D, E, F)>>::encoding_as(v),
            <Self as BitUnpackAs<(A, B, C, D, E, F)>>::decode_as(rest),
        );
        let front = (v.0, v.1, v.2, v.3, v.4);
        let a = <(AsA, AsB, AsC, AsD, AsE) as BitPackAs<(A, B, C, D, E)>>::encoding_as(front);
        let b = AsF::encoding_as(v.5);
        lemma_skip_first(a, b, rest);
        <(AsA, AsB, AsC, AsD, AsE) as BitCodecAs<(A, B, C, D, E)>>::lemma_round_trip_as(front, b + rest);
        AsF::lemma_round_trip_as(v.5, rest);
    }
}

/// The strategies of six borrowed parts write as the strategies of the parts.
pub proof fn lemma_borrowed_as_six<
    A: DeepView,
    B: DeepView,
    C: DeepView,
    D: DeepView,
    E: DeepView,
    F: DeepView,
    AsA: BitPackAs<A>,
    AsB: BitPackAs<B>,
    AsC: BitPackAs<C>,
    AsD: BitPackAs<D>,
    AsE: BitPackAs<E>,
    AsF: BitPackAs<F>,
>(v: (A::V, B::V, C::V, D::V, E::V, F::V), room: nat)
    ensures
        <(&AsA, &AsB, &AsC, &AsD, &AsE, &AsF) as BitPackAs<(&A, &B, &C, &D, &E, &F)>>::packable_as(v)
            == <(AsA, AsB, AsC, AsD, AsE, AsF) as BitPackAs<(A, B, C, D, E, F)>>::packable_as(v),
        <(&AsA, &AsB, &AsC, &AsD, &AsE, &AsF) as BitPackAs<(&A, &B, &C, &D, &E, &F)>>::encoding_as(v)
            == <(AsA, AsB, AsC, AsD, AsE, AsF) as BitPackAs<(A, B, C, D, E, F)>>::encoding_as(v),
        <(&AsA, &AsB, &AsC, &AsD, &AsE, &AsF) as BitPackAs<(&A, &B, &C, &D, &E, &F)>>::failure_as(v, room)
            == <(AsA, AsB, AsC, AsD, AsE, AsF) as BitPackAs<(A, B, C, D, E, F)>>::failure_as(v, room),
{
    lemma_borrowed_as_five::<A, B, C, D, E, AsA, AsB, AsC, AsD, AsE>(
        (v.0, v.1, v.2, v.3, v.4),
        room,
    );
}

/// Strategies for seven parts: those of the first six as a strategy of their
/// own, then that of the last.
impl<
    A: DeepView,
    B: DeepView,
    C: DeepView,
    D: DeepView,
    E: DeepView,
    F: DeepView,
    G: DeepView,
    AsA: BitPackAs<A>,
    AsB: BitPackAs<B>,
    AsC: BitPackAs<C>,
    AsD: BitPackAs<D>,
    AsE: BitPackAs<E>,
    AsF: BitPackAs<F>,
    AsG: BitPackAs<G>,
> BitPackAs<(A, B, C, D, E, F, G)> for (AsA, AsB, AsC, AsD, AsE, AsF, AsG) {
    open spec fn packable_as(v: (A::V, B::V, C::V, D::V, E::V, F::V, G::V)) -> bool {
        <(AsA, AsB, AsC, AsD, AsE, AsF) as BitPackAs<(A, B, C, D, E, F)>>::packable_as(
            (v.0, v.1, v.2, v.3, v.4, v.5),
        ) && AsG::packable_as(v.6)
    }

    open spec fn encoding_as(v: (A::V, B::V, C::V, D::V, E::V, F::V, G::V)) -> Seq<bool> {
        <(AsA, AsB, AsC, AsD, AsE, AsF) as BitPackAs<(A, B, C, D, E, F)>>::encoding_as(
            (v.0, v.1, v.2, v.3, v.4, v.5),
        ) + AsG::encoding_as(v.6)
    }

    open spec fn failure_as(v: (A::V, B::V, C::V, D::V, E::V, F::V, G::V), room: nat) -> Failure {
        let front = (v.0, v.1, v.2, v.3, v.4, v.5);
        let bits =
            <(AsA, AsB, AsC, AsD, AsE, AsF) as BitPackAs<(A, B, C, D, E, F)>>::encoding_as(front);
        if !writable(
            <(AsA, AsB, AsC, AsD, AsE, AsF) as BitPackAs<(A, B, C, D, E, F)>>::packable_as(front),
            bits,
            room,
        ) {
            <(AsA, AsB, AsC, AsD, AsE, AsF) as BitPackAs<(A, B, C, D, E, F)>>::failure_as(front, room)
        } else {
            AsG::failure_as(v.6, (room - bits.len()) as nat).at(Context::Slot(6))
        }
    }

    fn pack_as<W: BitWriter>(source: &(A, B, C, D, E, F, G), writer: &mut W) -> (r: Result<(), Error>) {
        let ghost _own = (
            <Self as BitPackAs<(A, B, C, D, E, F, G)>>::packable_as(source.deep_view()),
            <Self as BitPackAs<(A, B, C, D, E, F, G)>>::encoding_as(source.deep_view()),
            <Self as BitPackAs<(A, B, C, D, E, F, G)>>::failure_as(source.deep_view(), writer.room()),
        );
        let ghost start = writer.written();
        let front = (&source.0, &source.1, &source.2, &source.3, &source.4, &source.5);
        proof {
            lemma_borrowed_as_six::<A, B, C, D, E, F, AsA, AsB, AsC, AsD, AsE, AsF>(
                front.deep_view(),
                writer.room(),
            );
        }
        <(&AsA, &AsB, &AsC, &AsD, &AsE, &AsF) as BitPackAs<(&A, &B, &C, &D, &E, &F)>>::pack_as(&front, writer)?;
        pack_part_as::<G, AsG, W>(&source.6, writer, Context::Slot(6), Ghost(start))?;
        proof {
            let a =
                <(AsA, AsB, AsC, AsD, AsE, AsF) as BitPackAs<(A, B, C, D, E, F)>>::encoding_as(front.deep_view());
            let b = AsG::encoding_as(source.6.deep_view());
            assert(start + a + b =~= start + (a + b));
        }
        Ok(())
    }
}

/// Strategies for seven parts: those of the first six as a strategy of their
/// own, then that of the last.
impl<
    A: DeepView,
    B: DeepView,
    C: DeepView,
    D: DeepView,
    E: DeepView,
    F: DeepView,
    G: DeepView,
    AsA: BitUnpackAs<A>,
    AsB: BitUnpackAs<B>,
    AsC: BitUnpackAs<C>,
    AsD: BitUnpackAs<D>,
    AsE: BitUnpackAs<E>,
    AsF: BitUnpackAs<F>,
    AsG: BitUnpackAs<G>,
> BitUnpackAs<(A, B, C, D, E, F, G)> for (AsA, AsB, AsC, AsD, AsE, AsF, AsG) {
    open spec fn decode_as(bits: Seq<bool>) -> Result<
        ((A::V, B::V, C::V, D::V, E::V, F::V, G::V), nat),
        Failure,
    > {
        match <(AsA, AsB, AsC, AsD, AsE, AsF) as BitUnpackAs<(A, B, C, D, E, F)>>::decode_as(bits) {
            Err(k) => Err(k),
            Ok((f, n)) => match AsG::decode_as(bits.skip(n as int)) {
                Err(k) => Err(k.at(Context::Slot(6))),
                Ok((x, m)) => Ok(((f.0, f.1, f.2, f.3, f.4, f.5, x), n + m)),
            },
        }
    }

    proof fn lemma_decode_as_within(bits: Seq<bool>) {
        let _own = <Self as BitUnpackAs<(A, B, C, D, E, F, G)>>::decode_as(bits);
        <(AsA, AsB, AsC, AsD, AsE, AsF) as BitUnpackAs<(A, B, C, D, E, F)>>::lemma_decode_as_within(bits);
        if let Ok((f, n)) = <(AsA, AsB, AsC, AsD, AsE, AsF) as BitUnpackAs<(A, B, C, D, E, F)>>::decode_as(bits) {
            AsG::lemma_decode_as_within(bits.skip(n as int));
        }
    }

    fn unpack_as<R: BitReader>(reader: &mut R) -> (r: Result<(A, B, C, D, E, F, G), Error>) {
        let ghost _own =
            <Self as BitUnpackAs<(A, B, C, D, E, F, G)>>::decode_as(reader.remaining());
        let ghost all = reader.remaining();
        let (a, b, c, d, e, f) =
            <(AsA, AsB, AsC, AsD, AsE, AsF) as BitUnpackAs<(A, B, C, D, E, F)>>::unpack_as(reader)?;
        let ghost n =
            <(AsA, AsB, AsC, AsD, AsE, AsF) as BitUnpackAs<(A, B, C, D, E, F)>>::decode_as(all)->Ok_0.1;
        let g = unpack_part_as::<G, AsG, R>(reader, Context::Slot(6), Ghost(all), Ghost(n))?;
        Ok((a, b, c, d, e, f, g))
    }
}

impl<
    A: DeepView,
    B: DeepView,
    C: DeepView,
    D: DeepView,
    E: DeepView,
    F: DeepView,
    G: DeepView,
    AsA: BitCodecAs<A>,
    AsB: BitCodecAs<B>,
    AsC: BitCodecAs<C>,
    AsD: BitCodecAs<D>,
    AsE: BitCodecAs<E>,
    AsF: BitCodecAs<F>,
    AsG: BitCodecAs<G>,
> BitCodecAs<(A, B, C, D, E, F, G)> for (AsA, AsB, AsC, AsD, AsE, AsF, AsG) {
    proof fn lemma_round_trip_as(v: (A::V, B::V, C::V, D::V, E::V, F::V, G::V), rest: Seq<bool>) {
        let _own = (
            <Self as BitPackAs<(A, B, C, D, E, F, G)>>::packable_as(v),
            <Self as BitPackAs<(A, B, C, D, E, F, G)>>::encoding_as(v),
            <Self as BitUnpackAs<(A, B, C, D, E, F, G)>>::decode_as(rest),
        );
        let front = (v.0, v.1, v.2, v.3, v.4, v.5);
        let a =
            <(AsA, AsB, AsC, AsD, AsE, AsF) as BitPackAs<(A, B, C, D, E, F)>>::encoding_as(front);
        let b = AsG::encoding_as(v.6);
        lemma_skip_first(a, b, rest);
        <(AsA, AsB, AsC, AsD, AsE, AsF) as BitCodecAs<(A, B, C, D, E, F)>>::lemma_round_trip_as(front, b + rest);
        AsG::lemma_round_trip_as(v.6, rest);
    }
}

/// The strategies of seven borrowed parts write as the strategies of the parts.
pub proof fn lemma_borrowed_as_seven<
    A: DeepView,
    B: DeepView,
    C: DeepView,
    D: DeepView,
    E: DeepView,
    F: DeepView,
    G: DeepView,
    AsA: BitPackAs<A>,
    AsB: BitPackAs<B>,
    AsC: BitPackAs<C>,
    AsD: BitPackAs<D>,
    AsE: BitPackAs<E>,
    AsF: BitPackAs<F>,
    AsG: BitPackAs<G>,
>(v: (A::V, B::V, C::V, D::V, E::V, F::V, G::V), room: nat)
    ensures
        <(&AsA, &AsB, &AsC, &AsD, &AsE, &AsF, &AsG) as BitPackAs<(&A, &B, &C, &D, &E, &F, &G)>>::packable_as(v)
            == <(AsA, AsB, AsC, AsD, AsE, AsF, AsG) as BitPackAs<(A, B, C, D, E, F, G)>>::packable_as(v),
        <(&AsA, &AsB, &AsC, &AsD, &AsE, &AsF, &AsG) as BitPackAs<(&A, &B, &C, &D, &E, &F, &G)>>::encoding_as(v)
            == <(AsA, AsB, AsC, AsD, AsE, AsF, AsG) as BitPackAs<(A, B, C, D, E, F, G)>>::encoding_as(v),
        <(&AsA, &AsB, &AsC, &AsD, &AsE, &AsF, &AsG) as BitPackAs<(&A, &B, &C, &D, &E, &F, &G)>>::failure_as(v, room)
            == <(AsA, AsB, AsC, AsD, AsE, AsF, AsG) as BitPackAs<(A, B, C, D, E, F, G)>>::failure_as(v, room),
{
    lemma_borrowed_as_six::<A, B, C, D, E, F, AsA, AsB, AsC, AsD, AsE, AsF>(
        (v.0, v.1, v.2, v.3, v.4, v.5),
        room,
    );
}

/// Strategies for eight parts: those of the first seven as a strategy of their
/// own, then that of the last.
impl<
    A: DeepView,
    B: DeepView,
    C: DeepView,
    D: DeepView,
    E: DeepView,
    F: DeepView,
    G: DeepView,
    H: DeepView,
    AsA: BitPackAs<A>,
    AsB: BitPackAs<B>,
    AsC: BitPackAs<C>,
    AsD: BitPackAs<D>,
    AsE: BitPackAs<E>,
    AsF: BitPackAs<F>,
    AsG: BitPackAs<G>,
    AsH: BitPackAs<H>,
> BitPackAs<(A, B, C, D, E, F, G, H)> for (AsA, AsB, AsC, AsD, AsE, AsF, AsG, AsH) {
    open spec fn packable_as(v: (A::V, B::V, C::V, D::V, E::V, F::V, G::V, H::V)) -> bool {
        <(AsA, AsB, AsC, AsD, AsE, AsF, AsG) as BitPackAs<(A, B, C, D, E, F, G)>>::packable_as(
            (v.0, v.1, v.2, v.3, v.4, v.5, v.6),
        ) && AsH::packable_as(v.7)
    }

    open spec fn encoding_as(v: (A::V, B::V, C::V, D::V, E::V, F::V, G::V, H::V)) -> Seq<bool> {
        <(AsA, AsB, AsC, AsD, AsE, AsF, AsG) as BitPackAs<(A, B, C, D, E, F, G)>>::encoding_as(
            (v.0, v.1, v.2, v.3, v.4, v.5, v.6),
        ) + AsH::encoding_as(v.7)
    }

    open spec fn failure_as(v: (A::V, B::V, C::V, D::V, E::V, F::V, G::V, H::V), room: nat) -> Failure {
        let front = (v.0, v.1, v.2, v.3, v.4, v.5, v.6);
        let bits =
            <(AsA, AsB, AsC, AsD, AsE, AsF, AsG) as BitPackAs<(A, B, C, D, E, F, G)>>::encoding_as(front);
        if !writable(
            <(AsA, AsB, AsC, AsD, AsE, AsF, AsG) as BitPackAs<(A, B, C, D, E, F, G)>>::packable_as(front),
            bits,
            room,
        ) {
            <(AsA, AsB, AsC, AsD, AsE, AsF, AsG) as BitPackAs<(A, B, C, D, E, F, G)>>::failure_as(front, room)
        } else {
            AsH::failure_as(v.7, (room - bits.len()) as nat).at(Context::Slot(7))
        }
    }

    fn pack_as<W: BitWriter>(source: &(A, B, C, D, E, F, G, H), writer: &mut W) -> (r: Result<(), Error>) {
        let ghost _own = (
            <Self as BitPackAs<(A, B, C, D, E, F, G, H)>>::packable_as(source.deep_view()),
            <Self as BitPackAs<(A, B, C, D, E, F, G, H)>>::encoding_as(source.deep_view()),
            <Self as BitPackAs<(A, B, C, D, E, F, G, H)>>::failure_as(source.deep_view(), writer.room()),
        );
        let ghost start = writer.written();
        let front = (&source.0, &source.1, &source.2, &source.3, &source.4, &source.5, &source.6);
        proof {
            lemma_borrowed_as_seven::<A, B, C, D, E, F, G, AsA, AsB, AsC, AsD, AsE, AsF, AsG>(
                front.deep_view(),
                writer.room(),
            );
        }
        <(&AsA, &AsB, &AsC, &AsD, &AsE, &AsF, &AsG) as BitPackAs<(&A, &B, &C, &D, &E, &F, &G)>>::pack_as(&front, writer)?;
        pack_part_as::<H, AsH, W>(&source.7, writer, Context::Slot(7), Ghost(start))?;
        proof {
            let a =
                <(AsA, AsB, AsC, AsD, AsE, AsF, AsG) as BitPackAs<(A, B, C, D, E, F, G)>>::encoding_as(front.deep_view());
            let b = AsH::encoding_as(source.7.deep_view());
            assert(start + a + b =~= start + (a + b));
        }
        Ok(())
    }
}

/// Strategies for eight parts: those of the first seven as a strategy of their
/// own, then that of the last.
impl<
    A: DeepView,
    B: DeepView,
    C: DeepView,
    D: DeepView,
    E: DeepView,
    F: DeepView,
    G: DeepView,
    H: DeepView,
    AsA: BitUnpackAs<A>,
    AsB: BitUnpackAs<B>,
    AsC: BitUnpackAs<C>,
    AsD: BitUnpackAs<D>,
    AsE: BitUnpackAs<E>,
    AsF: BitUnpackAs<F>,
    AsG: BitUnpackAs<G>,
    AsH: BitUnpackAs<H>,
> BitUnpackAs<(A, B, C, D, E, F, G, H)> for (AsA, AsB, AsC, AsD, AsE, AsF, AsG, AsH) {
    open spec fn decode_as(bits: Seq<bool>) -> Result<
        ((A::V, B::V, C::V, D::V, E::V, F::V, G::V, H::V), nat),
        Failure,
    > {
        match <(AsA, AsB, AsC, AsD, AsE, AsF, AsG) as BitUnpackAs<(A, B, C, D, E, F, G)>>::decode_as(bits) {
            Err(k) => Err(k),
            Ok((f, n)) => match AsH::decode_as(bits.skip(n as int)) {
                Err(k) => Err(k.at(Context::Slot(7))),
                Ok((x, m)) => Ok(((f.0, f.1, f.2, f.3, f.4, f.5, f.6, x), n + m)),
            },
        }
    }

    proof fn lemma_decode_as_within(bits: Seq<bool>) {
        let _own = <Self as BitUnpackAs<(A, B, C, D, E, F, G, H)>>::decode_as(bits);
        <(AsA, AsB, AsC, AsD, AsE, AsF, AsG) as BitUnpackAs<(A, B, C, D, E, F, G)>>::lemma_decode_as_within(bits);
        if let Ok((f, n)) = <(AsA, AsB, AsC, AsD, AsE, AsF, AsG) as BitUnpackAs<(A, B, C, D, E, F, G)>>::decode_as(bits) {
            AsH::lemma_decode_as_within(bits.skip(n as int));
        }
    }

    fn unpack_as<R: BitReader>(reader: &mut R) -> (r: Result<(A, B, C, D, E, F, G, H), Error>) {
        let ghost _own =
            <Self as BitUnpackAs<(A, B, C, D, E, F, G, H)>>::decode_as(reader.remaining());
        let ghost all = reader.remaining();
        let (a, b, c, d, e, f, g) =
            <(AsA, AsB, AsC, AsD, AsE, AsF, AsG) as BitUnpackAs<(A, B, C, D, E, F, G)>>::unpack_as(reader)?;
        let ghost n =
            <(AsA, AsB, AsC, AsD, AsE, AsF, AsG) as BitUnpackAs<(A, B, C, D, E, F, G)>>::decode_as(all)->Ok_0.1;
        let h = unpack_part_as::<H, AsH, R>(reader, Context::Slot(7), Ghost(all), Ghost(n))?;
        Ok((a, b, c, d, e, f, g, h))
    }
}

impl<
    A: DeepView,
    B: DeepView,
    C: DeepView,
    D: DeepView,
    E: DeepView,
    F: DeepView,
    G: DeepView,
    H: DeepView,
    AsA: BitCodecAs<A>,
    AsB: BitCodecAs<B>,
    AsC: BitCodecAs<C>,
    AsD: BitCodecAs<D>,
    AsE: BitCodecAs<E>,
    AsF: BitCodecAs<F>,
    AsG: BitCodecAs<G>,
    AsH: BitCodecAs<H>,
> BitCodecAs<(A, B, C, D, E, F, G, H)> for (AsA, AsB, AsC, AsD, AsE, AsF, AsG, AsH) {
    proof fn lemma_round_trip_as(v: (A::V, B::V, C::V, D::V, E::V, F::V, G::V, H::V), rest: Seq<bool>) {
        let _own = (
            <Self as BitPackAs<(A, B, C, D, E, F, G, H)>>::packable_as(v),
            <Self as BitPackAs<(A, B, C, D, E, F, G, H)>>::encoding_as(v),
            <Self as BitUnpackAs<(A, B, C, D, E, F, G, H)>>::decode_as(rest),
        );
        let front = (v.0, v.1, v.2, v.3, v.4, v.5, v.6);
        let a =
            <(AsA, AsB, AsC, AsD, AsE, AsF, AsG) as BitPackAs<(A, B, C, D, E, F, G)>>::encoding_as(front);
        let b = AsH::encoding_as(v.7);
        lemma_skip_first(a, b, rest);
        <(AsA, AsB, AsC, AsD, AsE, AsF, AsG) as BitCodecAs<(A, B, C, D, E, F, G)>>::lemma_round_trip_as(front, b + rest);
        AsH::lemma_round_trip_as(v.7, rest);
    }
}

/// The strategies of eight borrowed parts write as the strategies of the parts.
pub proof fn lemma_borrowed_as_eight<
    A: DeepView,
    B: DeepView,
    C: DeepView,
    D: DeepView,
    E: DeepView,
    F: DeepView,
    G: DeepView,
    H: DeepView,
    AsA: BitPackAs<A>,
    AsB: BitPackAs<B>,
    AsC: BitPackAs<C>,
    AsD: BitPackAs<D>,
    AsE: BitPackAs<E>,
    AsF: BitPackAs<F>,
    AsG: BitPackAs<G>,
    AsH: BitPackAs<H>,
>(v: (A::V, B::V, C::V, D::V, E::V, F::V, G::V, H::V), room: nat)
    ensures
        <(&AsA, &AsB, &AsC, &AsD, &AsE, &AsF, &AsG, &AsH) as BitPackAs<(&A, &B, &C, &D, &E, &F, &G, &H)>>::packable_as(v)
            == <(AsA, AsB, AsC, AsD, AsE, AsF, AsG, AsH) as BitPackAs<(A, B, C, D, E, F, G, H)>>::packable_as(v),
        <(&AsA, &AsB, &AsC, &AsD, &AsE, &AsF, &AsG, &AsH) as BitPackAs<(&A, &B, &C, &D, &E, &F, &G, &H)>>::encoding_as(v)
            == <(AsA, AsB, AsC, AsD, AsE, AsF, AsG, AsH) as BitPackAs<(A, B, C, D, E, F, G, H)>>::encoding_as(v),
        <(&AsA, &AsB, &AsC, &AsD, &AsE, &AsF, &AsG, &AsH) as BitPackAs<(&A, &B, &C, &D, &E, &F, &G, &H)>>::failure_as(v, room)
            == <(AsA, AsB, AsC, AsD, AsE, AsF, AsG, AsH) as BitPackAs<(A, B, C, D, E, F, G, H)>>::failure_as(v, room),
{
    lemma_borrowed_as_seven::<A, B, C, D, E, F, G, AsA, AsB, AsC, AsD, AsE, AsF, AsG>(
        (v.0, v.1, v.2, v.3, v.4, v.5, v.6),
        room,
    );
}

/// Strategies for nine parts: those of the first eight as a strategy of their
/// own, then that of the last.
impl<
    A: DeepView,
    B: DeepView,
    C: DeepView,
    D: DeepView,
    E: DeepView,
    F: DeepView,
    G: DeepView,
    H: DeepView,
    I: DeepView,
    AsA: BitPackAs<A>,
    AsB: BitPackAs<B>,
    AsC: BitPackAs<C>,
    AsD: BitPackAs<D>,
    AsE: BitPackAs<E>,
    AsF: BitPackAs<F>,
    AsG: BitPackAs<G>,
    AsH: BitPackAs<H>,
    AsI: BitPackAs<I>,
> BitPackAs<(A, B, C, D, E, F, G, H, I)> for (AsA, AsB, AsC, AsD, AsE, AsF, AsG, AsH, AsI) {
    open spec fn packable_as(v: (A::V, B::V, C::V, D::V, E::V, F::V, G::V, H::V, I::V)) -> bool {
        <(AsA, AsB, AsC, AsD, AsE, AsF, AsG, AsH) as BitPackAs<(A, B, C, D, E, F, G, H)>>::packable_as(
            (v.0, v.1, v.2, v.3, v.4, v.5, v.6, v.7),
        ) && AsI::packable_as(v.8)
    }

    open spec fn encoding_as(v: (A::V, B::V, C::V, D::V, E::V, F::V, G::V, H::V, I::V)) -> Seq<bool> {
        <(AsA, AsB, AsC, AsD, AsE, AsF, AsG, AsH) as BitPackAs<(A, B, C, D, E, F, G, H)>>::encoding_as(
            (v.0, v.1, v.2, v.3, v.4, v.5, v.6, v.7),
        ) + AsI::encoding_as(v.8)
    }

    open spec fn failure_as(v: (A::V, B::V, C::V, D::V, E::V, F::V, G::V, H::V, I::V), room: nat) -> Failure {
        let front = (v.0, v.1, v.2, v.3, v.4, v.5, v.6, v.7);
        let bits =
            <(AsA, AsB, AsC, AsD, AsE, AsF, AsG, AsH) as BitPackAs<(A, B, C, D, E, F, G, H)>>::encoding_as(front);
        if !writable(
            <(AsA, AsB, AsC, AsD, AsE, AsF, AsG, AsH) as BitPackAs<(A, B, C, D, E, F, G, H)>>::packable_as(front),
            bits,
            room,
        ) {
            <(AsA, AsB, AsC, AsD, AsE, AsF, AsG, AsH) as BitPackAs<(A, B, C, D, E, F, G, H)>>::failure_as(front, room)
        } else {
            AsI::failure_as(v.8, (room - bits.len()) as nat).at(Context::Slot(8))
        }
    }

    fn pack_as<W: BitWriter>(source: &(A, B, C, D, E, F, G, H, I), writer: &mut W) -> (r: Result<(), Error>) {
        let ghost _own = (
            <Self as BitPackAs<(A, B, C, D, E, F, G, H, I)>>::packable_as(source.deep_view()),
            <Self as BitPackAs<(A, B, C, D, E, F, G, H, I)>>::encoding_as(source.deep_view()),
            <Self as BitPackAs<(A, B, C, D, E, F, G, H, I)>>::failure_as(source.deep_view(), writer.room()),
        );
        let ghost start = writer.written();
        let front =
            (&source.0, &source.1, &source.2, &source.3, &source.4, &source.5, &source.6, &source.7);
        proof {
            lemma_borrowed_as_eight::<A, B, C, D, E, F, G, H, AsA, AsB, AsC, AsD, AsE, AsF, AsG, AsH>(
                front.deep_view(),
                writer.room(),
            );
        }
        <(&AsA, &AsB, &AsC, &AsD, &AsE, &AsF, &AsG, &AsH) as BitPackAs<(&A, &B, &C, &D, &E, &F, &G, &H)>>::pack_as(&front, writer)?;
        pack_part_as::<I, AsI, W>(&source.8, writer, Context::Slot(8), Ghost(start))?;
        proof {
            let a =
                <(AsA, AsB, AsC, AsD, AsE, AsF, AsG, AsH) as BitPackAs<(A, B, C, D, E, F, G, H)>>::encoding_as(front.deep_view());
            let b = AsI::encoding_as(source.8.deep_view());
            assert(start + a + b =~= start + (a + b));
        }
        Ok(())
    }
}

/// Strategies for nine parts: those of the first eight as a strategy of their
/// own, then that of the last.
impl<
    A: DeepView,
    B: DeepView,
    C: DeepView,
    D: DeepView,
    E: DeepView,
    F: DeepView,
    G: DeepView,
    H: DeepView,
    I: DeepView,
    AsA: BitUnpackAs<A>,
    AsB: BitUnpackAs<B>,
    AsC: BitUnpackAs<C>,
    AsD: BitUnpackAs<D>,
    AsE: BitUnpackAs<E>,
    AsF: BitUnpackAs<F>,
    AsG: BitUnpackAs<G>,
    AsH: BitUnpackAs<H>,
    AsI: BitUnpackAs<I>,
> BitUnpackAs<(A, B, C, D, E, F, G, H, I)> for (AsA, AsB, AsC, AsD, AsE, AsF, AsG, AsH, AsI) {
    open spec fn decode_as(bits: Seq<bool>) -> Result<
        ((A::V, B::V, C::V, D::V, E::V, F::V, G::V, H::V, I::V), nat),
        Failure,
    > {
        match <(AsA, AsB, AsC, AsD, AsE, AsF, AsG, AsH) as BitUnpackAs<(A, B, C, D, E, F, G, H)>>::decode_as(bits) {
            Err(k) => Err(k),
            Ok((f, n)) => match AsI::decode_as(bits.skip(n as int)) {
                Err(k) => Err(k.at(Context::Slot(8))),
                Ok((x, m)) => Ok(((f.0, f.1, f.2, f.3, f.4, f.5, f.6, f.7, x), n + m)),
            },
        }
    }

    proof fn lemma_decode_as_within(bits: Seq<bool>) {
        let _own = <Self as BitUnpackAs<(A, B, C, D, E, F, G, H, I)>>::decode_as(bits);
        <(AsA, AsB, AsC, AsD, AsE, AsF, AsG, AsH) as BitUnpackAs<(A, B, C, D, E, F, G, H)>>::lemma_decode_as_within(bits);
        if let Ok((f, n)) = <(AsA, AsB, AsC, AsD, AsE, AsF, AsG, AsH) as BitUnpackAs<(A, B, C, D, E, F, G, H)>>::decode_as(bits) {
            AsI::lemma_decode_as_within(bits.skip(n as int));
        }
    }

    fn unpack_as<R: BitReader>(reader: &mut R) -> (r: Result<(A, B, C, D, E, F, G, H, I), Error>) {
        let ghost _own =
            <Self as BitUnpackAs<(A, B, C, D, E, F, G, H, I)>>::decode_as(reader.remaining());
        let ghost all = reader.remaining();
        let (a, b, c, d, e, f, g, h) =
            <(AsA, AsB, AsC, AsD, AsE, AsF, AsG, AsH) as BitUnpackAs<(A, B, C, D, E, F, G, H)>>::unpack_as(reader)?;
        let ghost n =
            <(AsA, AsB, AsC, AsD, AsE, AsF, AsG, AsH) as BitUnpackAs<(A, B, C, D, E, F, G, H)>>::decode_as(all)->Ok_0.1;
        let i = unpack_part_as::<I, AsI, R>(reader, Context::Slot(8), Ghost(all), Ghost(n))?;
        Ok((a, b, c, d, e, f, g, h, i))
    }
}

impl<
    A: DeepView,
    B: DeepView,
    C: DeepView,
    D: DeepView,
    E: DeepView,
    F: DeepView,
    G: DeepView,
    H: DeepView,
    I: DeepView,
    AsA: BitCodecAs<A>,
    AsB: BitCodecAs<B>,
    AsC: BitCodecAs<C>,
    AsD: BitCodecAs<D>,
    AsE: BitCodecAs<E>,
    AsF: BitCodecAs<F>,
    AsG: BitCodecAs<G>,
    AsH: BitCodecAs<H>,
    AsI: BitCodecAs<I>,
> BitCodecAs<(A, B, C, D, E, F, G, H, I)> for (AsA, AsB, AsC, AsD, AsE, AsF, AsG, AsH, AsI) {
    proof fn lemma_round_trip_as(v: (A::V, B::V, C::V, D::V, E::V, F::V, G::V, H::V, I::V), rest: Seq<bool>) {
        let _own = (
            <Self as BitPackAs<(A, B, C, D, E, F, G, H, I)>>::packable_as(v),
            <Self as BitPackAs<(A, B, C, D, E, F, G, H, I)>>::encoding_as(v),
            <Self as BitUnpackAs<(A, B, C, D, E, F, G, H, I)>>::decode_as(rest),
        );
        let front = (v.0, v.1, v.2, v.3, v.4, v.5, v.6, v.7);
        let a =
            <(AsA, AsB, AsC, AsD, AsE, AsF, AsG, AsH) as BitPackAs<(A, B, C, D, E, F, G, H)>>::encoding_as(front);
        let b = AsI::encoding_as(v.8);
        lemma_skip_first(a, b, rest);
        <(AsA, AsB, AsC, AsD, AsE, AsF, AsG, AsH) as BitCodecAs<(A, B, C, D, E, F, G, H)>>::lemma_round_trip_as(front, b + rest);
        AsI::lemma_round_trip_as(v.8, rest);
    }
}

/// The strategies of nine borrowed parts write as the strategies of the parts.
pub proof fn lemma_borrowed_as_nine<
    A: DeepView,
    B: DeepView,
    C: DeepView,
    D: DeepView,
    E: DeepView,
    F: DeepView,
    G: DeepView,
    H: DeepView,
    I: DeepView,
    AsA: BitPackAs<A>,
    AsB: BitPackAs<B>,
    AsC: BitPackAs<C>,
    AsD: BitPackAs<D>,
    AsE: BitPackAs<E>,
    AsF: BitPackAs<F>,
    AsG: BitPackAs<G>,
    AsH: BitPackAs<H>,
    AsI: BitPackAs<I>,
>(v: (A::V, B::V, C::V, D::V, E::V, F::V, G::V, H::V, I::V), room: nat)
    ensures
        <(&AsA, &AsB, &AsC, &AsD, &AsE, &AsF, &AsG, &AsH, &AsI) as BitPackAs<(&A, &B, &C, &D, &E, &F, &G, &H, &I)>>::packable_as(v)
            == <(AsA, AsB, AsC, AsD, AsE, AsF, AsG, AsH, AsI) as BitPackAs<(A, B, C, D, E, F, G, H, I)>>::packable_as(v),
        <(&AsA, &AsB, &AsC, &AsD, &AsE, &AsF, &AsG, &AsH, &AsI) as BitPackAs<(&A, &B, &C, &D, &E, &F, &G, &H, &I)>>::encoding_as(v)
            == <(AsA, AsB, AsC, AsD, AsE, AsF, AsG, AsH, AsI) as BitPackAs<(A, B, C, D, E, F, G, H, I)>>::encoding_as(v),
        <(&AsA, &AsB, &AsC, &AsD, &AsE, &AsF, &AsG, &AsH, &AsI) as BitPackAs<(&A, &B, &C, &D, &E, &F, &G, &H, &I)>>::failure_as(v, room)
            == <(AsA, AsB, AsC, AsD, AsE, AsF, AsG, AsH, AsI) as BitPackAs<(A, B, C, D, E, F, G, H, I)>>::failure_as(v, room),
{
    lemma_borrowed_as_eight::<A, B, C, D, E, F, G, H, AsA, AsB, AsC, AsD, AsE, AsF, AsG, AsH>(
        (v.0, v.1, v.2, v.3, v.4, v.5, v.6, v.7),
        room,
    );
}

/// Strategies for ten parts: those of the first nine as a strategy of their
/// own, then that of the last.
impl<
    A: DeepView,
    B: DeepView,
    C: DeepView,
    D: DeepView,
    E: DeepView,
    F: DeepView,
    G: DeepView,
    H: DeepView,
    I: DeepView,
    J: DeepView,
    AsA: BitPackAs<A>,
    AsB: BitPackAs<B>,
    AsC: BitPackAs<C>,
    AsD: BitPackAs<D>,
    AsE: BitPackAs<E>,
    AsF: BitPackAs<F>,
    AsG: BitPackAs<G>,
    AsH: BitPackAs<H>,
    AsI: BitPackAs<I>,
    AsJ: BitPackAs<J>,
> BitPackAs<(A, B, C, D, E, F, G, H, I, J)> for (AsA, AsB, AsC, AsD, AsE, AsF, AsG, AsH, AsI, AsJ) {
    open spec fn packable_as(v: (A::V, B::V, C::V, D::V, E::V, F::V, G::V, H::V, I::V, J::V)) -> bool {
        <(AsA, AsB, AsC, AsD, AsE, AsF, AsG, AsH, AsI) as BitPackAs<(A, B, C, D, E, F, G, H, I)>>::packable_as(
            (v.0, v.1, v.2, v.3, v.4, v.5, v.6, v.7, v.8),
        ) && AsJ::packable_as(v.9)
    }

    open spec fn encoding_as(v: (A::V, B::V, C::V, D::V, E::V, F::V, G::V, H::V, I::V, J::V)) -> Seq<bool> {
        <(AsA, AsB, AsC, AsD, AsE, AsF, AsG, AsH, AsI) as BitPackAs<(A, B, C, D, E, F, G, H, I)>>::encoding_as(
            (v.0, v.1, v.2, v.3, v.4, v.5, v.6, v.7, v.8),
        ) + AsJ::encoding_as(v.9)
    }

    open spec fn failure_as(v: (A::V, B::V, C::V, D::V, E::V, F::V, G::V, H::V, I::V, J::V), room: nat) -> Failure {
        let front = (v.0, v.1, v.2, v.3, v.4, v.5, v.6, v.7, v.8);
        let bits =
            <(AsA, AsB, AsC, AsD, AsE, AsF, AsG, AsH, AsI) as BitPackAs<(A, B, C, D, E, F, G, H, I)>>::encoding_as(front);
        if !writable(
            <(AsA, AsB, AsC, AsD, AsE, AsF, AsG, AsH, AsI) as BitPackAs<(A, B, C, D, E, F, G, H, I)>>::packable_as(front),
            bits,
            room,
        ) {
            <(AsA, AsB, AsC, AsD, AsE, AsF, AsG, AsH, AsI) as BitPackAs<(A, B, C, D, E, F, G, H, I)>>::failure_as(front, room)
        } else {
            AsJ::failure_as(v.9, (room - bits.len()) as nat).at(Context::Slot(9))
        }
    }

    fn pack_as<W: BitWriter>(source: &(A, B, C, D, E, F, G, H, I, J), writer: &mut W) -> (r: Result<(), Error>) {
        let ghost _own = (
            <Self as BitPackAs<(A, B, C, D, E, F, G, H, I, J)>>::packable_as(source.deep_view()),
            <Self as BitPackAs<(A, B, C, D, E, F, G, H, I, J)>>::encoding_as(source.deep_view()),
            <Self as BitPackAs<(A, B, C, D, E, F, G, H, I, J)>>::failure_as(source.deep_view(), writer.room()),
        );
        let ghost start = writer.written();
        let front =
            (&source.0, &source.1, &source.2, &source.3, &source.4, &source.5, &source.6, &source.7, &source.8);
        proof {
            lemma_borrowed_as_nine::<A, B, C, D, E, F, G, H, I, AsA, AsB, AsC, AsD, AsE, AsF, AsG, AsH, AsI>(
                front.deep_view(),
                writer.room(),
            );
        }
        <(&AsA, &AsB, &AsC, &AsD, &AsE, &AsF, &AsG, &AsH, &AsI) as BitPackAs<(&A, &B, &C, &D, &E, &F, &G, &H, &I)>>::pack_as(&front, writer)?;
        pack_part_as::<J, AsJ, W>(&source.9, writer, Context::Slot(9), Ghost(start))?;
        proof {
            let a =
                <(AsA, AsB, AsC, AsD, AsE, AsF, AsG, AsH, AsI) as BitPackAs<(A, B, C, D, E, F, G, H, I)>>::encoding_as(front.deep_view());
            let b = AsJ::encoding_as(source.9.deep_view());
            assert(start + a + b =~= start + (a + b));
        }
        Ok(())
    }
}

/// Strategies for ten parts: those of the first nine as a strategy of their
/// own, then that of the last.
impl<
    A: DeepView,
    B: DeepView,
    C: DeepView,
    D: DeepView,
    E: DeepView,
    F: DeepView,
    G: DeepView,
    H: DeepView,
    I: DeepView,
    J: DeepView,
    AsA: BitUnpackAs<A>,
    AsB: BitUnpackAs<B>,
    AsC: BitUnpackAs<C>,
    AsD: BitUnpackAs<D>,
    AsE: BitUnpackAs<E>,
    AsF: BitUnpackAs<F>,
    AsG: BitUnpackAs<G>,
    AsH: BitUnpackAs<H>,
    AsI: BitUnpackAs<I>,
    AsJ: BitUnpackAs<J>,
> BitUnpackAs<(A, B, C, D, E, F, G, H, I, J)> for (AsA, AsB, AsC, AsD, AsE, AsF, AsG, AsH, AsI, AsJ) {
    open spec fn decode_as(bits: Seq<bool>) -> Result<
        ((A::V, B::V, C::V, D::V, E::V, F::V, G::V, H::V, I::V, J::V), nat),
        Failure,
    > {
        match <(AsA, AsB, AsC, AsD, AsE, AsF, AsG, AsH, AsI) as BitUnpackAs<(A, B, C, D, E, F, G, H, I)>>::decode_as(bits) {
            Err(k) => Err(k),
            Ok((f, n)) => match AsJ::decode_as(bits.skip(n as int)) {
                Err(k) => Err(k.at(Context::Slot(9))),
                Ok((x, m)) => Ok(((f.0, f.1, f.2, f.3, f.4, f.5, f.6, f.7, f.8, x), n + m)),
            },
        }
    }

    proof fn lemma_decode_as_within(bits: Seq<bool>) {
        let _own = <Self as BitUnpackAs<(A, B, C, D, E, F, G, H, I, J)>>::decode_as(bits);
        <(AsA, AsB, AsC, AsD, AsE, AsF, AsG, AsH, AsI) as BitUnpackAs<(A, B, C, D, E, F, G, H, I)>>::lemma_decode_as_within(bits);
        if let Ok((f, n)) = <(AsA, AsB, AsC, AsD, AsE, AsF, AsG, AsH, AsI) as BitUnpackAs<(A, B, C, D, E, F, G, H, I)>>::decode_as(bits) {
            AsJ::lemma_decode_as_within(bits.skip(n as int));
        }
    }

    fn unpack_as<R: BitReader>(reader: &mut R) -> (r: Result<(A, B, C, D, E, F, G, H, I, J), Error>) {
        let ghost _own =
            <Self as BitUnpackAs<(A, B, C, D, E, F, G, H, I, J)>>::decode_as(reader.remaining());
        let ghost all = reader.remaining();
        let (a, b, c, d, e, f, g, h, i) =
            <(AsA, AsB, AsC, AsD, AsE, AsF, AsG, AsH, AsI) as BitUnpackAs<(A, B, C, D, E, F, G, H, I)>>::unpack_as(reader)?;
        let ghost n =
            <(AsA, AsB, AsC, AsD, AsE, AsF, AsG, AsH, AsI) as BitUnpackAs<(A, B, C, D, E, F, G, H, I)>>::decode_as(all)->Ok_0.1;
        let j = unpack_part_as::<J, AsJ, R>(reader, Context::Slot(9), Ghost(all), Ghost(n))?;
        Ok((a, b, c, d, e, f, g, h, i, j))
    }
}

impl<
    A: DeepView,
    B: DeepView,
    C: DeepView,
    D: DeepView,
    E: DeepView,
    F: DeepView,
    G: DeepView,
    H: DeepView,
    I: DeepView,
    J: DeepView,
    AsA: BitCodecAs<A>,
    AsB: BitCodecAs<B>,
    AsC: BitCodecAs<C>,
    AsD: BitCodecAs<D>,
    AsE: BitCodecAs<E>,
    AsF: BitCodecAs<F>,
    AsG: BitCodecAs<G>,
    AsH: BitCodecAs<H>,
    AsI: BitCodecAs<I>,
    AsJ: BitCodecAs<J>,
> BitCodecAs<(A, B, C, D, E, F, G, H, I, J)> for (AsA, AsB, AsC, AsD, AsE, AsF, AsG, AsH, AsI, AsJ) {
    proof fn lemma_round_trip_as(v: (A::V, B::V, C::V, D::V, E::V, F::V, G::V, H::V, I::V, J::V), rest: Seq<bool>) {
        let _own = (
            <Self as BitPackAs<(A, B, C, D, E, F, G, H, I, J)>>::packable_as(v),
            <Self as BitPackAs<(A, B, C, D, E, F, G, H, I, J)>>::encoding_as(v),
            <Self as BitUnpackAs<(A, B, C, D, E, F, G, H, I, J)>>::decode_as(rest),
        );
        let front = (v.0, v.1, v.2, v.3, v.4, v.5, v.6, v.7, v.8);
        let a =
            <(AsA, AsB, AsC, AsD, AsE, AsF, AsG, AsH, AsI) as BitPackAs<(A, B, C, D, E, F, G, H, I)>>::encoding_as(front);
        let b = AsJ::encoding_as(v.9);
        lemma_skip_first(a, b, rest);
        <(AsA, AsB, AsC, AsD, AsE, AsF, AsG, AsH, AsI) as BitCodecAs<(A, B, C, D, E, F, G, H, I)>>::lemma_round_trip_as(front, b + rest);
        AsJ::lemma_round_trip_as(v.9, rest);
    }
}

} // verus!
