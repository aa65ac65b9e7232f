//! Types that are read back as they were written.

use crate::de::BitUnpack;
use crate::de_as::BitUnpackAs;
use crate::either::Either;
use crate::error::Failure;
use crate::ser::BitPack;
use crate::ser_as::{BitPackAs, Same};
use std::rc::Rc;
use std::sync::Arc;
use vstd::prelude::*;

verus! {

/// A type whose values are read back from their own encoding, whatever
/// follows it.
pub trait BitCodec: BitPack + BitUnpack {
    /// Reading what was written gives the value that was written, and takes
    /// exactly the bits that stand for it.
    proof fn lemma_round_trip(v: Self::V, rest: Seq<bool>)
        requires
            Self::packable(v),
        ensures
            Self::decode(Self::encoding(v) + rest) == Ok::<(Self::V, nat), Failure>(
                (v, Self::encoding(v).len()),
            ),
    ;
}

/// A bit string in three parts, read from the second part on.
pub proof fn lemma_skip_first(a: Seq<bool>, b: Seq<bool>, rest: Seq<bool>)
    ensures
        a + b + rest == a + (b + rest),
        (a + b + rest).skip(a.len() as int) == b + rest,
{
    assert(a + b + rest =~= a + (b + rest));
    assert((a + b + rest).skip(a.len() as int) =~= b + rest);
}

impl BitCodec for () {
    proof fn lemma_round_trip(v: (), rest: Seq<bool>) {
        let _own = (Self::packable(v), Self::encoding(v), Self::decode(rest));
    }
}

impl BitCodec for bool {
    proof fn lemma_round_trip(v: bool, rest: Seq<bool>) {
        let _own = (Self::packable(v), Self::encoding(v), Self::decode(rest));
    }
}

impl<A: BitCodec, B: BitCodec> BitCodec for Either<A, B> {
    proof fn lemma_round_trip(v: Either<A::V, B::V>, rest: Seq<bool>) {
        let _own = (Self::packable(v), Self::encoding(v), Self::decode(rest));
        match v {
            Either::Left(l) => {
                A::lemma_round_trip(l, rest);
                lemma_skip_first(seq![false], A::encoding(l), rest);
            },
            Either::Right(r) => {
                B::lemma_round_trip(r, rest);
                lemma_skip_first(seq![true], B::encoding(r), rest);
            },
        }
    }
}

impl<T: BitCodec> BitCodec for Option<T> {
    proof fn lemma_round_trip(v: Option<T::V>, rest: Seq<bool>) {
        let _own = (Self::packable(v), Self::encoding(v), Self::decode(rest));
        match v {
            None => {},
            Some(x) => {
                T::lemma_round_trip(x, rest);
                lemma_skip_first(seq![true], T::encoding(x), rest);
            },
        }
    }
}

impl<T: BitCodec> BitCodec for Box<T> {
    proof fn lemma_round_trip(v: T::V, rest: Seq<bool>) {
        let _own = (Self::packable(v), Self::encoding(v), Self::decode(rest));
        T::lemma_round_trip(v, rest);
    }
}

impl<T: BitCodec> BitCodec for Rc<T> {
    proof fn lemma_round_trip(v: T::V, rest: Seq<bool>) {
        let _own = (Self::packable(v), Self::encoding(v), Self::decode(rest));
        T::lemma_round_trip(v, rest);
    }
}

impl<T: BitCodec> BitCodec for Arc<T> {
    proof fn lemma_round_trip(v: T::V, rest: Seq<bool>) {
        let _own = (Self::packable(v), Self::encoding(v), Self::decode(rest));
        T::lemma_round_trip(v, rest);
    }
}

impl<A: BitCodec> BitCodec for (A,) {
    proof fn lemma_round_trip(v: (A::V,), rest: Seq<bool>) {
        let _own = (Self::packable(v), Self::encoding(v), Self::decode(rest));
        A::lemma_round_trip(v.0, rest);
    }
}

impl<A: BitCodec, B: BitCodec> BitCodec for (A, B) {
    proof fn lemma_round_trip(v: (A::V, B::V), rest: Seq<bool>) {
        let _own = (Self::packable(v), Self::encoding(v), Self::decode(rest));
        let a = A::encoding(v.0);
        let b = B::encoding(v.1);
        lemma_skip_first(a, b, rest);
        A::lemma_round_trip(v.0, b + rest);
        B::lemma_round_trip(v.1, rest);
    }
}

impl<A: BitCodec, B: BitCodec, C: BitCodec> BitCodec for (A, B, C) {
    proof fn lemma_round_trip(v: (A::V, B::V, C::V), rest: Seq<bool>) {
        let _own = (Self::packable(v), Self::encoding(v), Self::decode(rest));
        let a = A::encoding(v.0);
        let b = B::encoding(v.1);
        let c = C::encoding(v.2);
        lemma_skip_first(a, b, c + rest);
        lemma_skip_first(a + b, c, rest);
        assert(a + b + c + rest =~= a + (b + (c + rest)));
        lemma_skip_first(b, c, rest);
        A::lemma_round_trip(v.0, b + (c + rest));
        B::lemma_round_trip(v.1, c + rest);
        C::lemma_round_trip(v.2, rest);
        assert((a + b + c + rest).skip((a.len() + b.len()) as int) =~= c + rest);
    }
}

/// A strategy that reads values back from their own encoding, whatever
/// follows it.
pub trait BitCodecAs<T: DeepView>: BitPackAs<T> + BitUnpackAs<T> {
    /// Reading by the strategy what was written by it gives the value that
    /// was written, and takes exactly the bits that stand for it.
    proof fn lemma_round_trip_as(v: T::V, rest: Seq<bool>)
        requires
            Self::packable_as(v),
        ensures
            Self::decode_as(Self::encoding_as(v) + rest) == Ok::<(T::V, nat), Failure>(
                (v, Self::encoding_as(v).len()),
            ),
    ;
}

impl<T: BitCodec> BitCodecAs<T> for Same {
    proof fn lemma_round_trip_as(v: T::V, rest: Seq<bool>) {
        let _own = (
            <Self as BitPackAs<T>>::packable_as(v),
            <Self as BitPackAs<T>>::encoding_as(v),
            <Self as BitUnpackAs<T>>::decode_as(rest),
        );
        T::lemma_round_trip(v, rest);
    }
}

impl<T: DeepView, As: BitCodecAs<T>> BitCodecAs<Box<T>> for Box<As> {
    proof fn lemma_round_trip_as(v: T::V, rest: Seq<bool>) {
        let _own = (
            <Self as BitPackAs<Box<T>>>::packable_as(v),
            <Self as BitPackAs<Box<T>>>::encoding_as(v),
            <Self as BitUnpackAs<Box<T>>>::decode_as(rest),
        );
        As::lemma_round_trip_as(v, rest);
    }
}

impl<T: DeepView, As: BitCodecAs<T>> BitCodecAs<Rc<T>> for Rc<As> {
    proof fn lemma_round_trip_as(v: T::V, rest: Seq<bool>) {
        let _own = (
            <Self as BitPackAs<Rc<T>>>::packable_as(v),
            <Self as BitPackAs<Rc<T>>>::encoding_as(v),
            <Self as BitUnpackAs<Rc<T>>>::decode_as(rest),
        );
        As::lemma_round_trip_as(v, rest);
    }
}

impl<T: DeepView, As: BitCodecAs<T>> BitCodecAs<Arc<T>> for Arc<As> {
    proof fn lemma_round_trip_as(v: T::V, rest: Seq<bool>) {
        let _own = (
            <Self as BitPackAs<Arc<T>>>::packable_as(v),
            <Self as BitPackAs<Arc<T>>>::encoding_as(v),
            <Self as BitUnpackAs<Arc<T>>>::decode_as(rest),
        );
        As::lemma_round_trip_as(v, rest);
    }
}

impl<T: DeepView, As: BitCodecAs<T>> BitCodecAs<Option<T>> for Option<As> {
    proof fn lemma_round_trip_as(v: Option<T::V>, rest: Seq<bool>) {
        let _own = (
            <Self as BitPackAs<Option<T>>>::packable_as(v),
            <Self as BitPackAs<Option<T>>>::encoding_as(v),
            <Self as BitUnpackAs<Option<T>>>::decode_as(rest),
        );
        match v {
            None => {},
            Some(x) => {
                As::lemma_round_trip_as(x, rest);
                lemma_skip_first(seq![true], As::encoding_as(x), rest);
            },
        }
    }
}

impl<T: DeepView, As: BitCodecAs<T>> BitCodecAs<Option<T>> for Either<(), As> {
    proof fn lemma_round_trip_as(v: Option<T::V>, rest: Seq<bool>) {
        let _own = (
            <Self as BitPackAs<Option<T>>>::packable_as(v),
            <Self as BitPackAs<Option<T>>>::encoding_as(v),
            <Self as BitUnpackAs<Option<T>>>::decode_as(rest),
        );
        <Option<As> as BitCodecAs<Option<T>>>::lemma_round_trip_as(v, rest);
    }
}

impl<A: DeepView, B: DeepView, AsA: BitCodecAs<A>, AsB: BitCodecAs<B>> BitCodecAs<
    Either<A, B>,
> for Either<AsA, AsB> {
    proof fn lemma_round_trip_as(v: Either<A::V, B::V>, rest: Seq<bool>) {
        let _own = (
            <Self as BitPackAs<Either<A, B>>>::packable_as(v),
            <Self as BitPackAs<Either<A, B>>>::encoding_as(v),
            <Self as BitUnpackAs<Either<A, B>>>::decode_as(rest),
        );
        match v {
            Either::Left(l) => {
                AsA::lemma_round_trip_as(l, rest);
                lemma_skip_first(seq![false], AsA::encoding_as(l), rest);
            },
            Either::Right(r) => {
                AsB::lemma_round_trip_as(r, rest);
                lemma_skip_first(seq![true], AsB::encoding_as(r), rest);
            },
        }
    }
}

impl<A: DeepView, AsA: BitCodecAs<A>> BitCodecAs<(A,)> for (AsA,) {
    proof fn lemma_round_trip_as(v: (A::V,), rest: Seq<bool>) {
        let _own = (
            <Self as BitPackAs<(A,)>>::packable_as(v),
            <Self as BitPackAs<(A,)>>::encoding_as(v),
            <Self as BitUnpackAs<(A,)>>::decode_as(rest),
        );
        AsA::lemma_round_trip_as(v.0, rest);
    }
}

impl<A: DeepView, B: DeepView, AsA: BitCodecAs<A>, AsB: BitCodecAs<B>> BitCodecAs<
    (A, B),
> for (AsA, AsB) {
    proof fn lemma_round_trip_as(v: (A::V, B::V), rest: Seq<bool>) {
        let _own = (
            <Self as BitPackAs<(A, B)>>::packable_as(v),
            <Self as BitPackAs<(A, B)>>::encoding_as(v),
            <Self as BitUnpackAs<(A, B)>>::decode_as(rest),
        );
        let a = AsA::encoding_as(v.0);
        let b = AsB::encoding_as(v.1);
        lemma_skip_first(a, b, rest);
        AsA::lemma_round_trip_as(v.0, b + rest);
        AsB::lemma_round_trip_as(v.1, rest);
    }
}

impl<
    A: DeepView,
    B: DeepView,
    C: DeepView,
    AsA: BitCodecAs<A>,
    AsB: BitCodecAs<B>,
    AsC: BitCodecAs<C>,
> BitCodecAs<(A, B, C)> for (AsA, AsB, AsC) {
    proof fn lemma_round_trip_as(v: (A::V, B::V, C::V), rest: Seq<bool>) {
        let _own = (
            <Self as BitPackAs<(A, B, C)>>::packable_as(v),
            <Self as BitPackAs<(A, B, C)>>::encoding_as(v),
            <Self as BitUnpackAs<(A, B, C)>>::decode_as(rest),
        );
        let a = AsA::encoding_as(v.0);
        let b = AsB::encoding_as(v.1);
        let c = AsC::encoding_as(v.2);
        lemma_skip_first(a, b, c + rest);
        lemma_skip_first(a + b, c, rest);
        assert(a + b + c + rest =~= a + (b + (c + rest)));
        lemma_skip_first(b, c, rest);
        AsA::lemma_round_trip_as(v.0, b + (c + rest));
        AsB::lemma_round_trip_as(v.1, c + rest);
        AsC::lemma_round_trip_as(v.2, rest);
        assert((a + b + c + rest).skip((a.len() + b.len()) as int) =~= c + rest);
    }
}

} // verus!
