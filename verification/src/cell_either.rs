//! One of two values, and optional values, in cells: one bit that tells
//! which, then the value.

use crate::builder::{CellBuilder, bits_only};
use crate::cell::CellView;
use crate::cell_de::{CellDeserialize, CellDeserializeAs, parse_part_as};
use crate::cell_ser::{CellSerialize, CellSerializeAs, Data, lemma_append_assoc, store_part_as};
use crate::either::Either;
use crate::error::{Context, Error, ErrorKind, Failure};
use crate::parser::CellParser;
use crate::ser_as::Same;
use crate::de::BitUnpack;
use vstd::prelude::*;
use crate::builder::bits_room;

verus! {

/// The piece of a cell that stands for a tagged value: the tag bit, then
/// the value's piece.
pub open spec fn tagged(tag: bool, piece: CellView) -> CellView {
    bits_only(seq![tag]).append(piece)
}

/// What follows the tag bit.
pub open spec fn untagged<V>(
    tag: Result<(bool, nat), Failure>,
    left: Result<(V, nat, nat), Failure>,
    right: Result<(V, nat, nat), Failure>,
) -> Result<(V, nat, nat), Failure> {
    match tag {
        Err(k) => Err(k.at(Context::Field("tag"))),
        Ok((false, _)) => match left {
            Ok((v, n, k)) => Ok((v, n + 1, k)),
            Err(k) => Err(k.at(Context::Field("left"))),
        },
        Ok((true, _)) => match right {
            Ok((v, n, k)) => Ok((v, n + 1, k)),
            Err(k) => Err(k.at(Context::Field("right"))),
        },
    }
}

/// The value on the left, marked as such.
pub open spec fn on_left<A, B>(r: Result<(A, nat, nat), Failure>) -> Result<
    (Either<A, B>, nat, nat),
    Failure,
> {
    match r {
        Ok((v, n, k)) => Ok((Either::Left(v), n, k)),
        Err(k) => Err(k),
    }
}

/// The value on the right, marked as such.
pub open spec fn on_right<A, B>(r: Result<(B, nat, nat), Failure>) -> Result<
    (Either<A, B>, nat, nat),
    Failure,
> {
    match r {
        Ok((v, n, k)) => Ok((Either::Right(v), n, k)),
        Err(k) => Err(k),
    }
}

/// The value that is there.
pub open spec fn present<V>(r: Result<(V, nat, nat), Failure>) -> Result<
    (Option<V>, nat, nat),
    Failure,
> {
    match r {
        Ok((v, n, k)) => Ok((Some(v), n, k)),
        Err(k) => Err(k),
    }
}

/// One of two values under two strategies: one bit that says which, 0 for
/// the left and 1 for the right, then the value as its strategy stores it.
impl<L: DeepView, R: DeepView, AsL: CellSerializeAs<L>, AsR: CellSerializeAs<R>> CellSerializeAs<
    Either<L, R>,
> for Either<AsL, AsR> {
    open spec fn storable_as(v: Either<L::V, R::V>) -> bool {
        match v {
            Either::Left(l) => AsL::storable_as(l),
            Either::Right(r) => AsR::storable_as(r),
        }
    }

    open spec fn stored_as(v: Either<L::V, R::V>) -> CellView {
        match v {
            Either::Left(l) => tagged(false, AsL::stored_as(l)),
            Either::Right(r) => tagged(true, AsR::stored_as(r)),
        }
    }

    open spec fn store_failure_as(v: Either<L::V, R::V>, before: CellView) -> Failure {
        if bits_room(before) < 1 {
            Failure::of(ErrorKind::Capacity).at(Context::Field("tag"))
        } else {
            match v {
                Either::Left(l) => AsL::store_failure_as(
                    l,
                    before.append(bits_only(seq![false])),
                ).at(Context::Field("left")),
                Either::Right(r) => AsR::store_failure_as(
                    r,
                    before.append(bits_only(seq![true])),
                ).at(Context::Field("right")),
            }
        }
    }

    fn store_as(source: &Either<L, R>, builder: &mut CellBuilder) -> (r: Result<(), Error>) {
        let ghost _own = (
            <Self as CellSerializeAs<Either<L, R>>>::storable_as(source.deep_view()),
            <Self as CellSerializeAs<Either<L, R>>>::stored_as(source.deep_view()),
            <Self as CellSerializeAs<Either<L, R>>>::store_failure_as(source.deep_view(), builder.deep_view()),
        );
        // the parts go to a copy, which takes the place of the builder once
        // all of them are stored
        let mut scratch = builder.snapshot();
        let ghost start = scratch.deep_view();
        match source {
            Either::Left(l) => {
                store_part_as::<bool, Data<Same>>(
                    &false,
                    &mut scratch,
                    Context::Field("tag"),
                )?;
                store_part_as::<L, AsL>(l, &mut scratch, Context::Field("left"))?;
                proof {
                    lemma_append_assoc(start, bits_only(seq![false]), AsL::stored_as(l.deep_view()));
                }
            },
            Either::Right(r) => {
                store_part_as::<bool, Data<Same>>(
                    &true,
                    &mut scratch,
                    Context::Field("tag"),
                )?;
                store_part_as::<R, AsR>(r, &mut scratch, Context::Field("right"))?;
                proof {
                    lemma_append_assoc(start, bits_only(seq![true]), AsR::stored_as(r.deep_view()));
                }
            },
        }
        *builder = scratch;
        Ok(())
    }
}

impl<
    A: DeepView,
    B: DeepView,
    AsA: CellDeserializeAs<A>,
    AsB: CellDeserializeAs<B>,
> CellDeserializeAs<Either<A, B>> for Either<AsA, AsB> {
    open spec fn parsed_as(rest: CellView) -> Result<(Either<A::V, B::V>, nat, nat), Failure> {
        untagged(
            bool::decode(rest.data),
            on_left(AsA::parsed_as(rest.skip(1, 0))),
            on_right(AsB::parsed_as(rest.skip(1, 0))),
        )
    }

    proof fn lemma_parsed_as_within(rest: CellView) {
        let _own = <Self as CellDeserializeAs<Either<A, B>>>::parsed_as(rest);
        if rest.data.len() > 0 {
            AsA::lemma_parsed_as_within(rest.skip(1, 0));
            AsB::lemma_parsed_as_within(rest.skip(1, 0));
        }
    }

    fn parse_as<'a>(parser: &mut CellParser<'a>) -> (r: Result<Either<A, B>, Error>) {
        let ghost _own = <Self as CellDeserializeAs<Either<A, B>>>::parsed_as(parser.deep_view());
        let ghost all = parser.deep_view();
        proof {
            assert(all.data.skip(0) =~= all.data);
            assert(all.references.skip(0) =~= all.references);
        }
        let tag = parse_part_as::<bool, Data<Same>>(
            parser,
            Context::Field("tag"),
            Ghost(all),
            Ghost(0),
            Ghost(0),
        )?;
        if !tag {
            let v = parse_part_as::<A, AsA>(
                parser,
                Context::Field("left"),
                Ghost(all),
                Ghost(1),
                Ghost(0),
            )?;
            Ok(Either::Left(v))
        } else {
            let v = parse_part_as::<B, AsB>(
                parser,
                Context::Field("right"),
                Ghost(all),
                Ghost(1),
                Ghost(0),
            )?;
            Ok(Either::Right(v))
        }
    }
}

/// An optional value as one of two: nothing on the left, the value on the
/// right as the strategy `As` stores it.
impl<T: DeepView, As: CellSerializeAs<T>> CellSerializeAs<Option<T>> for Either<(), As> {
    open spec fn storable_as(v: Option<T::V>) -> bool {
        match v {
            None => true,
            Some(x) => As::storable_as(x),
        }
    }

    open spec fn stored_as(v: Option<T::V>) -> CellView {
        match v {
            None => tagged(false, CellView::empty()),
            Some(x) => tagged(true, As::stored_as(x)),
        }
    }

    open spec fn store_failure_as(v: Option<T::V>, before: CellView) -> Failure {
        match v {
            Some(x) if bits_room(before) >= 1 => As::store_failure_as(
                x,
                before.append(bits_only(seq![true])),
            ).at(Context::Field("right")),
            _ => Failure::of(ErrorKind::Capacity).at(Context::Field("tag")),
        }
    }

    fn store_as(source: &Option<T>, builder: &mut CellBuilder) -> (r: Result<(), Error>) {
        let ghost _own = (
            <Self as CellSerializeAs<Option<T>>>::storable_as(source.deep_view()),
            <Self as CellSerializeAs<Option<T>>>::stored_as(source.deep_view()),
            <Self as CellSerializeAs<Option<T>>>::store_failure_as(source.deep_view(), builder.deep_view()),
        );
        // the parts go to a copy, which takes the place of the builder once
        // all of them are stored
        let mut scratch = builder.snapshot();
        let ghost start = scratch.deep_view();
        match source {
            None => {
                store_part_as::<bool, Data<Same>>(
                    &false,
                    &mut scratch,
                    Context::Field("tag"),
                )?;
                proof {
                    lemma_append_assoc(start, bits_only(seq![false]), CellView::empty());
                    lemma_append_assoc(bits_only(seq![false]), CellView::empty(), CellView::empty());
                }
            },
            Some(x) => {
                store_part_as::<bool, Data<Same>>(
                    &true,
                    &mut scratch,
                    Context::Field("tag"),
                )?;
                store_part_as::<T, As>(x, &mut scratch, Context::Field("right"))?;
                proof {
                    lemma_append_assoc(start, bits_only(seq![true]), As::stored_as(x.deep_view()));
                }
            },
        }
        *builder = scratch;
        Ok(())
    }
}

impl<T: DeepView, As: CellDeserializeAs<T>> CellDeserializeAs<Option<T>> for Either<(), As> {
    open spec fn parsed_as(rest: CellView) -> Result<(Option<T::V>, nat, nat), Failure> {
        untagged(
            bool::decode(rest.data),
            Ok((None, 0, 0)),
            present(As::parsed_as(rest.skip(1, 0))),
        )
    }

    proof fn lemma_parsed_as_within(rest: CellView) {
        let _own = <Self as CellDeserializeAs<Option<T>>>::parsed_as(rest);
        if rest.data.len() > 0 {
            As::lemma_parsed_as_within(rest.skip(1, 0));
        }
    }

    fn parse_as<'a>(parser: &mut CellParser<'a>) -> (r: Result<Option<T>, Error>) {
        let ghost _own = <Self as CellDeserializeAs<Option<T>>>::parsed_as(parser.deep_view());
        let ghost all = parser.deep_view();
        proof {
            assert(all.data.skip(0) =~= all.data);
            assert(all.references.skip(0) =~= all.references);
        }
        let tag = parse_part_as::<bool, Data<Same>>(
            parser,
            Context::Field("tag"),
            Ghost(all),
            Ghost(0),
            Ghost(0),
        )?;
        if !tag {
            Ok(None)
        } else {
            let v = parse_part_as::<T, As>(
                parser,
                Context::Field("right"),
                Ghost(all),
                Ghost(1),
                Ghost(0),
            )?;
            Ok(Some(v))
        }
    }
}

/// An optional value under a strategy: one bit that says whether the value
/// is there, then the value as the strategy stores it.
impl<T: DeepView, As: CellSerializeAs<T>> CellSerializeAs<Option<T>> for Option<As> {
    open spec fn storable_as(v: Option<T::V>) -> bool {
        match v {
            None => true,
            Some(x) => As::storable_as(x),
        }
    }

    open spec fn stored_as(v: Option<T::V>) -> CellView {
        match v {
            None => tagged(false, CellView::empty()),
            Some(x) => tagged(true, As::stored_as(x)),
        }
    }

    open spec fn store_failure_as(v: Option<T::V>, before: CellView) -> Failure {
        match v {
            Some(x) if bits_room(before) >= 1 => As::store_failure_as(
                x,
                before.append(bits_only(seq![true])),
            ).at(Context::Field("right")),
            _ => Failure::of(ErrorKind::Capacity).at(Context::Field("tag")),
        }
    }

    fn store_as(source: &Option<T>, builder: &mut CellBuilder) -> (r: Result<(), Error>) {
        let ghost _own = (
            <Self as CellSerializeAs<Option<T>>>::storable_as(source.deep_view()),
            <Self as CellSerializeAs<Option<T>>>::stored_as(source.deep_view()),
            <Self as CellSerializeAs<Option<T>>>::store_failure_as(source.deep_view(), builder.deep_view()),
        );
        <Either<(), As> as CellSerializeAs<Option<T>>>::store_as(source, builder)
    }
}

impl<T: DeepView, As: CellDeserializeAs<T>> CellDeserializeAs<Option<T>> for Option<As> {
    open spec fn parsed_as(rest: CellView) -> Result<(Option<T::V>, nat, nat), Failure> {
        untagged(
            bool::decode(rest.data),
            Ok((None, 0, 0)),
            present(As::parsed_as(rest.skip(1, 0))),
        )
    }

    proof fn lemma_parsed_as_within(rest: CellView) {
        let _own = <Self as CellDeserializeAs<Option<T>>>::parsed_as(rest);
        if rest.data.len() > 0 {
            As::lemma_parsed_as_within(rest.skip(1, 0));
        }
    }

    fn parse_as<'a>(parser: &mut CellParser<'a>) -> (r: Result<Option<T>, Error>) {
        let ghost _own = <Self as CellDeserializeAs<Option<T>>>::parsed_as(parser.deep_view());
        <Either<(), As> as CellDeserializeAs<Option<T>>>::parse_as(parser)
    }
}

/// One of two values: one bit that says which, 0 for the left and 1 for the
/// right, then the value.
impl<L: CellSerialize, R: CellSerialize> CellSerialize for Either<L, R> {
    open spec fn storable(v: Either<L::V, R::V>) -> bool {
        match v {
            Either::Left(l) => L::storable(l),
            Either::Right(r) => R::storable(r),
        }
    }

    open spec fn stored(v: Either<L::V, R::V>) -> CellView {
        match v {
            Either::Left(l) => tagged(false, L::stored(l)),
            Either::Right(r) => tagged(true, R::stored(r)),
        }
    }

    open spec fn store_failure(v: Either<L::V, R::V>, before: CellView) -> Failure {
        if bits_room(before) < 1 {
            Failure::of(ErrorKind::Capacity).at(Context::Field("tag"))
        } else {
            match v {
                Either::Left(l) => L::store_failure(l, before.append(bits_only(seq![false]))).at(
                    Context::Field("left"),
                ),
                Either::Right(r) => R::store_failure(r, before.append(bits_only(seq![true]))).at(
                    Context::Field("right"),
                ),
            }
        }
    }

    fn store(&self, builder: &mut CellBuilder) -> (r: Result<(), Error>) {
        let ghost _own = (
            Self::storable(self.deep_view()),
            Self::stored(self.deep_view()),
            Self::store_failure(self.deep_view(), builder.deep_view()),
        );
        <Either<Same, Same> as CellSerializeAs<Either<L, R>>>::store_as(self, builder)
    }
}

impl<A: CellDeserialize, B: CellDeserialize> CellDeserialize for Either<A, B> {
    open spec fn parsed(rest: CellView) -> Result<(Either<A::V, B::V>, nat, nat), Failure> {
        untagged(
            bool::decode(rest.data),
            on_left(A::parsed(rest.skip(1, 0))),
            on_right(B::parsed(rest.skip(1, 0))),
        )
    }

    proof fn lemma_parsed_within(rest: CellView) {
        let _own = Self::parsed(rest);
        if rest.data.len() > 0 {
            A::lemma_parsed_within(rest.skip(1, 0));
            B::lemma_parsed_within(rest.skip(1, 0));
        }
    }

    fn parse<'a>(parser: &mut CellParser<'a>) -> (r: Result<Self, Error>) {
        let ghost _own = Self::parsed(parser.deep_view());
        <Either<Same, Same> as CellDeserializeAs<Either<A, B>>>::parse_as(parser)
    }
}

/// An optional value: one bit that says whether the value is there, 0 for
/// no and 1 for yes, and after a 1 the value.
impl<T: CellSerialize> CellSerialize for Option<T> {
    open spec fn storable(v: Option<T::V>) -> bool {
        match v {
            None => true,
            Some(x) => T::storable(x),
        }
    }

    open spec fn stored(v: Option<T::V>) -> CellView {
        match v {
            None => tagged(false, CellView::empty()),
            Some(x) => tagged(true, T::stored(x)),
        }
    }

    open spec fn store_failure(v: Option<T::V>, before: CellView) -> Failure {
        match v {
            Some(x) if bits_room(before) >= 1 => T::store_failure(
                x,
                before.append(bits_only(seq![true])),
            ).at(Context::Field("right")),
            _ => Failure::of(ErrorKind::Capacity).at(Context::Field("tag")),
        }
    }

    fn store(&self, builder: &mut CellBuilder) -> (r: Result<(), Error>) {
        let ghost _own = (
            Self::storable(self.deep_view()),
            Self::stored(self.deep_view()),
            Self::store_failure(self.deep_view(), builder.deep_view()),
        );
        <Either<(), Same> as CellSerializeAs<Option<T>>>::store_as(self, builder)
    }
}

impl<T: CellDeserialize> CellDeserialize for Option<T> {
    open spec fn parsed(rest: CellView) -> Result<(Option<T::V>, nat, nat), Failure> {
        untagged(bool::decode(rest.data), Ok((None, 0, 0)), present(T::parsed(rest.skip(1, 0))))
    }

    proof fn lemma_parsed_within(rest: CellView) {
        let _own = Self::parsed(rest);
        if rest.data.len() > 0 {
            T::lemma_parsed_within(rest.skip(1, 0));
        }
    }

    fn parse<'a>(parser: &mut CellParser<'a>) -> (r: Result<Self, Error>) {
        let ghost _own = Self::parsed(parser.deep_view());
        <Either<(), Same> as CellDeserializeAs<Option<T>>>::parse_as(parser)
    }
}

} // verus!
