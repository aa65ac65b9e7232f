//! Values that are read back from cells as they were stored.

use crate::builder::{bits_only, reference_only};
use crate::cell::{Cell, CellView};
use crate::cell_de::{CellDeserialize, CellDeserializeAs, parsed_fully_as};
use crate::cell_either::tagged;
use crate::cell_ser::{CellSerialize, CellSerializeAs, Data, Ref, lemma_append_assoc};
use crate::codec::BitCodecAs;
use crate::either::Either;
use crate::error::Failure;
use crate::ser_as::Same;
use std::sync::Arc;
use vstd::prelude::*;

verus! {

/// A type whose values are read back from the piece of a cell that stands
/// for them, whatever follows it.
pub trait CellCodec: CellSerialize + CellDeserialize {
    /// Reading what was stored gives the value that was stored, and takes
    /// exactly the bits and references that stand for it.
    proof fn lemma_cell_round_trip(v: Self::V, rest: CellView)
        requires
            Self::storable(v),
        ensures
            Self::parsed(Self::stored(v).append(rest)) == Ok::<(Self::V, nat, nat), Failure>(
                (v, Self::stored(v).data.len(), Self::stored(v).references.len()),
            ),
    ;
}

/// A type whose values are read back from a cell that holds one of them and
/// nothing after it.
pub trait CellCodecWhole: CellSerialize + CellDeserialize {
    /// Reading what was stored, with nothing after it, gives the value that
    /// was stored, and takes all bits and references.
    proof fn lemma_whole_round_trip(v: Self::V)
        requires
            Self::storable(v),
        ensures
            Self::parsed(Self::stored(v)) == Ok::<(Self::V, nat, nat), Failure>(
                (v, Self::stored(v).data.len(), Self::stored(v).references.len()),
            ),
    ;
}

/// What is read back whatever follows it is read back where nothing follows.
impl<T: CellCodec> CellCodecWhole for T {
    proof fn lemma_whole_round_trip(v: T::V) {
        T::lemma_cell_round_trip(v, CellView::empty());
        lemma_append_assoc(T::stored(v), CellView::empty(), CellView::empty());
    }
}

/// A cell that is stored in place takes all that is left of a cell when it
/// is read: it is read back where nothing follows it.
impl CellCodecWhole for Cell {
    proof fn lemma_whole_round_trip(v: CellView) {
        let _own = (Self::storable(v), Self::stored(v), Self::parsed(v));
    }
}

/// A strategy that reads values back from the piece of a cell that stands
/// for them, whatever follows it.
pub trait CellCodecAs<T: DeepView>: CellSerializeAs<T> + CellDeserializeAs<T> {
    /// Reading by the strategy what was stored by it gives the value that
    /// was stored, and takes exactly the bits and references that stand for
    /// it.
    proof fn lemma_cell_round_trip_as(v: T::V, rest: CellView)
        requires
            Self::storable_as(v),
        ensures
            Self::parsed_as(Self::stored_as(v).append(rest)) == Ok::<(T::V, nat, nat), Failure>(
                (v, Self::stored_as(v).data.len(), Self::stored_as(v).references.len()),
            ),
    ;
}

/// What is left of a piece followed by more, once the piece is taken.
pub proof fn lemma_skip_piece(piece: CellView, rest: CellView)
    ensures
        piece.append(rest).skip(piece.data.len(), piece.references.len()) == rest,
{
    let whole = piece.append(rest);
    assert(whole.data.skip(piece.data.len() as int) =~= rest.data);
    assert(whole.references.skip(piece.references.len() as int) =~= rest.references);
}

/// What is left of a tagged piece followed by more, once the tag is taken.
pub proof fn lemma_skip_tag(tag: bool, piece: CellView, rest: CellView)
    ensures
        tagged(tag, piece).append(rest).skip(1, 0) == piece.append(rest),
        tagged(tag, piece).append(rest).data.len() > 0,
        tagged(tag, piece).append(rest).data[0] == tag,
        tagged(tag, piece).data.len() == piece.data.len() + 1,
        tagged(tag, piece).references.len() == piece.references.len(),
{
    let whole = tagged(tag, piece).append(rest);
    assert(whole.data.skip(1) =~= piece.data + rest.data);
    assert(whole.references.skip(0) =~= piece.references + rest.references);
    assert(tagged(tag, piece).references =~= piece.references);
}

impl CellCodec for () {
    proof fn lemma_cell_round_trip(v: (), rest: CellView) {
        let _own = (Self::storable(v), Self::stored(v), Self::parsed(rest));
    }
}

impl<T: CellCodec> CellCodec for Box<T> {
    proof fn lemma_cell_round_trip(v: T::V, rest: CellView) {
        let _own = (Self::storable(v), Self::stored(v), Self::parsed(rest));
        T::lemma_cell_round_trip(v, rest);
    }
}

impl<T: CellCodec> CellCodec for Arc<T> {
    proof fn lemma_cell_round_trip(v: T::V, rest: CellView) {
        let _own = (Self::storable(v), Self::stored(v), Self::parsed(rest));
        T::lemma_cell_round_trip(v, rest);
    }
}

impl<T: CellCodec> CellCodecAs<T> for Same {
    proof fn lemma_cell_round_trip_as(v: T::V, rest: CellView) {
        let _own = (
            <Self as CellSerializeAs<T>>::storable_as(v),
            <Self as CellSerializeAs<T>>::stored_as(v),
            <Self as CellDeserializeAs<T>>::parsed_as(rest),
        );
        T::lemma_cell_round_trip(v, rest);
    }
}

impl<T: DeepView, As: BitCodecAs<T>> CellCodecAs<T> for Data<As> {
    proof fn lemma_cell_round_trip_as(v: T::V, rest: CellView) {
        let _own = (
            <Self as CellSerializeAs<T>>::storable_as(v),
            <Self as CellSerializeAs<T>>::stored_as(v),
            <Self as CellDeserializeAs<T>>::parsed_as(rest),
        );
        As::lemma_round_trip_as(v, rest.data);
        assert(bits_only(As::encoding_as(v)).references =~= Seq::<CellView>::empty());
    }
}

impl<T: DeepView, As: CellCodecAs<T>> CellCodecAs<T> for Ref<As> {
    proof fn lemma_cell_round_trip_as(v: T::V, rest: CellView) {
        let _own = (
            <Self as CellSerializeAs<T>>::storable_as(v),
            <Self as CellSerializeAs<T>>::stored_as(v),
            <Self as CellDeserializeAs<T>>::parsed_as(rest),
        );
        let child = As::stored_as(v);
        As::lemma_cell_round_trip_as(v, CellView::empty());
        lemma_append_assoc(child, CellView::empty(), CellView::empty());
        let whole = reference_only(child).append(rest);
        assert(whole.references[0] == child);
        assert(reference_only(child).data =~= Seq::<bool>::empty());
    }
}

impl<A: DeepView, B: DeepView, AsA: CellCodecAs<A>, AsB: CellCodecAs<B>> CellCodecAs<
    Either<A, B>,
> for Either<AsA, AsB> {
    proof fn lemma_cell_round_trip_as(v: Either<A::V, B::V>, rest: CellView) {
        let _own = (
            <Self as CellSerializeAs<Either<A, B>>>::storable_as(v),
            <Self as CellSerializeAs<Either<A, B>>>::stored_as(v),
            <Self as CellDeserializeAs<Either<A, B>>>::parsed_as(rest),
        );
        match v {
            Either::Left(l) => {
                lemma_skip_tag(false, AsA::stored_as(l), rest);
                AsA::lemma_cell_round_trip_as(l, rest);
            },
            Either::Right(r) => {
                lemma_skip_tag(true, AsB::stored_as(r), rest);
                AsB::lemma_cell_round_trip_as(r, rest);
            },
        }
    }
}

impl<T: DeepView, As: CellCodecAs<T>> CellCodecAs<Option<T>> for Either<(), As> {
    proof fn lemma_cell_round_trip_as(v: Option<T::V>, rest: CellView) {
        let _own = (
            <Self as CellSerializeAs<Option<T>>>::storable_as(v),
            <Self as CellSerializeAs<Option<T>>>::stored_as(v),
            <Self as CellDeserializeAs<Option<T>>>::parsed_as(rest),
        );
        match v {
            None => {
                lemma_skip_tag(false, CellView::empty(), rest);
            },
            Some(x) => {
                lemma_skip_tag(true, As::stored_as(x), rest);
                As::lemma_cell_round_trip_as(x, rest);
            },
        }
    }
}

impl<T: DeepView, As: CellCodecAs<T>> CellCodecAs<Option<T>> for Option<As> {
    proof fn lemma_cell_round_trip_as(v: Option<T::V>, rest: CellView) {
        let _own = (
            <Self as CellSerializeAs<Option<T>>>::storable_as(v),
            <Self as CellSerializeAs<Option<T>>>::stored_as(v),
            <Self as CellDeserializeAs<Option<T>>>::parsed_as(rest),
        );
        match v {
            None => {
                lemma_skip_tag(false, CellView::empty(), rest);
            },
            Some(x) => {
                lemma_skip_tag(true, As::stored_as(x), rest);
                As::lemma_cell_round_trip_as(x, rest);
            },
        }
    }
}

impl<A: CellCodec, B: CellCodec> CellCodec for Either<A, B> {
    proof fn lemma_cell_round_trip(v: Either<A::V, B::V>, rest: CellView) {
        let _own = (Self::storable(v), Self::stored(v), Self::parsed(rest));
        match v {
            Either::Left(l) => {
                lemma_skip_tag(false, A::stored(l), rest);
                A::lemma_cell_round_trip(l, rest);
            },
            Either::Right(r) => {
                lemma_skip_tag(true, B::stored(r), rest);
                B::lemma_cell_round_trip(r, rest);
            },
        }
    }
}

impl<T: CellCodec> CellCodec for Option<T> {
    proof fn lemma_cell_round_trip(v: Option<T::V>, rest: CellView) {
        let _own = (Self::storable(v), Self::stored(v), Self::parsed(rest));
        match v {
            None => {
                lemma_skip_tag(false, CellView::empty(), rest);
            },
            Some(x) => {
                lemma_skip_tag(true, T::stored(x), rest);
                T::lemma_cell_round_trip(x, rest);
            },
        }
    }
}

/// A cell that is stored in place and fills the rest of a cell is read back
/// as it was.
pub proof fn lemma_whole_cell_round_trip(v: CellView)
    ensures
        parsed_fully_as::<Cell, Same>(Cell::stored(v)) == Ok::<CellView, Failure>(v),
{
}

/// A cell that is stored behind a reference is read back as it was,
/// whatever follows the reference.
pub proof fn lemma_referenced_cell_round_trip(v: CellView, rest: CellView)
    ensures
        <Ref<Same> as CellDeserializeAs<Cell>>::parsed_as(
            <Ref<Same> as CellSerializeAs<Cell>>::stored_as(v).append(rest),
        ) == Ok::<(CellView, nat, nat), Failure>((v, 0, 1)),
{
    let whole = reference_only(v).append(rest);
    assert(whole.references[0] == v);
}

} // verus!
