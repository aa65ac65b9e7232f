//! What holds of every value that is written and read back.

use crate::builder::bits_only;
use crate::cell::CellView;
use crate::cell_codec::CellCodecAs;
use crate::cell_de::{CellDeserialize, CellDeserializeAs, parsed_front_as, parsed_fully_as};
use crate::cell_ser::{CellSerialize, CellSerializeAs, lemma_append_assoc};
use crate::codec::{BitCodec, BitCodecAs};
use crate::de::{BitUnpack, decode_fully};
use crate::de_as::{BitUnpackAs, DefaultOnNone, DefaultValue, decode_front_as, decode_fully_as};
use crate::error::{ErrorKind, Failure};
use crate::ser::BitPack;
use crate::ser_as::{BitPackAs, Same};
use std::rc::Rc;
use std::sync::Arc;
use vstd::prelude::*;

verus! {

/// Reading all of what stands for a value gives the value.
pub proof fn lemma_unpack_fully_of_pack<T: BitCodec>(v: T::V)
    requires
        T::packable(v),
    ensures
        decode_fully::<T>(T::encoding(v)) == Ok::<T::V, Failure>(v),
{
    T::lemma_round_trip(v, Seq::empty());
    assert(T::encoding(v) + Seq::<bool>::empty() =~= T::encoding(v));
}

/// Reading by a strategy all of what stands for a value under that
/// strategy gives the value.
pub proof fn lemma_unpack_fully_as_of_pack_as<T: DeepView, As: BitCodecAs<T>>(v: T::V)
    requires
        As::packable_as(v),
    ensures
        decode_fully_as::<T, As>(As::encoding_as(v)) == Ok::<T::V, Failure>(v),
{
    As::lemma_round_trip_as(v, Seq::empty());
    assert(As::encoding_as(v) + Seq::<bool>::empty() =~= As::encoding_as(v));
}

/// An optional value that is not there is one 0 bit; one that is there is
/// one 1 bit and then exactly the bits of the value.
pub proof fn lemma_maybe_shape<T: BitPack>(x: T::V)
    ensures
        Option::<T>::encoding(None) == seq![false],
        Option::<T>::encoding(Some(x)) == seq![true] + T::encoding(x),
{
}

/// Under a strategy, an optional value that is not there is one 0 bit; one
/// that is there is one 1 bit and then exactly the bits that the strategy
/// gives the value.
pub proof fn lemma_maybe_shape_as<T: DeepView, As: BitPackAs<T>>(x: T::V)
    ensures
        <Option<As> as BitPackAs<Option<T>>>::encoding_as(None) == seq![false],
        <Option<As> as BitPackAs<Option<T>>>::encoding_as(Some(x)) == seq![true]
            + As::encoding_as(x),
{
}

/// In a cell, an optional value that is not there is one 0 bit and no
/// reference; one that is there is one 1 bit and then exactly the bits and
/// references of the value.
pub proof fn lemma_maybe_shape_in_cell<T: CellSerialize>(x: T::V)
    ensures
        Option::<T>::stored(None) == bits_only(seq![false]),
        Option::<T>::stored(Some(x)) == bits_only(seq![true]).append(T::stored(x)),
{
    lemma_append_assoc(bits_only(seq![false]), CellView::empty(), CellView::empty());
}

/// One bit after what stands for a value: reading the front gives the
/// value, reading all is an error of kind `TrailingData`.
pub proof fn lemma_one_trailing_bit<T: BitCodec>(v: T::V, bit: bool)
    requires
        T::packable(v),
    ensures
        decode_fully::<T>(T::encoding(v).push(bit)) == Err::<T::V, Failure>(
            Failure::of(ErrorKind::TrailingData),
        ),
        T::decode(T::encoding(v).push(bit)) matches Ok((x, _)) && x == v,
{
    T::lemma_round_trip(v, seq![bit]);
    assert(T::encoding(v) + seq![bit] =~= T::encoding(v).push(bit));
}

/// One bit after what stands for a value under a strategy: reading the
/// front gives the value, reading all is an error of kind `TrailingData`.
pub proof fn lemma_one_trailing_bit_as<T: DeepView, As: BitCodecAs<T>>(v: T::V, bit: bool)
    requires
        As::packable_as(v),
    ensures
        decode_fully_as::<T, As>(As::encoding_as(v).push(bit)) == Err::<T::V, Failure>(
            Failure::of(ErrorKind::TrailingData),
        ),
        decode_front_as::<T, As>(As::encoding_as(v).push(bit)) == Ok::<T::V, Failure>(v),
{
    As::lemma_round_trip_as(v, seq![bit]);
    assert(As::encoding_as(v) + seq![bit] =~= As::encoding_as(v).push(bit));
}

/// One bit after what stands for a value in a cell: reading the front of
/// the cell gives the value, reading all of the cell is an error of kind
/// `TrailingData`.
pub proof fn lemma_one_trailing_bit_in_cell<T: DeepView, As: CellCodecAs<T>>(v: T::V, bit: bool)
    requires
        As::storable_as(v),
    ensures
        parsed_fully_as::<T, As>(As::stored_as(v).append(bits_only(seq![bit]))) == Err::<
            T::V,
            Failure,
        >(Failure::of(ErrorKind::TrailingData)),
        parsed_front_as::<T, As>(As::stored_as(v).append(bits_only(seq![bit]))) == Ok::<
            T::V,
            Failure,
        >(v),
{
    As::lemma_cell_round_trip_as(v, bits_only(seq![bit]));
}

/// Reading all of a cell that holds what stands for a value, and nothing
/// else, gives the value.
pub proof fn lemma_parse_fully_of_store<T: DeepView, As: CellCodecAs<T>>(v: T::V)
    requires
        As::storable_as(v),
    ensures
        parsed_fully_as::<T, As>(As::stored_as(v)) == Ok::<T::V, Failure>(v),
{
    As::lemma_cell_round_trip_as(v, CellView::empty());
    lemma_append_assoc(As::stored_as(v), CellView::empty(), CellView::empty());
}

/// The strategy `Same` changes nothing: it writes and reads a value as the
/// value's own type does.
pub proof fn lemma_same_is_transparent<T: BitPack + BitUnpack>(v: T::V, bits: Seq<bool>)
    ensures
        <Same as BitPackAs<T>>::packable_as(v) == T::packable(v),
        <Same as BitPackAs<T>>::encoding_as(v) == T::encoding(v),
        <Same as BitUnpackAs<T>>::decode_as(bits) == T::decode(bits),
{
}

/// In cells, the strategy `Same` changes nothing: it stores and reads a
/// value as the value's own type does.
pub proof fn lemma_same_is_transparent_in_cell<T: CellSerialize + CellDeserialize>(
    v: T::V,
    rest: CellView,
)
    ensures
        <Same as CellSerializeAs<T>>::storable_as(v) == T::storable(v),
        <Same as CellSerializeAs<T>>::stored_as(v) == T::stored(v),
        <Same as CellDeserializeAs<T>>::parsed_as(rest) == T::parsed(rest),
{
}

/// A strategy for values is a strategy for boxed and for shared values,
/// with the same bits.
pub proof fn lemma_pointers_are_transparent<T: DeepView, As: BitPackAs<T> + BitUnpackAs<T>>(
    v: T::V,
    bits: Seq<bool>,
)
    ensures
        <Box<As> as BitPackAs<Box<T>>>::encoding_as(v) == As::encoding_as(v),
        <Rc<As> as BitPackAs<Rc<T>>>::encoding_as(v) == As::encoding_as(v),
        <Arc<As> as BitPackAs<Arc<T>>>::encoding_as(v) == As::encoding_as(v),
        <Box<As> as BitPackAs<Box<T>>>::packable_as(v) == As::packable_as(v),
        <Rc<As> as BitPackAs<Rc<T>>>::packable_as(v) == As::packable_as(v),
        <Arc<As> as BitPackAs<Arc<T>>>::packable_as(v) == As::packable_as(v),
        <Box<As> as BitUnpackAs<Box<T>>>::decode_as(bits) == As::decode_as(bits),
        <Rc<As> as BitUnpackAs<Rc<T>>>::decode_as(bits) == As::decode_as(bits),
        <Arc<As> as BitUnpackAs<Arc<T>>>::decode_as(bits) == As::decode_as(bits),
{
}

/// Where an optional value is not there, the strategy `DefaultOnNone` gives
/// the default value of the type, and no error.
pub proof fn lemma_default_on_none<T: DefaultValue, As: BitUnpackAs<T>>(rest: Seq<bool>)
    ensures
        <DefaultOnNone<As> as BitUnpackAs<T>>::decode_as(seq![false] + rest) == Ok::<
            (T::V, nat),
            Failure,
        >((T::default_view(), 1)),
{
}

} // verus!
