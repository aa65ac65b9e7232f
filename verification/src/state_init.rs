//! The initial state of a contract.

use crate::builder::{CellBuilder, bits_only, reference_only};
use crate::cell::{Cell, CellView};
use crate::cell_codec::{CellCodec, CellCodecWhole, lemma_skip_piece};
use crate::cell_de::{CellDeserialize, parse_part_as};
use crate::cell_either::tagged;
use crate::cell_ser::{
    CellSerialize, CellSerializeAs, Data, Ref, fits_cell, lemma_append_assoc, store_part_as,
};
use crate::codec::{BitCodec, BitCodecAs};
use crate::de::BitUnpack;
use crate::de_as::BitUnpackAs;
use crate::error::{Context, Error, ErrorKind, Failure};
use crate::integer::NBits;
use crate::parser::{CellParser, bits_taken};
use crate::reader::BitReader;
use crate::ser::BitPack;
use crate::ser_as::{BitPackAs, Same};
use crate::writer::BitWriter;
use vstd::prelude::*;
use crate::builder::bits_room;
use crate::builder::storable_after;

verus! {

/// Whether a contract is called at the start and at the end of every block.
#[derive(Debug, Clone, Copy, PartialEq, Eq)]
pub struct TickTock {
    pub tick: bool,
    pub tock: bool,
}

impl DeepView for TickTock {
    type V = TickTock;

    open spec fn deep_view(&self) -> TickTock {
        *self
    }
}

impl BitPack for TickTock {
    open spec fn packable(v: TickTock) -> bool {
        true
    }

    open spec fn encoding(v: TickTock) -> Seq<bool> {
        seq![v.tick, v.tock]
    }

    open spec fn failure(v: TickTock, room: nat) -> Failure {
        <(bool, bool) as BitPack>::failure((v.tick, v.tock), room)
    }

    fn pack<W: BitWriter>(&self, writer: &mut W) -> (r: Result<(), Error>) {
        let ghost _own = (
            Self::packable(self.deep_view()),
            Self::encoding(self.deep_view()),
            Self::failure(self.deep_view(), writer.room()),
        );
        assert(<(bool, bool) as BitPack>::encoding((self.tick, self.tock)) =~= seq![
            self.tick,
            self.tock,
        ]);
        (self.tick, self.tock).pack(writer)
    }
}

impl BitUnpack for TickTock {
    open spec fn decode(bits: Seq<bool>) -> Result<(TickTock, nat), Failure> {
        if bits.len() == 0 {
            Err(Failure::of(ErrorKind::Exhaustion).at(Context::Slot(0)))
        } else if bits.len() == 1 {
            Err(Failure::of(ErrorKind::Exhaustion).at(Context::Slot(1)))
        } else {
            Ok((TickTock { tick: bits[0], tock: bits[1] }, 2))
        }
    }

    proof fn lemma_decode_within(bits: Seq<bool>) {
        let _own = Self::decode(bits);
    }

    fn unpack<R: BitReader>(reader: &mut R) -> (r: Result<Self, Error>) {
        let ghost _own = Self::decode(reader.remaining());
        let ghost all = reader.remaining();
        let (tick, tock) = match <(bool, bool)>::unpack(reader) {
            Ok(v) => v,
            Err(e) => {
                return Err(e);
            },
        };
        proof {
            if all.len() >= 2 {
                assert(all.skip(1)[0] == all[1]);
            }
        }
        Ok(TickTock { tick, tock })
    }
}

impl BitCodec for TickTock {
    proof fn lemma_round_trip(v: TickTock, rest: Seq<bool>) {
        let _own = (Self::packable(v), Self::encoding(v), Self::decode(rest));
    }
}

/// The initial state of a contract: its code and its data, each in a cell
/// of its own if it is there. Libraries are not held.
#[derive(Debug, Clone, PartialEq, Eq)]
pub struct StateInit<IC = Cell, ID = Cell> {
    /// How deep the contract may be split, below 32.
    pub split_depth: Option<u8>,
    /// Whether the contract is called at the start and the end of blocks.
    pub special: Option<TickTock>,
    /// The code.
    pub code: Option<IC>,
    /// The data.
    pub data: Option<ID>,
}

/// What an initial state holds.
pub ghost struct StateInitView<C, D> {
    pub split_depth: Option<u8>,
    pub special: Option<TickTock>,
    pub code: Option<C>,
    pub data: Option<D>,
}

impl<IC: DeepView, ID: DeepView> DeepView for StateInit<IC, ID> {
    type V = StateInitView<IC::V, ID::V>;

    open spec fn deep_view(&self) -> StateInitView<IC::V, ID::V> {
        StateInitView {
            split_depth: self.split_depth,
            special: self.special,
            code: match self.code {
                Some(c) => Some(c.deep_view()),
                None => None,
            },
            data: match self.data {
                Some(d) => Some(d.deep_view()),
                None => None,
            },
        }
    }
}

/// The strategy for the two parts at the front of an initial state.
pub type FrontAs = Data<(Option<NBits<5>>, Same)>;

/// The strategy for code and data: in a cell of its own, if it is there.
pub type MaybeRef = Option<Ref<Same>>;

/// The strategy for the empty list of libraries.
pub type NoLibraries = Data<Same>;

/// The piece of a cell that stands for the two optional values at the
/// front of an initial state.
pub open spec fn front_piece(split_depth: Option<u8>, special: Option<TickTock>) -> CellView {
    bits_only(
        <(Option<NBits<5>>, Same) as BitPackAs<(Option<u8>, Option<TickTock>)>>::encoding_as(
            (split_depth, special),
        ),
    )
}

/// Whether the two optional values at the front of an initial state can be
/// stored: a depth has to be below 32.
pub open spec fn front_storable(split_depth: Option<u8>, special: Option<TickTock>) -> bool {
    <(Option<NBits<5>>, Same) as BitPackAs<(Option<u8>, Option<TickTock>)>>::packable_as(
        (split_depth, special),
    )
}

/// The piece of a cell that stands for an optional value in a cell of its
/// own: one 0 bit if it is not there, one 1 bit and a reference if it is.
pub open spec fn maybe_ref_piece<T: CellSerialize>(v: Option<T::V>) -> CellView {
    match v {
        None => tagged(false, CellView::empty()),
        Some(x) => tagged(true, reference_only(T::stored(x))),
    }
}

/// Whether an optional value can be stored in a cell of its own.
pub open spec fn maybe_ref_storable<T: CellSerialize>(v: Option<T::V>) -> bool {
    match v {
        None => true,
        Some(x) => T::storable(x) && fits_cell(T::stored(x)),
    }
}

/// The failure of storing the two optional values at the front of an
/// initial state.
pub open spec fn front_failure(
    split_depth: Option<u8>,
    special: Option<TickTock>,
    before: CellView,
) -> Failure {
    <(Option<NBits<5>>, Same) as BitPackAs<(Option<u8>, Option<TickTock>)>>::failure_as(
        (split_depth, special),
        bits_room(before),
    )
}

/// The failure of storing an optional value in a cell of its own: of kind
/// `Capacity` where the bit or the reference does not fit, else what keeps
/// the value out of a cell of its own.
pub open spec fn maybe_ref_failure<T: CellSerialize>(v: Option<T::V>, before: CellView) -> Failure {
    <MaybeRef as CellSerializeAs<Option<T>>>::store_failure_as(v, before)
}

/// The piece of a cell that stands for an initial state, from its parts:
/// the two optional values at the front, the code, the data, and one 0 bit
/// for the empty list of libraries.
pub open spec fn state_pieces(front: CellView, code: CellView, data: CellView) -> CellView {
    front.append(code).append(data).append(bits_only(seq![false]))
}

impl<IC: CellSerialize, ID: CellSerialize> CellSerialize for StateInit<IC, ID> {
    open spec fn storable(v: StateInitView<IC::V, ID::V>) -> bool {
        &&& front_storable(v.split_depth, v.special)
        &&& maybe_ref_storable::<IC>(v.code)
        &&& maybe_ref_storable::<ID>(v.data)
    }

    open spec fn stored(v: StateInitView<IC::V, ID::V>) -> CellView {
        state_pieces(
            front_piece(v.split_depth, v.special),
            maybe_ref_piece::<IC>(v.code),
            maybe_ref_piece::<ID>(v.data),
        )
    }

    open spec fn store_failure(v: StateInitView<IC::V, ID::V>, before: CellView) -> Failure {
        let front = front_piece(v.split_depth, v.special);
        let code = maybe_ref_piece::<IC>(v.code);
        let data = maybe_ref_piece::<ID>(v.data);
        if !storable_after(front_storable(v.split_depth, v.special), before, front) {
            front_failure(v.split_depth, v.special, before).at(Context::Field("front"))
        } else if !storable_after(maybe_ref_storable::<IC>(v.code), before.append(front), code) {
            maybe_ref_failure::<IC>(v.code, before.append(front)).at(Context::Field("code"))
        } else if !storable_after(
            maybe_ref_storable::<ID>(v.data),
            before.append(front).append(code),
            data,
        ) {
            maybe_ref_failure::<ID>(v.data, before.append(front).append(code)).at(
                Context::Field("data"),
            )
        } else {
            Failure::of(ErrorKind::Capacity).at(Context::Field("library"))
        }
    }

    fn store(&self, builder: &mut CellBuilder) -> (r: Result<(), Error>) {
        let ghost _own = (
            Self::storable(self.deep_view()),
            Self::stored(self.deep_view()),
            Self::store_failure(self.deep_view(), builder.deep_view()),
        );
        // the parts go to a copy, which takes the place of the builder once
        // all of them are stored
        let mut scratch = builder.snapshot();
        let ghost start = scratch.deep_view();
        let ghost v = self.deep_view();
        let ghost front = front_piece(v.split_depth, v.special);
        let ghost code = maybe_ref_piece::<IC>(v.code);
        let ghost data = maybe_ref_piece::<ID>(v.data);
        store_part_as::<(Option<u8>, Option<TickTock>), FrontAs>(
            &(self.split_depth, self.special),
            &mut scratch,
            Context::Field("front"),
        )?;
        store_part_as::<Option<IC>, MaybeRef>(
            &self.code,
            &mut scratch,
            Context::Field("code"),
        )?;
        store_part_as::<Option<ID>, MaybeRef>(
            &self.data,
            &mut scratch,
            Context::Field("data"),
        )?;
        store_part_as::<bool, NoLibraries>(
            &false,
            &mut scratch,
            Context::Field("library"),
        )?;
        proof {
            lemma_append_assoc(start, front, code);
            lemma_append_assoc(start, front.append(code), data);
            lemma_append_assoc(start, front.append(code).append(data), bits_only(seq![false]));
        }
        *builder = scratch;
        Ok(())
    }
}

/// What a cell holds after the two optional values at the front of an
/// initial state.
pub open spec fn front_parsed(rest: CellView) -> Result<
    ((Option<u8>, Option<TickTock>), nat, nat),
    Failure,
> {
    bits_taken(
        <(Option<NBits<5>>, Same) as BitUnpackAs<(Option<u8>, Option<TickTock>)>>::decode_as(
            rest.data,
        ),
    )
}

/// An optional value in a cell of its own, read from one bit and, after a
/// 1, from the cell that the next reference leads to.
pub open spec fn maybe_ref_parsed<T: CellDeserialize>(rest: CellView) -> Result<
    (Option<T::V>, nat, nat),
    Failure,
> {
    if rest.data.len() == 0 {
        Err(Failure::of(ErrorKind::Exhaustion).at(Context::Field("tag")))
    } else if !rest.data[0] {
        Ok((None, 1, 0))
    } else if rest.references.len() == 0 {
        Err(Failure::of(ErrorKind::Exhaustion).at(Context::Field("right")))
    } else {
        match T::parsed(rest.references[0]) {
            Err(e) => Err(e.at(Context::Field("right"))),
            Ok((v, n, k)) => if n == rest.references[0].data.len() && k
                == rest.references[0].references.len() {
                Ok((Some(v), 1, 1))
            } else {
                Err(Failure::of(ErrorKind::TrailingData).at(Context::Field("right")))
            },
        }
    }
}

/// The bit that stands for the list of libraries.
pub open spec fn libraries_parsed(rest: CellView) -> Result<(bool, nat, nat), Failure> {
    bits_taken(bool::decode(rest.data))
}

impl<IC: CellDeserialize, ID: CellDeserialize> CellDeserialize for StateInit<IC, ID> {
    open spec fn parsed(rest: CellView) -> Result<(StateInitView<IC::V, ID::V>, nat, nat), Failure> {
        match front_parsed(rest) {
            Err(e) => Err(e.at(Context::Field("front"))),
            Ok(((split_depth, special), n0, k0)) => match maybe_ref_parsed::<IC>(rest.skip(n0, k0)) {
                Err(e) => Err(e.at(Context::Field("code"))),
                Ok((code, n1, k1)) => match maybe_ref_parsed::<ID>(rest.skip(n0 + n1, k0 + k1)) {
                    Err(e) => Err(e.at(Context::Field("data"))),
                    Ok((data, n2, k2)) => match libraries_parsed(
                        rest.skip(n0 + n1 + n2, k0 + k1 + k2),
                    ) {
                        Err(e) => Err(e.at(Context::Field("library"))),
                        Ok((libraries, n3, k3)) => if libraries {
                            Err(Failure::of(ErrorKind::Custom))
                        } else {
                            Ok(
                                (
                                    StateInitView { split_depth, special, code, data },
                                    n0 + n1 + n2 + n3,
                                    k0 + k1 + k2 + k3,
                                ),
                            )
                        },
                    },
                },
            },
        }
    }

    proof fn lemma_parsed_within(rest: CellView) {
        let _own = Self::parsed(rest);
        <(Option<NBits<5>>, Same) as BitUnpackAs<
            (Option<u8>, Option<TickTock>),
        >>::lemma_decode_as_within(rest.data);
    }

    fn parse<'a>(parser: &mut CellParser<'a>) -> (r: Result<Self, Error>) {
        let ghost _own = Self::parsed(parser.deep_view());
        let ghost all = parser.deep_view();
        proof {
            assert(all.data.skip(0) =~= all.data);
            assert(all.references.skip(0) =~= all.references);
        }
        let (split_depth, special) = parse_part_as::<(Option<u8>, Option<TickTock>), FrontAs>(
            parser,
            Context::Field("front"),
            Ghost(all),
            Ghost(0),
            Ghost(0),
        )?;
        let ghost f = front_parsed(all)->Ok_0;
        let code = parse_part_as::<Option<IC>, MaybeRef>(
            parser,
            Context::Field("code"),
            Ghost(all),
            Ghost(f.1),
            Ghost(f.2),
        )?;
        let ghost c = maybe_ref_parsed::<IC>(all.skip(f.1, f.2))->Ok_0;
        let data = parse_part_as::<Option<ID>, MaybeRef>(
            parser,
            Context::Field("data"),
            Ghost(all),
            Ghost(f.1 + c.1),
            Ghost(f.2 + c.2),
        )?;
        let ghost d = maybe_ref_parsed::<ID>(all.skip(f.1 + c.1, f.2 + c.2))->Ok_0;
        let libraries = parse_part_as::<bool, NoLibraries>(
            parser,
            Context::Field("library"),
            Ghost(all),
            Ghost(f.1 + c.1 + d.1),
            Ghost(f.2 + c.2 + d.2),
        )?;
        if libraries {
            return Err(Error::new(ErrorKind::Custom));
        }
        Ok(StateInit { split_depth, special, code, data })
    }
}

/// An optional value in a cell of its own is read back as it was stored,
/// whatever follows it.
pub proof fn lemma_maybe_ref_round_trip<T: CellCodecWhole>(v: Option<T::V>, rest: CellView)
    requires
        maybe_ref_storable::<T>(v),
    ensures
        maybe_ref_parsed::<T>(maybe_ref_piece::<T>(v).append(rest)) == Ok::<
            (Option<T::V>, nat, nat),
            Failure,
        >((v, maybe_ref_piece::<T>(v).data.len(), maybe_ref_piece::<T>(v).references.len())),
        maybe_ref_piece::<T>(v).data.len() == 1,
{
    match v {
        None => {
            crate::cell_codec::lemma_skip_tag(false, CellView::empty(), rest);
            assert(tagged(false, CellView::empty()).references =~= Seq::<CellView>::empty());
        },
        Some(x) => {
            let child = T::stored(x);
            crate::cell_codec::lemma_skip_tag(true, reference_only(child), rest);
            T::lemma_whole_round_trip(x);
            let whole = maybe_ref_piece::<T>(v).append(rest);
            assert(whole.references[0] == child);
            assert(maybe_ref_piece::<T>(v).references =~= seq![child]);
            assert(maybe_ref_piece::<T>(v).data =~= seq![true]);
        },
    }
}

/// The two optional values at the front of an initial state are read back
/// as they were stored, whatever follows them.
pub proof fn lemma_front_round_trip(
    split_depth: Option<u8>,
    special: Option<TickTock>,
    rest: CellView,
)
    requires
        front_storable(split_depth, special),
    ensures
        front_parsed(front_piece(split_depth, special).append(rest)) == Ok::<
            ((Option<u8>, Option<TickTock>), nat, nat),
            Failure,
        >(((split_depth, special), front_piece(split_depth, special).data.len(), 0)),
        front_piece(split_depth, special).references.len() == 0,
{
    <(Option<NBits<5>>, Same) as BitCodecAs<(Option<u8>, Option<TickTock>)>>::lemma_round_trip_as(
        (split_depth, special),
        rest.data,
    );
}

/// An initial state keeps its code and its data each in a cell of its own:
/// it is read back whatever follows it as soon as the code and the data are
/// read back from cells that hold nothing else.
impl<IC: CellCodecWhole, ID: CellCodecWhole> CellCodec for StateInit<IC, ID> {
    proof fn lemma_cell_round_trip(v: StateInitView<IC::V, ID::V>, rest: CellView) {
        let _own = (Self::storable(v), Self::stored(v), Self::parsed(rest));
        let front = front_piece(v.split_depth, v.special);
        let code = maybe_ref_piece::<IC>(v.code);
        let data = maybe_ref_piece::<ID>(v.data);
        let last = bits_only(seq![false]);
        let whole = Self::stored(v).append(rest);
        let after_front = code.append(data.append(last.append(rest)));
        let after_code = data.append(last.append(rest));
        let after_data = last.append(rest);
        lemma_append_assoc(front.append(code).append(data), last, rest);
        lemma_append_assoc(front.append(code), data, last.append(rest));
        lemma_append_assoc(front, code, data.append(last.append(rest)));
        assert(whole == front.append(after_front));
        lemma_front_round_trip(v.split_depth, v.special, after_front);
        lemma_skip_piece(front, after_front);
        lemma_maybe_ref_round_trip::<IC>(v.code, after_code);
        lemma_skip_piece(code, after_code);
        lemma_maybe_ref_round_trip::<ID>(v.data, after_data);
        lemma_skip_piece(data, after_data);
        lemma_skip_piece(front.append(code), after_code);
        lemma_append_assoc(front, code, after_code);
        lemma_skip_piece(front.append(code).append(data), after_data);
        lemma_append_assoc(front.append(code), data, after_data);
        assert(after_data.data[0] == false);
        assert(last.references =~= Seq::<CellView>::empty());
    }
}

} // verus!
