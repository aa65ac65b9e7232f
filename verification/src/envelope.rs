//! Whole messages: the information that travels with a message, the initial
//! state of the contract that it is for, and its body.

use crate::builder::{CellBuilder, bits_only, reference_only};
use crate::cell::{Cell, CellView};
use crate::cell_codec::{CellCodec, CellCodecWhole, lemma_skip_piece, lemma_skip_tag};
use crate::codec::BitCodec;
use crate::cell_de::{CellDeserialize, parse_part_as, parsed_fully_as};
use crate::cell_either::tagged;
use crate::cell_ser::{CellSerialize, CellSerializeAs, Ref, fits_cell, lemma_append_assoc, store_part_as, to_cell_as};
use crate::de::BitUnpack;
use crate::either::Either;
use crate::error::{Context, Error, ErrorKind, Failure, seen_at};
use crate::message::{
    CommonMsgInfo, CommonMsgInfoView, InternalMsgInfo, InternalMsgInfoView,
};
use crate::parser::{CellParser, bits_taken, parse_outcome};
use crate::ser::BitPack;
use crate::ser_as::Same;
use crate::state_init::{StateInit, StateInitView};
use crate::reader::BitReader;
use vstd::prelude::*;
use crate::builder::bits_room;
use crate::builder::storable_after;

verus! {

impl CellSerialize for InternalMsgInfo {
    open spec fn storable(v: InternalMsgInfoView) -> bool {
        <InternalMsgInfo as BitPack>::packable(v)
    }

    open spec fn stored(v: InternalMsgInfoView) -> CellView {
        bits_only(<InternalMsgInfo as BitPack>::encoding(v))
    }

    open spec fn store_failure(v: InternalMsgInfoView, before: CellView) -> Failure {
        <InternalMsgInfo as BitPack>::failure(v, bits_room(before))
    }

    fn store(&self, builder: &mut CellBuilder) -> (r: Result<(), Error>) {
        let ghost _own = (
            Self::storable(self.deep_view()),
            Self::stored(self.deep_view()),
            Self::store_failure(self.deep_view(), builder.deep_view()),
        );
        builder.pack::<&InternalMsgInfo>(self)
    }
}

impl CellDeserialize for InternalMsgInfo {
    open spec fn parsed(rest: CellView) -> Result<(InternalMsgInfoView, nat, nat), Failure> {
        bits_taken(<InternalMsgInfo as BitUnpack>::decode(rest.data))
    }

    proof fn lemma_parsed_within(rest: CellView) {
        let _own = Self::parsed(rest);
        <InternalMsgInfo as BitUnpack>::lemma_decode_within(rest.data);
    }

    fn parse<'a>(parser: &mut CellParser<'a>) -> (r: Result<Self, Error>) {
        let ghost _own = Self::parsed(parser.deep_view());
        parser.unpack::<InternalMsgInfo>()
    }
}

impl CellSerialize for CommonMsgInfo {
    open spec fn storable(v: CommonMsgInfoView) -> bool {
        <CommonMsgInfo as BitPack>::packable(v)
    }

    open spec fn stored(v: CommonMsgInfoView) -> CellView {
        bits_only(<CommonMsgInfo as BitPack>::encoding(v))
    }

    open spec fn store_failure(v: CommonMsgInfoView, before: CellView) -> Failure {
        <CommonMsgInfo as BitPack>::failure(v, bits_room(before))
    }

    fn store(&self, builder: &mut CellBuilder) -> (r: Result<(), Error>) {
        let ghost _own = (
            Self::storable(self.deep_view()),
            Self::stored(self.deep_view()),
            Self::store_failure(self.deep_view(), builder.deep_view()),
        );
        builder.pack::<&CommonMsgInfo>(self)
    }
}

impl CellDeserialize for CommonMsgInfo {
    open spec fn parsed(rest: CellView) -> Result<(CommonMsgInfoView, nat, nat), Failure> {
        bits_taken(<CommonMsgInfo as BitUnpack>::decode(rest.data))
    }

    proof fn lemma_parsed_within(rest: CellView) {
        let _own = Self::parsed(rest);
        <CommonMsgInfo as BitUnpack>::lemma_decode_within(rest.data);
    }

    fn parse<'a>(parser: &mut CellParser<'a>) -> (r: Result<Self, Error>) {
        let ghost _own = Self::parsed(parser.deep_view());
        parser.unpack::<CommonMsgInfo>()
    }
}

/// A message: the information that travels with it, the initial state of
/// the contract that it is for, if one is sent along, and its body.
#[derive(Debug, Clone, PartialEq, Eq)]
pub struct Message<T = Cell, IC = Cell, ID = Cell> {
    pub info: CommonMsgInfo,
    pub init: Option<StateInit<IC, ID>>,
    pub body: T,
}

/// What a message holds.
pub ghost struct MessageView<B, C, D> {
    pub info: CommonMsgInfoView,
    pub init: Option<StateInitView<C, D>>,
    pub body: B,
}

impl<T: DeepView, IC: DeepView, ID: DeepView> DeepView for Message<T, IC, ID> {
    type V = MessageView<T::V, IC::V, ID::V>;

    open spec fn deep_view(&self) -> MessageView<T::V, IC::V, ID::V> {
        MessageView {
            info: self.info.deep_view(),
            init: match self.init {
                Some(s) => Some(s.deep_view()),
                None => None,
            },
            body: self.body.deep_view(),
        }
    }
}

/// The piece of a cell that stands for the initial state of a message: one
/// 0 bit if none is sent along; else two 1 bits and a reference to a cell
/// that holds the initial state.
pub open spec fn init_piece<IC: CellSerialize, ID: CellSerialize>(
    init: Option<StateInitView<IC::V, ID::V>>,
) -> CellView {
    match init {
        None => tagged(false, CellView::empty()),
        Some(s) => tagged(true, tagged(true, reference_only(StateInit::<IC, ID>::stored(s)))),
    }
}

/// Whether the initial state of a message can be stored.
pub open spec fn init_storable<IC: CellSerialize, ID: CellSerialize>(
    init: Option<StateInitView<IC::V, ID::V>>,
) -> bool {
    match init {
        None => true,
        Some(s) => StateInit::<IC, ID>::storable(s) && fits_cell(StateInit::<IC, ID>::stored(s)),
    }
}

/// The failure of storing the initial state of a message: that of an
/// optional value whose strategy is one of two, nothing on the left and a
/// reference on the right.
pub open spec fn init_failure<IC: CellSerialize, ID: CellSerialize>(
    init: Option<StateInitView<IC::V, ID::V>>,
    before: CellView,
) -> Failure {
    <Option<Either<(), Ref<Same>>> as CellSerializeAs<
        Option<Option<&StateInit<IC, ID>>>,
    >>::store_failure_as(
        match init {
            Some(s) => Some(Some(s)),
            None => None,
        },
        before,
    )
}

/// The failure of storing the body of a message once it is in a cell of its
/// own: that of an optional cell whose strategy is one of two, nothing on
/// the left and a reference on the right.
pub open spec fn body_failure(body: CellView, before: CellView) -> Failure {
    <Either<(), Ref<Same>> as CellSerializeAs<Option<Cell>>>::store_failure_as(
        if body == CellView::empty() {
            None
        } else {
            Some(body)
        },
        before,
    )
}

/// The piece of a cell that stands for the body of a message: one 0 bit if
/// the body is empty; else one 1 bit and a reference to a cell that holds
/// the body.
pub open spec fn body_piece(body: CellView) -> CellView {
    if body == CellView::empty() {
        tagged(false, CellView::empty())
    } else {
        tagged(true, reference_only(body))
    }
}

impl<T: CellSerialize, IC: CellSerialize, ID: CellSerialize> CellSerialize for Message<T, IC, ID> {
    open spec fn storable(v: MessageView<T::V, IC::V, ID::V>) -> bool {
        &&& <CommonMsgInfo as BitPack>::packable(v.info)
        &&& init_storable::<IC, ID>(v.init)
        &&& T::storable(v.body)
        &&& fits_cell(T::stored(v.body))
    }

    open spec fn stored(v: MessageView<T::V, IC::V, ID::V>) -> CellView {
        bits_only(<CommonMsgInfo as BitPack>::encoding(v.info)).append(
            init_piece::<IC, ID>(v.init),
        ).append(body_piece(T::stored(v.body)))
    }

    open spec fn store_failure(v: MessageView<T::V, IC::V, ID::V>, before: CellView) -> Failure {
        let info = bits_only(<CommonMsgInfo as BitPack>::encoding(v.info));
        let init = init_piece::<IC, ID>(v.init);
        if !storable_after(<CommonMsgInfo as BitPack>::packable(v.info), before, info) {
            <CommonMsgInfo as BitPack>::failure(v.info, bits_room(before)).at(
                Context::Field("info"),
            )
        } else if !storable_after(init_storable::<IC, ID>(v.init), before.append(info), init) {
            init_failure::<IC, ID>(v.init, before.append(info)).at(Context::Field("init"))
        } else if !(T::storable(v.body) && fits_cell(T::stored(v.body))) {
            T::store_failure(v.body, CellView::empty()).at(Context::Field("body"))
        } else {
            body_failure(T::stored(v.body), before.append(info).append(init)).at(
                Context::Field("body"),
            )
        }
    }

    fn store(&self, builder: &mut CellBuilder) -> (r: Result<(), Error>) {
        let ghost _own = (
            Self::storable(self.deep_view()),
            Self::stored(self.deep_view()),
            Self::store_failure(self.deep_view(), builder.deep_view()),
        );
        // the parts go to a copy, which takes the place of the builder once
        // all of them are stored
        let mut scratch = builder.snapshot();
        let ghost start = scratch.deep_view();
        let ghost v = self.deep_view();
        let ghost info = bits_only(<CommonMsgInfo as BitPack>::encoding(v.info));
        let ghost init = init_piece::<IC, ID>(v.init);
        store_part_as::<CommonMsgInfo, Same>(
            &self.info,
            &mut scratch,
            Context::Field("info"),
        )?;
        let state: Option<Option<&StateInit<IC, ID>>> = match &self.init {
            Some(s) => Some(Some(s)),
            None => None,
        };
        store_part_as::<Option<Option<&StateInit<IC, ID>>>, Option<Either<(), Ref<Same>>>>(
            &state,
            &mut scratch,
            Context::Field("init"),
        )?;
        let cell = match to_cell_as::<T, Same>(&self.body) {
            Ok(c) => c,
            Err(e) => {
                return Err(e.context(Context::Field("body")));
            },
        };
        let payload: Option<Cell> = if cell.is_empty() {
            None
        } else {
            Some(cell)
        };
        store_part_as::<Option<Cell>, Either<(), Ref<Same>>>(
            &payload,
            &mut scratch,
            Context::Field("body"),
        )?;
        proof {
            lemma_append_assoc(start, info, init);
            lemma_append_assoc(start, info.append(init), body_piece(T::stored(v.body)));
        }
        *builder = scratch;
        Ok(())
    }
}

/// A value that is either stored in place, after one 0 bit, or in a cell of
/// its own, after one 1 bit.
pub open spec fn inline_or_ref_parsed<T: CellDeserialize>(rest: CellView) -> Result<
    (T::V, nat, nat),
    Failure,
> {
    if rest.data.len() == 0 {
        Err(Failure::of(ErrorKind::Exhaustion).at(Context::Field("tag")))
    } else if !rest.data[0] {
        match T::parsed(rest.skip(1, 0)) {
            Ok((v, n, k)) => Ok((v, n + 1, k)),
            Err(e) => Err(e.at(Context::Field("left"))),
        }
    } else if rest.references.len() == 0 {
        Err(Failure::of(ErrorKind::Exhaustion).at(Context::Field("right")))
    } else {
        let child = rest.references[0];
        match T::parsed(child) {
            Err(e) => Err(e.at(Context::Field("right"))),
            Ok((v, n, k)) => if n == child.data.len() && k == child.references.len() {
                Ok((v, 1, 1))
            } else {
                Err(Failure::of(ErrorKind::TrailingData).at(Context::Field("right")))
            },
        }
    }
}

/// The initial state of a message: none after one 0 bit; after one 1 bit
/// one that is stored in place or in a cell of its own.
pub open spec fn init_parsed<IC: CellDeserialize, ID: CellDeserialize>(rest: CellView) -> Result<
    (Option<StateInitView<IC::V, ID::V>>, nat, nat),
    Failure,
> {
    if rest.data.len() == 0 {
        Err(Failure::of(ErrorKind::Exhaustion).at(Context::Field("init")))
    } else if !rest.data[0] {
        Ok((None, 1, 0))
    } else {
        match inline_or_ref_parsed::<StateInit<IC, ID>>(rest.skip(1, 0)) {
            Ok((v, n, k)) => Ok((Some(v), n + 1, k)),
            Err(e) => Err(e.at(Context::Field("init"))),
        }
    }
}

impl<T: CellDeserialize, IC: CellDeserialize, ID: CellDeserialize> CellDeserialize for Message<
    T,
    IC,
    ID,
> {
    open spec fn parsed(rest: CellView) -> Result<(MessageView<T::V, IC::V, ID::V>, nat, nat), Failure> {
        match bits_taken(<CommonMsgInfo as BitUnpack>::decode(rest.data)) {
            Err(e) => Err(e.at(Context::Field("info"))),
            Ok((info, n0, k0)) => match init_parsed::<IC, ID>(rest.skip(n0, k0)) {
                Err(e) => Err(e),
                Ok((init, n1, k1)) => match inline_or_ref_parsed::<T>(rest.skip(n0 + n1, k0 + k1)) {
                    Err(e) => Err(e.at(Context::Field("body"))),
                    Ok((body, n2, k2)) => Ok(
                        (MessageView { info, init, body }, n0 + n1 + n2, k0 + k1 + k2),
                    ),
                },
            },
        }
    }

    proof fn lemma_parsed_within(rest: CellView) {
        let _own = Self::parsed(rest);
        <CommonMsgInfo as BitUnpack>::lemma_decode_within(rest.data);
        if let Ok((_, n0)) = <CommonMsgInfo as BitUnpack>::decode(rest.data) {
            let r1 = rest.skip(n0, 0);
            lemma_init_within::<IC, ID>(r1);
            if let Ok((_, n1, k1)) = init_parsed::<IC, ID>(r1) {
                lemma_inline_or_ref_within::<T>(rest.skip(n0 + n1, k1));
            }
        }
    }

    fn parse<'a>(parser: &mut CellParser<'a>) -> (r: Result<Self, Error>) {
        let ghost _own = Self::parsed(parser.deep_view());
        let ghost all = parser.deep_view();
        proof {
            assert(all.data.skip(0) =~= all.data);
            assert(all.references.skip(0) =~= all.references);
        }
        let info = parse_part_as::<CommonMsgInfo, Same>(
            parser,
            Context::Field("info"),
            Ghost(all),
            Ghost(0),
            Ghost(0),
        )?;
        let ghost i = <CommonMsgInfo as CellDeserialize>::parsed(all)->Ok_0;
        let init = parse_init::<IC, ID>(parser, Ghost(all), Ghost(i.1), Ghost(i.2))?;
        let ghost s = init_parsed::<IC, ID>(all.skip(i.1, i.2))->Ok_0;
        let body = parse_inline_or_ref::<T>(
            parser,
            Context::Field("body"),
            Ghost(all),
            Ghost(i.1 + s.1),
            Ghost(i.2 + s.2),
        )?;
        Ok(Message { info, init, body })
    }
}

/// Reads a value that is stored in place or in a cell of its own.
fn parse_inline_or_ref<'a, T: CellDeserialize>(
    parser: &mut CellParser<'a>,
    place: Context,
    Ghost(all): Ghost<CellView>,
    Ghost(n): Ghost<nat>,
    Ghost(k): Ghost<nat>,
) -> (r: Result<T, Error>)
    requires
        old(parser).wf(),
        n <= all.data.len(),
        k <= all.references.len(),
        old(parser).deep_view() == all.skip(n, k),
    ensures
        parse_outcome(
            *old(parser),
            *final(parser),
            r,
            seen_at(inline_or_ref_parsed::<T>(all.skip(n, k)), place),
        ),
        inline_or_ref_parsed::<T>(all.skip(n, k)) matches Ok((_, m, j)) ==> n + m
            <= all.data.len() && k + j <= all.references.len() && final(parser).deep_view()
            == all.skip(n + m, k + j),
{
    let found = parse_part_as::<Either<T, T>, Either<Same, Ref<Same>>>(
        parser,
        place,
        Ghost(all),
        Ghost(n),
        Ghost(k),
    )?;
    Ok(found.into_inner())
}

/// Reads the initial state of a message.
#[verifier::rlimit(40)]
fn parse_init<'a, IC: CellDeserialize, ID: CellDeserialize>(
    parser: &mut CellParser<'a>,
    Ghost(all): Ghost<CellView>,
    Ghost(n): Ghost<nat>,
    Ghost(k): Ghost<nat>,
) -> (r: Result<Option<StateInit<IC, ID>>, Error>)
    requires
        old(parser).wf(),
        n <= all.data.len(),
        k <= all.references.len(),
        old(parser).deep_view() == all.skip(n, k),
    ensures
        parse_outcome(*old(parser), *final(parser), r, init_parsed::<IC, ID>(all.skip(n, k))),
        init_parsed::<IC, ID>(all.skip(n, k)) matches Ok((_, m, j)) ==> n + m <= all.data.len()
            && k + j <= all.references.len() && final(parser).deep_view() == all.skip(
            n + m,
            k + j,
        ),
{
    let there = parse_part_as::<bool, crate::cell_ser::Data<Same>>(
        parser,
        Context::Field("init"),
        Ghost(all),
        Ghost(n),
        Ghost(k),
    )?;
    if !there {
        return Ok(None);
    }
    proof {
        assert(all.skip(n, k).skip(1, 0) == all.skip(n + 1, k)) by {
            assert(all.data.skip(n as int).skip(1) =~= all.data.skip(n as int + 1));
            assert(all.references.skip(k as int).skip(0) =~= all.references.skip(k as int));
        }
    }
    let state = parse_inline_or_ref::<StateInit<IC, ID>>(
        parser,
        Context::Field("init"),
        Ghost(all),
        Ghost(n + 1),
        Ghost(k),
    )?;
    proof {
        let found = inline_or_ref_parsed::<StateInit<IC, ID>>(all.skip(n + 1, k))->Ok_0;
        let m = found.1;
        let j = found.2;
        assert(all.skip(n, k).skip(m + 1, j) == all.skip(n + 1 + m, k + j)) by {
            assert(all.data.skip(n as int).skip(m as int + 1) =~= all.data.skip(
                n as int + 1 + m as int,
            ));
            assert(all.references.skip(k as int).skip(j as int) =~= all.references.skip(
                k as int + j as int,
            ));
        }
    }
    Ok(Some(state))
}

/// A value that is stored in place or in a cell of its own takes no more
/// bits and references than there are.
pub proof fn lemma_inline_or_ref_within<T: CellDeserialize>(rest: CellView)
    ensures
        inline_or_ref_parsed::<T>(rest) matches Ok((_, n, k)) ==> n <= rest.data.len() && k
            <= rest.references.len(),
{
    if rest.data.len() > 0 {
        T::lemma_parsed_within(rest.skip(1, 0));
    }
}

/// The initial state of a message takes no more bits and references than
/// there are.
pub proof fn lemma_init_within<IC: CellDeserialize, ID: CellDeserialize>(rest: CellView)
    ensures
        init_parsed::<IC, ID>(rest) matches Ok((_, n, k)) ==> n <= rest.data.len() && k
            <= rest.references.len(),
{
    if rest.data.len() > 0 {
        lemma_inline_or_ref_within::<StateInit<IC, ID>>(rest.skip(1, 0));
    }
}

/// A value in a cell of its own, after one 1 bit, is read back as it was
/// stored, whatever follows the reference.
pub proof fn lemma_ref_round_trip<T: CellCodecWhole>(x: T::V, rest: CellView)
    requires
        T::storable(x),
    ensures
        inline_or_ref_parsed::<T>(tagged(true, reference_only(T::stored(x))).append(rest)) == Ok::<
            (T::V, nat, nat),
            Failure,
        >((x, 1, 1)),
        tagged(true, reference_only(T::stored(x))).data.len() == 1,
        tagged(true, reference_only(T::stored(x))).references.len() == 1,
{
    let child = T::stored(x);
    let piece = tagged(true, reference_only(child));
    lemma_skip_tag(true, reference_only(child), rest);
    T::lemma_whole_round_trip(x);
    assert(piece.append(rest).references[0] == child);
    assert(piece.references =~= seq![child]);
    assert(piece.data =~= seq![true]);
}

/// The body of a message is read back as it was stored, whatever follows
/// it.
pub proof fn lemma_body_round_trip<T: CellCodec>(x: T::V, rest: CellView)
    requires
        T::storable(x),
    ensures
        inline_or_ref_parsed::<T>(body_piece(T::stored(x)).append(rest)) == Ok::<
            (T::V, nat, nat),
            Failure,
        >((x, body_piece(T::stored(x)).data.len(), body_piece(T::stored(x)).references.len())),
        body_piece(T::stored(x)).data.len() == 1,
{
    if T::stored(x) == CellView::empty() {
        lemma_skip_tag(false, CellView::empty(), rest);
        lemma_append_assoc(rest, CellView::empty(), CellView::empty());
        T::lemma_cell_round_trip(x, rest);
        assert(tagged(false, CellView::empty()).references =~= Seq::<CellView>::empty());
        assert(tagged(false, CellView::empty()).data =~= seq![false]);
    } else {
        lemma_ref_round_trip::<T>(x, rest);
    }
}

/// The body of a message is read back as it was stored where nothing
/// follows it.
pub proof fn lemma_body_alone_round_trip<T: CellCodecWhole>(x: T::V)
    requires
        T::storable(x),
    ensures
        inline_or_ref_parsed::<T>(body_piece(T::stored(x))) == Ok::<(T::V, nat, nat), Failure>(
            (x, body_piece(T::stored(x)).data.len(), body_piece(T::stored(x)).references.len()),
        ),
        body_piece(T::stored(x)).data.len() == 1,
{
    let piece = body_piece(T::stored(x));
    lemma_append_assoc(piece, CellView::empty(), CellView::empty());
    if T::stored(x) == CellView::empty() {
        lemma_skip_tag(false, CellView::empty(), CellView::empty());
        lemma_append_assoc(CellView::empty(), CellView::empty(), CellView::empty());
        T::lemma_whole_round_trip(x);
        assert(tagged(false, CellView::empty()).references =~= Seq::<CellView>::empty());
        assert(tagged(false, CellView::empty()).data =~= seq![false]);
    } else {
        lemma_ref_round_trip::<T>(x, CellView::empty());
    }
}

/// The initial state of a message is read back as it was stored, whatever
/// follows it.
pub proof fn lemma_init_round_trip<IC: CellCodecWhole, ID: CellCodecWhole>(
    init: Option<StateInitView<IC::V, ID::V>>,
    rest: CellView,
)
    requires
        init_storable::<IC, ID>(init),
    ensures
        init_parsed::<IC, ID>(init_piece::<IC, ID>(init).append(rest)) == Ok::<
            (Option<StateInitView<IC::V, ID::V>>, nat, nat),
            Failure,
        >(
            (
                init,
                init_piece::<IC, ID>(init).data.len(),
                init_piece::<IC, ID>(init).references.len(),
            ),
        ),
{
    match init {
        None => {
            lemma_skip_tag(false, CellView::empty(), rest);
            assert(tagged(false, CellView::empty()).references =~= Seq::<CellView>::empty());
            assert(tagged(false, CellView::empty()).data =~= seq![false]);
        },
        Some(s) => {
            let inner = tagged(true, reference_only(StateInit::<IC, ID>::stored(s)));
            lemma_skip_tag(true, inner, rest);
            lemma_ref_round_trip::<StateInit<IC, ID>>(s, rest);
        },
    }
}

/// A message is read back as it was stored, whatever follows it.
#[verifier::rlimit(40)]
pub proof fn lemma_message_round_trip<T: CellCodec, IC: CellCodecWhole, ID: CellCodecWhole>(
    v: MessageView<T::V, IC::V, ID::V>,
    rest: CellView,
)
    requires
        Message::<T, IC, ID>::storable(v),
    ensures
        Message::<T, IC, ID>::parsed(Message::<T, IC, ID>::stored(v).append(rest)) == Ok::<
            (MessageView<T::V, IC::V, ID::V>, nat, nat),
            Failure,
        >(
            (
                v,
                Message::<T, IC, ID>::stored(v).data.len(),
                Message::<T, IC, ID>::stored(v).references.len(),
            ),
        ),
{
    let info = bits_only(<CommonMsgInfo as BitPack>::encoding(v.info));
    let init = init_piece::<IC, ID>(v.init);
    let body = body_piece(T::stored(v.body));
    let after_info = init.append(body.append(rest));
    let after_init = body.append(rest);
    lemma_append_assoc(info.append(init), body, rest);
    lemma_append_assoc(info, init, after_init);
    <CommonMsgInfo as BitCodec>::lemma_round_trip(v.info, after_info.data);
    lemma_skip_piece(info, after_info);
    assert(info.references =~= Seq::<CellView>::empty());
    lemma_init_round_trip::<IC, ID>(v.init, after_init);
    lemma_skip_piece(init, after_init);
    lemma_skip_piece(info.append(init), after_init);
    lemma_body_round_trip::<T>(v.body, rest);
}

/// A message in a cell that holds nothing else is read back as it was
/// stored, also where its body is a cell that is stored in place.
#[verifier::rlimit(40)]
pub proof fn lemma_message_alone_round_trip<
    T: CellCodecWhole,
    IC: CellCodecWhole,
    ID: CellCodecWhole,
>(v: MessageView<T::V, IC::V, ID::V>)
    requires
        Message::<T, IC, ID>::storable(v),
    ensures
        Message::<T, IC, ID>::parsed(Message::<T, IC, ID>::stored(v)) == Ok::<
            (MessageView<T::V, IC::V, ID::V>, nat, nat),
            Failure,
        >(
            (
                v,
                Message::<T, IC, ID>::stored(v).data.len(),
                Message::<T, IC, ID>::stored(v).references.len(),
            ),
        ),
        parsed_fully_as::<Message<T, IC, ID>, Same>(Message::<T, IC, ID>::stored(v)) == Ok::<
            MessageView<T::V, IC::V, ID::V>,
            Failure,
        >(v),
{
    let info = bits_only(<CommonMsgInfo as BitPack>::encoding(v.info));
    let init = init_piece::<IC, ID>(v.init);
    let body = body_piece(T::stored(v.body));
    let after_info = init.append(body);
    lemma_append_assoc(info, init, body);
    <CommonMsgInfo as BitCodec>::lemma_round_trip(v.info, after_info.data);
    lemma_skip_piece(info, after_info);
    assert(info.references =~= Seq::<CellView>::empty());
    lemma_init_round_trip::<IC, ID>(v.init, body);
    lemma_skip_piece(init, body);
    lemma_skip_piece(info.append(init), body);
    lemma_body_alone_round_trip::<T>(v.body);
}

impl CellCodec for InternalMsgInfo {
    proof fn lemma_cell_round_trip(v: InternalMsgInfoView, rest: CellView) {
        let _own = (Self::storable(v), Self::stored(v), Self::parsed(rest));
        <InternalMsgInfo as BitCodec>::lemma_round_trip(v, rest.data);
        assert(bits_only(<InternalMsgInfo as BitPack>::encoding(v)).references =~= Seq::<
            CellView,
        >::empty());
    }
}

impl CellCodec for CommonMsgInfo {
    proof fn lemma_cell_round_trip(v: CommonMsgInfoView, rest: CellView) {
        let _own = (Self::storable(v), Self::stored(v), Self::parsed(rest));
        <CommonMsgInfo as BitCodec>::lemma_round_trip(v, rest.data);
        assert(bits_only(<CommonMsgInfo as BitPack>::encoding(v)).references =~= Seq::<
            CellView,
        >::empty());
    }
}

impl<T: CellCodec, IC: CellCodecWhole, ID: CellCodecWhole> CellCodec for Message<T, IC, ID> {
    proof fn lemma_cell_round_trip(v: MessageView<T::V, IC::V, ID::V>, rest: CellView) {
        let _own = (Self::storable(v), Self::stored(v), Self::parsed(rest));
        lemma_message_round_trip::<T, IC, ID>(v, rest);
    }
}

/// An initial state with its code and its data each as the cell that holds
/// it.
pub open spec fn normal_state<IC: CellSerialize, ID: CellSerialize>(
    s: StateInitView<IC::V, ID::V>,
) -> StateInitView<CellView, CellView> {
    StateInitView {
        split_depth: s.split_depth,
        special: s.special,
        code: match s.code {
            Some(c) => Some(IC::stored(c)),
            None => None,
        },
        data: match s.data {
            Some(d) => Some(ID::stored(d)),
            None => None,
        },
    }
}

/// Whether the code and the data of an initial state can each be stored in
/// a cell of its own.
pub open spec fn state_normal<IC: CellSerialize, ID: CellSerialize>(
    s: StateInitView<IC::V, ID::V>,
) -> bool {
    crate::state_init::maybe_ref_storable::<IC>(s.code)
        && crate::state_init::maybe_ref_storable::<ID>(s.data)
}

/// The failure of storing the code and the data of an initial state each
/// in a cell of its own: that of the code where the code cannot be stored
/// so, else that of the data.
pub open spec fn state_normal_failure<IC: CellSerialize, ID: CellSerialize>(
    s: StateInitView<IC::V, ID::V>,
) -> Failure {
    match (s.code, s.data) {
        (Some(c), _) if !(IC::storable(c) && fits_cell(IC::stored(c))) => IC::store_failure(
            c,
            CellView::empty(),
        ),
        (_, Some(d)) => ID::store_failure(d, CellView::empty()),
        _ => Failure::of(ErrorKind::Capacity),
    }
}

impl<IC: CellSerialize, ID: CellSerialize> StateInit<IC, ID> {
    /// The same initial state, with code and data each stored in a cell; the
    /// error of the first of the two that cannot be stored so.
    pub fn normalize(&self) -> (r: Result<StateInit<Cell, Cell>, Error>)
        ensures
            r is Ok <==> state_normal::<IC, ID>(self.deep_view()),
            r matches Ok(s) ==> s.deep_view() == normal_state::<IC, ID>(self.deep_view()),
            r matches Err(e) ==> e@ == state_normal_failure::<IC, ID>(self.deep_view()),
    {
        let code = match &self.code {
            Some(c) => Some(to_cell_as::<IC, Same>(c)?),
            None => None,
        };
        let data = match &self.data {
            Some(d) => Some(to_cell_as::<ID, Same>(d)?),
            None => None,
        };
        Ok(StateInit { split_depth: self.split_depth, special: self.special, code, data })
    }
}

impl<T: CellSerialize, IC: CellSerialize, ID: CellSerialize> Message<T, IC, ID> {
    /// The same message, with its body and the code and data of its initial
    /// state each stored in a cell; the error of the first of these that
    /// cannot be stored so, the initial state before the body.
    pub fn normalize(&self) -> (r: Result<Message<Cell, Cell, Cell>, Error>)
        ensures
            r is Ok <==> (match self.deep_view().init {
                Some(s) => state_normal::<IC, ID>(s),
                None => true,
            }) && T::storable(self.deep_view().body) && fits_cell(
                T::stored(self.deep_view().body),
            ),
            r matches Ok(m) ==> m.deep_view() == (MessageView::<CellView, CellView, CellView> {
                info: self.deep_view().info,
                init: match self.deep_view().init {
                    Some(s) => Some(normal_state::<IC, ID>(s)),
                    None => None,
                },
                body: T::stored(self.deep_view().body),
            }),
            r matches Err(e) ==> e@ == (match self.deep_view().init {
                Some(s) if !state_normal::<IC, ID>(s) => state_normal_failure::<IC, ID>(s),
                _ => T::store_failure(self.deep_view().body, CellView::empty()),
            }),
    {
        let init = match &self.init {
            Some(s) => Some(s.normalize()?),
            None => None,
        };
        let body = to_cell_as::<T, Same>(&self.body)?;
        Ok(Message { info: self.info, init, body })
    }
}

} // verus!
