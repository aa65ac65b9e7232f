//! The wallet contract, version 4 revision 2: what it keeps and what it is
//! sent.

use crate::builder::{CellBuilder, bits_only, reference_only};
use crate::cell::{Cell, CellView};
use crate::cell_codec::CellCodec;
use crate::cell_de::CellDeserialize;
use crate::cell_ser::{
    CellSerialize, CellSerializeAs, Data, Ref, all_storable, fits_cell, lemma_append_assoc, pieces,
    store_part_as,
};
use crate::codec::BitCodecAs;
use crate::de_as::BitUnpackAs;
use crate::envelope::{Message, MessageView};
use crate::error::{Context, Error, ErrorKind, Failure};
use crate::integer::lemma_uint_bits_len;
use crate::message::UnixTimestamp;
use crate::parser::CellParser;
use crate::ser_as::{BitPackAs, Same};
use crate::ser::BitPack;
use vstd::prelude::*;
use crate::builder::bits_room;
use crate::cell_ser::first_store_failure;

verus! {

/// The number of bytes of a public key.
pub const PUBLIC_KEY_LENGTH: usize = 32;

/// What the wallet keeps: the number of the next message, the number of the
/// wallet, and the public key of its owner.
#[derive(Debug, Clone, Copy, PartialEq, Eq)]
pub struct WalletV4R2Data {
    pub seqno: u32,
    pub wallet_id: u32,
    pub pubkey: [u8; 32],
}

/// What the data of a wallet holds.
pub ghost struct WalletV4R2DataView {
    pub seqno: u32,
    pub wallet_id: u32,
    pub pubkey: Seq<u8>,
}

impl DeepView for WalletV4R2Data {
    type V = WalletV4R2DataView;

    open spec fn deep_view(&self) -> WalletV4R2DataView {
        WalletV4R2DataView { seqno: self.seqno, wallet_id: self.wallet_id, pubkey: self.pubkey@ }
    }
}

/// The parts of the data of a wallet as they are written; the last is one 0
/// bit for the empty list of plugins.
pub type DataParts = ((u32, u32), ([u8; 32], bool));

/// The strategy for the parts of the data of a wallet.
pub type DataAs = ((Same, Same), ([Same; 32], Same));

impl WalletV4R2DataView {
    /// The parts in their order.
    pub open spec fn parts(self) -> ((u32, u32), (Seq<u8>, bool)) {
        ((self.seqno, self.wallet_id), (self.pubkey, false))
    }
}

impl CellSerialize for WalletV4R2Data {
    open spec fn storable(v: WalletV4R2DataView) -> bool {
        v.pubkey.len() == 32
    }

    open spec fn stored(v: WalletV4R2DataView) -> CellView {
        bits_only(<DataAs as BitPackAs<DataParts>>::encoding_as(v.parts()))
    }

    open spec fn store_failure(v: WalletV4R2DataView, before: CellView) -> Failure {
        <DataAs as BitPackAs<DataParts>>::failure_as(v.parts(), bits_room(before))
    }

    fn store(&self, builder: &mut CellBuilder) -> (r: Result<(), Error>) {
        let ghost _own = (
            Self::storable(self.deep_view()),
            Self::stored(self.deep_view()),
            Self::store_failure(self.deep_view(), builder.deep_view()),
        );
        let parts: DataParts = ((self.seqno, self.wallet_id), (self.pubkey, false));
        proof {
            assert(parts.deep_view().1.0 =~= self.deep_view().pubkey);
            assert(parts.deep_view() == self.deep_view().parts());
            assert(crate::sequence::all_packable_as::<u8, Same>(self.deep_view().pubkey));
        }
        builder.pack_as::<DataParts, DataAs>(parts)
    }
}

impl CellDeserialize for WalletV4R2Data {
    open spec fn parsed(rest: CellView) -> Result<(WalletV4R2DataView, nat, nat), Failure> {
        match <DataAs as BitUnpackAs<DataParts>>::decode_as(rest.data) {
            Err(e) => Err(e),
            Ok((((seqno, wallet_id), (pubkey, plugins)), n)) => if plugins {
                Err(Failure::of(ErrorKind::Custom))
            } else {
                Ok((WalletV4R2DataView { seqno, wallet_id, pubkey }, n, 0))
            },
        }
    }

    proof fn lemma_parsed_within(rest: CellView) {
        let _own = Self::parsed(rest);
        <DataAs as BitUnpackAs<DataParts>>::lemma_decode_as_within(rest.data);
    }

    fn parse<'a>(parser: &mut CellParser<'a>) -> (r: Result<Self, Error>) {
        let ghost _own = Self::parsed(parser.deep_view());
        let ((seqno, wallet_id), (pubkey, plugins)) = parser.unpack_as::<DataParts, DataAs>()?;
        if plugins {
            return Err(Error::new(ErrorKind::Custom));
        }
        let d = WalletV4R2Data { seqno, wallet_id, pubkey };
        proof {
            assert(d.deep_view().pubkey =~= pubkey.deep_view());
        }
        Ok(d)
    }
}

impl CellCodec for WalletV4R2Data {
    proof fn lemma_cell_round_trip(v: WalletV4R2DataView, rest: CellView) {
        let _own = (Self::storable(v), Self::stored(v), Self::parsed(rest));
        assert(crate::sequence::all_packable_as::<u8, Same>(v.pubkey));
        <DataAs as BitCodecAs<DataParts>>::lemma_round_trip_as(v.parts(), rest.data);
        assert(Self::stored(v).references =~= Seq::<CellView>::empty());
    }
}

/// One message for the wallet to send, and how to send it.
#[derive(Debug, Clone, PartialEq, Eq)]
pub struct WalletOpSendMessage {
    /// How the message is sent.
    pub mode: u8,
    /// The message.
    pub message: Message<Cell, Cell, Cell>,
}

/// What such an order holds.
pub ghost struct WalletOpSendMessageView {
    pub mode: u8,
    pub message: MessageView<CellView, CellView, CellView>,
}

impl DeepView for WalletOpSendMessage {
    type V = WalletOpSendMessageView;

    open spec fn deep_view(&self) -> WalletOpSendMessageView {
        WalletOpSendMessageView { mode: self.mode, message: self.message.deep_view() }
    }
}

/// An order to send a message: the mode in 8 bits, and a reference to a
/// cell that holds the message.
impl CellSerialize for WalletOpSendMessage {
    open spec fn storable(v: WalletOpSendMessageView) -> bool {
        Message::<Cell, Cell, Cell>::storable(v.message) && fits_cell(
            Message::<Cell, Cell, Cell>::stored(v.message),
        )
    }

    open spec fn stored(v: WalletOpSendMessageView) -> CellView {
        bits_only(u8::encoding(v.mode)).append(
            reference_only(Message::<Cell, Cell, Cell>::stored(v.message)),
        )
    }

    open spec fn store_failure(v: WalletOpSendMessageView, before: CellView) -> Failure {
        if bits_room(before) < 8 {
            <Data<Same> as CellSerializeAs<u8>>::store_failure_as(v.mode, before).at(
                Context::Field("mode"),
            )
        } else {
            <Ref<Same> as CellSerializeAs<Message<Cell, Cell, Cell>>>::store_failure_as(
                v.message,
                before.append(bits_only(u8::encoding(v.mode))),
            ).at(Context::Field("message"))
        }
    }

    fn store(&self, builder: &mut CellBuilder) -> (r: Result<(), Error>) {
        let ghost _own = (
            Self::storable(self.deep_view()),
            Self::stored(self.deep_view()),
            Self::store_failure(self.deep_view(), builder.deep_view()),
        );
        // the parts go to a copy, which takes the place of the builder once
        // all of them are stored
        let mut scratch = builder.snapshot();
        let ghost start = scratch.deep_view();
        proof {
            lemma_uint_bits_len(self.mode as nat, 8);
            let mode = bits_only(u8::encoding(self.mode));
            assert(start.append(mode).references =~= start.references);
        }
        store_part_as::<u8, Data<Same>>(&self.mode, &mut scratch, Context::Field("mode"))?;
        store_part_as::<Message<Cell, Cell, Cell>, Ref<Same>>(
            &self.message,
            &mut scratch,
            Context::Field("message"),
        )?;
        proof {
            lemma_append_assoc(
                start,
                bits_only(u8::encoding(self.mode)),
                reference_only(Message::<Cell, Cell, Cell>::stored(self.message.deep_view())),
            );
        }
        *builder = scratch;
        Ok(())
    }
}

/// What the wallet is asked to do.
#[derive(Debug, PartialEq, Eq)]
pub enum WalletV4R2Op {
    /// To send these messages.
    Send(Vec<WalletOpSendMessage>),
}

/// What such a request holds.
pub ghost enum WalletV4R2OpView {
    Send(Seq<WalletOpSendMessageView>),
}

impl DeepView for WalletV4R2Op {
    type V = WalletV4R2OpView;

    open spec fn deep_view(&self) -> WalletV4R2OpView {
        match self {
            WalletV4R2Op::Send(msgs) => WalletV4R2OpView::Send(msgs.deep_view()),
        }
    }
}

/// A request to send messages: eight 0 bits, and the orders one after the
/// other.
impl CellSerialize for WalletV4R2Op {
    open spec fn storable(v: WalletV4R2OpView) -> bool {
        match v {
            WalletV4R2OpView::Send(msgs) => all_storable::<WalletOpSendMessage>(msgs),
        }
    }

    open spec fn stored(v: WalletV4R2OpView) -> CellView {
        match v {
            WalletV4R2OpView::Send(msgs) => bits_only(u8::encoding(0)).append(
                pieces::<WalletOpSendMessage>(msgs, msgs.len()),
            ),
        }
    }

    open spec fn store_failure(v: WalletV4R2OpView, before: CellView) -> Failure {
        match v {
            WalletV4R2OpView::Send(msgs) => if bits_room(before) < 8 {
                <Data<Same> as CellSerializeAs<u8>>::store_failure_as(0u8, before).at(
                    Context::Field("op"),
                )
            } else {
                first_store_failure::<WalletOpSendMessage>(
                    msgs,
                    before.append(bits_only(u8::encoding(0))),
                    0,
                )
            },
        }
    }

    fn store(&self, builder: &mut CellBuilder) -> (r: Result<(), Error>) {
        let ghost _own = (
            Self::storable(self.deep_view()),
            Self::stored(self.deep_view()),
            Self::store_failure(self.deep_view(), builder.deep_view()),
        );
        // the parts go to a copy, which takes the place of the builder once
        // all of them are stored
        let mut scratch = builder.snapshot();
        let ghost start = scratch.deep_view();
        proof {
            lemma_uint_bits_len(0, 8);
        }
        match self {
            WalletV4R2Op::Send(msgs) => {
                store_part_as::<u8, Data<Same>>(&0u8, &mut scratch, Context::Field("op"))?;
                let items = msgs.as_slice();
                proof {
                    assert(items.deep_view() =~= msgs.deep_view());
                }
                match scratch.store_many::<WalletOpSendMessage>(items) {
                    Ok(()) => {},
                    Err(e) => {
                        return Err(e);
                    },
                }
                proof {
                    lemma_append_assoc(
                        start,
                        bits_only(u8::encoding(0)),
                        pieces::<WalletOpSendMessage>(msgs.deep_view(), msgs@.len()),
                    );
                }
            },
        }
        *builder = scratch;
        Ok(())
    }
}

/// What the wallet is sent from outside: the number of the wallet, the time
/// until which the message holds, in seconds since the start of 1970, the
/// number of the message, and what to do.
#[derive(Debug, PartialEq, Eq)]
pub struct WalletV4R2Message {
    pub wallet_id: u32,
    pub expire_at: u32,
    pub seqno: u32,
    pub op: WalletV4R2Op,
}

/// What such a message holds.
pub ghost struct WalletV4R2MessageView {
    pub wallet_id: u32,
    pub expire_at: u32,
    pub seqno: u32,
    pub op: WalletV4R2OpView,
}

impl DeepView for WalletV4R2Message {
    type V = WalletV4R2MessageView;

    open spec fn deep_view(&self) -> WalletV4R2MessageView {
        WalletV4R2MessageView {
            wallet_id: self.wallet_id,
            expire_at: self.expire_at,
            seqno: self.seqno,
            op: self.op.deep_view(),
        }
    }
}

/// The strategy for the numbers at the front of such a message.
pub type HeadAs = (Same, UnixTimestamp, Same);

impl CellSerialize for WalletV4R2Message {
    open spec fn storable(v: WalletV4R2MessageView) -> bool {
        WalletV4R2Op::storable(v.op)
    }

    open spec fn stored(v: WalletV4R2MessageView) -> CellView {
        bits_only(
            <HeadAs as BitPackAs<(u32, u32, u32)>>::encoding_as(
                (v.wallet_id, v.expire_at, v.seqno),
            ),
        ).append(WalletV4R2Op::stored(v.op))
    }

    open spec fn store_failure(v: WalletV4R2MessageView, before: CellView) -> Failure {
        if bits_room(before) < 96 {
            <Data<HeadAs> as CellSerializeAs<(u32, u32, u32)>>::store_failure_as(
                (v.wallet_id, v.expire_at, v.seqno),
                before,
            ).at(Context::Field("head"))
        } else {
            WalletV4R2Op::store_failure(
                v.op,
                before.append(
                    bits_only(
                        <HeadAs as BitPackAs<(u32, u32, u32)>>::encoding_as(
                            (v.wallet_id, v.expire_at, v.seqno),
                        ),
                    ),
                ),
            ).at(Context::Field("op"))
        }
    }

    fn store(&self, builder: &mut CellBuilder) -> (r: Result<(), Error>) {
        let ghost _own = (
            Self::storable(self.deep_view()),
            Self::stored(self.deep_view()),
            Self::store_failure(self.deep_view(), builder.deep_view()),
        );
        // the parts go to a copy, which takes the place of the builder once
        // all of them are stored
        let mut scratch = builder.snapshot();
        let ghost start = scratch.deep_view();
        proof {
            lemma_uint_bits_len(self.wallet_id as nat, 32);
            lemma_uint_bits_len(self.expire_at as nat, 32);
            lemma_uint_bits_len(self.seqno as nat, 32);
        }
        store_part_as::<(u32, u32, u32), Data<HeadAs>>(
            &(self.wallet_id, self.expire_at, self.seqno),
            &mut scratch,
            Context::Field("head"),
        )?;
        store_part_as::<WalletV4R2Op, Same>(&self.op, &mut scratch, Context::Field("op"))?;
        proof {
            lemma_append_assoc(
                start,
                bits_only(
                    <HeadAs as BitPackAs<(u32, u32, u32)>>::encoding_as(
                        (self.wallet_id, self.expire_at, self.seqno),
                    ),
                ),
                WalletV4R2Op::stored(self.op.deep_view()),
            );
        }
        *builder = scratch;
        Ok(())
    }
}

/// The wallet contract, version 4 revision 2.
pub struct V4R2;

impl V4R2 {
    /// What a new wallet keeps.
    pub fn init_data(wallet_id: u32, pubkey: [u8; 32]) -> (d: WalletV4R2Data)
        ensures
            d.seqno == 0,
            d.wallet_id == wallet_id,
            d.pubkey == pubkey,
    {
        WalletV4R2Data { seqno: 0, wallet_id, pubkey }
    }

    /// The message that asks the wallet to send the given messages.
    pub fn create_external_body(
        wallet_id: u32,
        expire_at: u32,
        seqno: u32,
        msgs: Vec<WalletOpSendMessage>,
    ) -> (m: WalletV4R2Message)
        ensures
            m.wallet_id == wallet_id,
            m.expire_at == expire_at,
            m.seqno == seqno,
            m.op == WalletV4R2Op::Send(msgs),
    {
        WalletV4R2Message { wallet_id, expire_at, seqno, op: WalletV4R2Op::Send(msgs) }
    }
}

} // verus!
