//! Messages between contracts, and the information that travels with them.

use crate::address::{MsgAddress, MsgAddressView};
use crate::codec::{BitCodec, BitCodecAs};
use crate::currency::{CurrencyCollection, Grams};
use crate::de::BitUnpack;
use crate::de_as::{BitUnpackAs, unpack_part_as};
use crate::error::{Context, Error, ErrorKind, Failure, reports};
use crate::reader::BitReader;
use crate::ser::BitPack;
use crate::ser_as::{BitPackAs, Same, pack_part_as};
use crate::writer::{BitWriter, pack_outcome};
use vstd::prelude::*;

verus! {

/// The strategy that writes a point in time as the number of seconds since
/// the start of 1970, in 32 bits.
pub struct UnixTimestamp;

impl BitPackAs<u32> for UnixTimestamp {
    open spec fn packable_as(v: u32) -> bool {
        true
    }

    open spec fn encoding_as(v: u32) -> Seq<bool> {
        u32::encoding(v)
    }

    fn pack_as<W: BitWriter>(source: &u32, writer: &mut W) -> (r: Result<(), Error>) {
        let ghost _own = (
            <Self as BitPackAs<u32>>::packable_as(source.deep_view()),
            <Self as BitPackAs<u32>>::encoding_as(source.deep_view()),
            <Self as BitPackAs<u32>>::failure_as(source.deep_view(), writer.room()),
        );
        source.pack(writer)
    }
}

impl BitUnpackAs<u32> for UnixTimestamp {
    open spec fn decode_as(bits: Seq<bool>) -> Result<(u32, nat), Failure> {
        u32::decode(bits)
    }

    proof fn lemma_decode_as_within(bits: Seq<bool>) {
        let _own = <Self as BitUnpackAs<u32>>::decode_as(bits);
    }

    fn unpack_as<R: BitReader>(reader: &mut R) -> (r: Result<u32, Error>) {
        let ghost _own = <Self as BitUnpackAs<u32>>::decode_as(reader.remaining());
        u32::unpack(reader)
    }
}

impl BitCodecAs<u32> for UnixTimestamp {
    proof fn lemma_round_trip_as(v: u32, rest: Seq<bool>) {
        let _own = (
            <Self as BitPackAs<u32>>::packable_as(v),
            <Self as BitPackAs<u32>>::encoding_as(v),
            <Self as BitUnpackAs<u32>>::decode_as(rest),
        );
        u32::lemma_round_trip(v, rest);
    }
}

/// An amount of currency: the amount of the main currency, and one 0 bit
/// for the empty list of other currencies.
impl BitPack for CurrencyCollection {
    open spec fn packable(v: CurrencyCollection) -> bool {
        <(Grams, Same) as BitPackAs<(u128, bool)>>::packable_as((v.grams, false))
    }

    open spec fn encoding(v: CurrencyCollection) -> Seq<bool> {
        <(Grams, Same) as BitPackAs<(u128, bool)>>::encoding_as((v.grams, false))
    }

    open spec fn failure(v: CurrencyCollection, room: nat) -> Failure {
        <(Grams, Same) as BitPackAs<(u128, bool)>>::failure_as((v.grams, false), room)
    }

    fn pack<W: BitWriter>(&self, writer: &mut W) -> (r: Result<(), Error>) {
        let ghost _own = (
            Self::packable(self.deep_view()),
            Self::encoding(self.deep_view()),
            Self::failure(self.deep_view(), writer.room()),
        );
        <(Grams, Same) as BitPackAs<(u128, bool)>>::pack_as(&(self.grams, false), writer)
    }
}

impl BitUnpack for CurrencyCollection {
    open spec fn decode(bits: Seq<bool>) -> Result<(CurrencyCollection, nat), Failure> {
        match <(Grams, Same) as BitUnpackAs<(u128, bool)>>::decode_as(bits) {
            Err(e) => Err(e),
            Ok(((grams, others), n)) => if others {
                Err(Failure::of(ErrorKind::Custom))
            } else {
                Ok((CurrencyCollection { grams }, n))
            },
        }
    }

    proof fn lemma_decode_within(bits: Seq<bool>) {
        let _own = Self::decode(bits);
        <(Grams, Same) as BitUnpackAs<(u128, bool)>>::lemma_decode_as_within(bits);
    }

    fn unpack<R: BitReader>(reader: &mut R) -> (r: Result<Self, Error>) {
        let ghost _own = Self::decode(reader.remaining());
        let (grams, others) = match <(Grams, Same) as BitUnpackAs<(u128, bool)>>::unpack_as(reader) {
            Ok(v) => v,
            Err(e) => {
                return Err(e);
            },
        };
        if others {
            return Err(Error::new(ErrorKind::Custom));
        }
        Ok(CurrencyCollection { grams })
    }
}

impl BitCodec for CurrencyCollection {
    proof fn lemma_round_trip(v: CurrencyCollection, rest: Seq<bool>) {
        let _own = (Self::packable(v), Self::encoding(v), Self::decode(rest));
        <(Grams, Same) as BitCodecAs<(u128, bool)>>::lemma_round_trip_as((v.grams, false), rest);
    }
}

/// What travels with a message that comes from outside of the chain: from
/// whom, to whom, and the fee for bringing it in.
#[derive(Debug, Clone, Copy, PartialEq, Eq)]
pub struct ExternalInMsgInfo {
    pub src: MsgAddress,
    pub dst: MsgAddress,
    pub import_fee: u128,
}

/// What such information holds.
pub ghost struct ExternalInMsgInfoView {
    pub src: MsgAddressView,
    pub dst: MsgAddressView,
    pub import_fee: u128,
}

impl DeepView for ExternalInMsgInfo {
    type V = ExternalInMsgInfoView;

    open spec fn deep_view(&self) -> ExternalInMsgInfoView {
        ExternalInMsgInfoView {
            src: self.src.deep_view(),
            dst: self.dst.deep_view(),
            import_fee: self.import_fee,
        }
    }
}

/// The strategy for the parts of such information.
pub type ExternalInAs = (Same, Same, Grams);

impl ExternalInMsgInfoView {
    /// The parts in their order.
    pub open spec fn parts(self) -> (MsgAddressView, MsgAddressView, u128) {
        (self.src, self.dst, self.import_fee)
    }
}

impl BitPack for ExternalInMsgInfo {
    open spec fn packable(v: ExternalInMsgInfoView) -> bool {
        <ExternalInAs as BitPackAs<(MsgAddress, MsgAddress, u128)>>::packable_as(v.parts())
    }

    open spec fn encoding(v: ExternalInMsgInfoView) -> Seq<bool> {
        <ExternalInAs as BitPackAs<(MsgAddress, MsgAddress, u128)>>::encoding_as(v.parts())
    }

    open spec fn failure(v: ExternalInMsgInfoView, room: nat) -> Failure {
        <ExternalInAs as BitPackAs<(MsgAddress, MsgAddress, u128)>>::failure_as(v.parts(), room)
    }

    fn pack<W: BitWriter>(&self, writer: &mut W) -> (r: Result<(), Error>) {
        let ghost _own = (
            Self::packable(self.deep_view()),
            Self::encoding(self.deep_view()),
            Self::failure(self.deep_view(), writer.room()),
        );
        <ExternalInAs as BitPackAs<(MsgAddress, MsgAddress, u128)>>::pack_as(
            &(self.src, self.dst, self.import_fee),
            writer,
        )
    }
}

impl BitUnpack for ExternalInMsgInfo {
    open spec fn decode(bits: Seq<bool>) -> Result<(ExternalInMsgInfoView, nat), Failure> {
        match <ExternalInAs as BitUnpackAs<(MsgAddress, MsgAddress, u128)>>::decode_as(bits) {
            Err(e) => Err(e),
            Ok(((src, dst, import_fee), n)) => Ok((ExternalInMsgInfoView { src, dst, import_fee }, n)),
        }
    }

    proof fn lemma_decode_within(bits: Seq<bool>) {
        let _own = Self::decode(bits);
        <ExternalInAs as BitUnpackAs<(MsgAddress, MsgAddress, u128)>>::lemma_decode_as_within(bits);
    }

    fn unpack<R: BitReader>(reader: &mut R) -> (r: Result<Self, Error>) {
        let ghost _own = Self::decode(reader.remaining());
        let (src, dst, import_fee) = match <ExternalInAs as BitUnpackAs<
            (MsgAddress, MsgAddress, u128),
        >>::unpack_as(reader) {
            Ok(v) => v,
            Err(e) => {
                return Err(e);
            },
        };
        Ok(ExternalInMsgInfo { src, dst, import_fee })
    }
}

impl BitCodec for ExternalInMsgInfo {
    proof fn lemma_round_trip(v: ExternalInMsgInfoView, rest: Seq<bool>) {
        let _own = (Self::packable(v), Self::encoding(v), Self::decode(rest));
        <ExternalInAs as BitCodecAs<(MsgAddress, MsgAddress, u128)>>::lemma_round_trip_as(
            v.parts(),
            rest,
        );
    }
}

/// What travels with a message that leaves the chain: from whom, to whom,
/// and when it was made, in logical time and in seconds since the start of
/// 1970.
#[derive(Debug, Clone, Copy, PartialEq, Eq)]
pub struct ExternalOutMsgInfo {
    pub src: MsgAddress,
    pub dst: MsgAddress,
    pub created_lt: u64,
    pub created_at: u32,
}

/// What such information holds.
pub ghost struct ExternalOutMsgInfoView {
    pub src: MsgAddressView,
    pub dst: MsgAddressView,
    pub created_lt: u64,
    pub created_at: u32,
}

impl DeepView for ExternalOutMsgInfo {
    type V = ExternalOutMsgInfoView;

    open spec fn deep_view(&self) -> ExternalOutMsgInfoView {
        ExternalOutMsgInfoView {
            src: self.src.deep_view(),
            dst: self.dst.deep_view(),
            created_lt: self.created_lt,
            created_at: self.created_at,
        }
    }
}

/// The strategy for the parts of such information.
pub type ExternalOutAs = ((Same, Same), (Same, UnixTimestamp));

impl ExternalOutMsgInfoView {
    /// The parts in their order.
    pub open spec fn parts(self) -> ((MsgAddressView, MsgAddressView), (u64, u32)) {
        ((self.src, self.dst), (self.created_lt, self.created_at))
    }
}

impl BitPack for ExternalOutMsgInfo {
    open spec fn packable(v: ExternalOutMsgInfoView) -> bool {
        <ExternalOutAs as BitPackAs<((MsgAddress, MsgAddress), (u64, u32))>>::packable_as(
            v.parts(),
        )
    }

    open spec fn encoding(v: ExternalOutMsgInfoView) -> Seq<bool> {
        <ExternalOutAs as BitPackAs<((MsgAddress, MsgAddress), (u64, u32))>>::encoding_as(
            v.parts(),
        )
    }

    open spec fn failure(v: ExternalOutMsgInfoView, room: nat) -> Failure {
        <ExternalOutAs as BitPackAs<((MsgAddress, MsgAddress), (u64, u32))>>::failure_as(
            v.parts(),
            room,
        )
    }

    fn pack<W: BitWriter>(&self, writer: &mut W) -> (r: Result<(), Error>) {
        let ghost _own = (
            Self::packable(self.deep_view()),
            Self::encoding(self.deep_view()),
            Self::failure(self.deep_view(), writer.room()),
        );
        <ExternalOutAs as BitPackAs<((MsgAddress, MsgAddress), (u64, u32))>>::pack_as(
            &((self.src, self.dst), (self.created_lt, self.created_at)),
            writer,
        )
    }
}

impl BitUnpack for ExternalOutMsgInfo {
    open spec fn decode(bits: Seq<bool>) -> Result<(ExternalOutMsgInfoView, nat), Failure> {
        match <ExternalOutAs as BitUnpackAs<((MsgAddress, MsgAddress), (u64, u32))>>::decode_as(
            bits,
        ) {
            Err(e) => Err(e),
            Ok((((src, dst), (created_lt, created_at)), n)) => Ok(
                (ExternalOutMsgInfoView { src, dst, created_lt, created_at }, n),
            ),
        }
    }

    proof fn lemma_decode_within(bits: Seq<bool>) {
        let _own = Self::decode(bits);
        <ExternalOutAs as BitUnpackAs<
            ((MsgAddress, MsgAddress), (u64, u32)),
        >>::lemma_decode_as_within(bits);
    }

    fn unpack<R: BitReader>(reader: &mut R) -> (r: Result<Self, Error>) {
        let ghost _own = Self::decode(reader.remaining());
        let ((src, dst), (created_lt, created_at)) = match <ExternalOutAs as BitUnpackAs<
            ((MsgAddress, MsgAddress), (u64, u32)),
        >>::unpack_as(reader) {
            Ok(v) => v,
            Err(e) => {
                return Err(e);
            },
        };
        Ok(ExternalOutMsgInfo { src, dst, created_lt, created_at })
    }
}

impl BitCodec for ExternalOutMsgInfo {
    proof fn lemma_round_trip(v: ExternalOutMsgInfoView, rest: Seq<bool>) {
        let _own = (Self::packable(v), Self::encoding(v), Self::decode(rest));
        <ExternalOutAs as BitCodecAs<((MsgAddress, MsgAddress), (u64, u32))>>::lemma_round_trip_as(
            v.parts(),
            rest,
        );
    }
}

/// What travels with a message from one contract to another.
#[derive(Debug, Clone, Copy, PartialEq, Eq)]
pub struct InternalMsgInfo {
    /// Whether instant routing is switched off.
    pub ihr_disabled: bool,
    /// Whether the message comes back if it cannot be handled.
    pub bounce: bool,
    /// Whether the message is one that came back.
    pub bounced: bool,
    /// The sender.
    pub src: MsgAddress,
    /// The receiver.
    pub dst: MsgAddress,
    /// What the message carries.
    pub value: CurrencyCollection,
    /// The fee for instant routing.
    pub ihr_fee: u128,
    /// The fee for forwarding.
    pub fwd_fee: u128,
    /// The logical time at which the message was made.
    pub created_lt: u64,
    /// When the message was made, in seconds since the start of 1970. No
    /// time is written as 0, so a time of 0 itself cannot be written:
    /// `Some(0)` has no encoding.
    pub created_at: Option<u32>,
}

/// What such information holds.
pub ghost struct InternalMsgInfoView {
    pub ihr_disabled: bool,
    pub bounce: bool,
    pub bounced: bool,
    pub src: MsgAddressView,
    pub dst: MsgAddressView,
    pub value: CurrencyCollection,
    pub ihr_fee: u128,
    pub fwd_fee: u128,
    pub created_lt: u64,
    pub created_at: Option<u32>,
}

impl DeepView for InternalMsgInfo {
    type V = InternalMsgInfoView;

    open spec fn deep_view(&self) -> InternalMsgInfoView {
        InternalMsgInfoView {
            ihr_disabled: self.ihr_disabled,
            bounce: self.bounce,
            bounced: self.bounced,
            src: self.src.deep_view(),
            dst: self.dst.deep_view(),
            value: self.value,
            ihr_fee: self.ihr_fee,
            fwd_fee: self.fwd_fee,
            created_lt: self.created_lt,
            created_at: self.created_at,
        }
    }
}

/// The parts of such information as they are written.
pub type InternalParts = (
    (bool, bool, bool),
    (MsgAddress, MsgAddress, CurrencyCollection),
    ((u128, u128), (u64, u32)),
);

/// The strategy for the parts of such information.
pub type InternalAs = ((Same, Same, Same), (Same, Same, Same), ((Grams, Grams), (Same, UnixTimestamp)));

impl InternalMsgInfoView {
    /// The parts in their order; no time of making is written as 0.
    pub open spec fn parts(self) -> (
        (bool, bool, bool),
        (MsgAddressView, MsgAddressView, CurrencyCollection),
        ((u128, u128), (u64, u32)),
    ) {
        (
            (self.ihr_disabled, self.bounce, self.bounced),
            (self.src, self.dst, self.value),
            (
                (self.ihr_fee, self.fwd_fee),
                (
                    self.created_lt,
                    match self.created_at {
                        Some(t) => t,
                        None => 0,
                    },
                ),
            ),
        )
    }
}

impl BitPack for InternalMsgInfo {
    open spec fn packable(v: InternalMsgInfoView) -> bool {
        v.created_at != Some(0u32) && <InternalAs as BitPackAs<InternalParts>>::packable_as(
            v.parts(),
        )
    }

    open spec fn encoding(v: InternalMsgInfoView) -> Seq<bool> {
        <InternalAs as BitPackAs<InternalParts>>::encoding_as(v.parts())
    }

    open spec fn failure(v: InternalMsgInfoView, room: nat) -> Failure {
        if v.created_at == Some(0u32) {
            Failure::of(ErrorKind::Custom)
        } else {
            <InternalAs as BitPackAs<InternalParts>>::failure_as(v.parts(), room)
        }
    }

    fn pack<W: BitWriter>(&self, writer: &mut W) -> (r: Result<(), Error>) {
        let ghost _own = (
            Self::packable(self.deep_view()),
            Self::encoding(self.deep_view()),
            Self::failure(self.deep_view(), writer.room()),
        );
        let created_at: u32 = match self.created_at {
            Some(t) => {
                if t == 0 {
                    return Err(Error::new(ErrorKind::Custom));
                }
                t
            },
            None => 0,
        };
        let parts: InternalParts = (
            (self.ihr_disabled, self.bounce, self.bounced),
            (self.src, self.dst, self.value),
            ((self.ihr_fee, self.fwd_fee), (self.created_lt, created_at)),
        );
        <InternalAs as BitPackAs<InternalParts>>::pack_as(&parts, writer)
    }
}

impl BitUnpack for InternalMsgInfo {
    open spec fn decode(bits: Seq<bool>) -> Result<(InternalMsgInfoView, nat), Failure> {
        match <InternalAs as BitUnpackAs<InternalParts>>::decode_as(bits) {
            Err(e) => Err(e),
            Ok((((ihr_disabled, bounce, bounced), (src, dst, value), ((ihr_fee, fwd_fee), (created_lt, at))), n)) => Ok(
                (
                    InternalMsgInfoView {
                        ihr_disabled,
                        bounce,
                        bounced,
                        src,
                        dst,
                        value,
                        ihr_fee,
                        fwd_fee,
                        created_lt,
                        created_at: if at == 0 {
                            None
                        } else {
                            Some(at)
                        },
                    },
                    n,
                ),
            ),
        }
    }

    proof fn lemma_decode_within(bits: Seq<bool>) {
        let _own = Self::decode(bits);
        <InternalAs as BitUnpackAs<InternalParts>>::lemma_decode_as_within(bits);
    }

    fn unpack<R: BitReader>(reader: &mut R) -> (r: Result<Self, Error>) {
        let ghost _own = Self::decode(reader.remaining());
        let parts = match <InternalAs as BitUnpackAs<InternalParts>>::unpack_as(reader) {
            Ok(v) => v,
            Err(e) => {
                return Err(e);
            },
        };
        let ((ihr_disabled, bounce, bounced), (src, dst, value), ((ihr_fee, fwd_fee), (created_lt, at))) =
            parts;
        Ok(
            InternalMsgInfo {
                ihr_disabled,
                bounce,
                bounced,
                src,
                dst,
                value,
                ihr_fee,
                fwd_fee,
                created_lt,
                created_at: if at == 0 {
                    None
                } else {
                    Some(at)
                },
            },
        )
    }
}

impl BitCodec for InternalMsgInfo {
    proof fn lemma_round_trip(v: InternalMsgInfoView, rest: Seq<bool>) {
        let _own = (Self::packable(v), Self::encoding(v), Self::decode(rest));
        <InternalAs as BitCodecAs<InternalParts>>::lemma_round_trip_as(v.parts(), rest);
    }
}

/// What travels with a message, by the kind of the message.
#[derive(Debug, Clone, Copy, PartialEq, Eq)]
pub enum CommonMsgInfo {
    /// From one contract to another: written after one 0 bit.
    Internal(InternalMsgInfo),
    /// From outside of the chain: written after the bits 10.
    ExternalIn(ExternalInMsgInfo),
    /// To outside of the chain: written after the bits 11.
    ExternalOut(ExternalOutMsgInfo),
}

/// What such information holds.
pub ghost enum CommonMsgInfoView {
    Internal(InternalMsgInfoView),
    ExternalIn(ExternalInMsgInfoView),
    ExternalOut(ExternalOutMsgInfoView),
}

impl DeepView for CommonMsgInfo {
    type V = CommonMsgInfoView;

    open spec fn deep_view(&self) -> CommonMsgInfoView {
        match self {
            CommonMsgInfo::Internal(i) => CommonMsgInfoView::Internal(i.deep_view()),
            CommonMsgInfo::ExternalIn(i) => CommonMsgInfoView::ExternalIn(i.deep_view()),
            CommonMsgInfo::ExternalOut(i) => CommonMsgInfoView::ExternalOut(i.deep_view()),
        }
    }
}

impl BitPack for CommonMsgInfo {
    open spec fn packable(v: CommonMsgInfoView) -> bool {
        match v {
            CommonMsgInfoView::Internal(i) => InternalMsgInfo::packable(i),
            CommonMsgInfoView::ExternalIn(i) => ExternalInMsgInfo::packable(i),
            CommonMsgInfoView::ExternalOut(i) => ExternalOutMsgInfo::packable(i),
        }
    }

    open spec fn encoding(v: CommonMsgInfoView) -> Seq<bool> {
        match v {
            CommonMsgInfoView::Internal(i) => seq![false] + InternalMsgInfo::encoding(i),
            CommonMsgInfoView::ExternalIn(i) => seq![true, false] + ExternalInMsgInfo::encoding(i),
            CommonMsgInfoView::ExternalOut(i) => seq![true, true] + ExternalOutMsgInfo::encoding(i),
        }
    }

    open spec fn failure(v: CommonMsgInfoView, room: nat) -> Failure {
        match v {
            CommonMsgInfoView::Internal(i) => if room < 1 {
                Failure::of(ErrorKind::Capacity).at(Context::Field("tag"))
            } else {
                InternalMsgInfo::failure(i, (room - 1) as nat).at(Context::Field("internal"))
            },
            CommonMsgInfoView::ExternalIn(i) => if room < 2 {
                <(Same, Same) as BitPackAs<(bool, bool)>>::failure_as((true, false), room).at(
                    Context::Field("tag"),
                )
            } else {
                ExternalInMsgInfo::failure(i, (room - 2) as nat).at(Context::Field("external_in"))
            },
            CommonMsgInfoView::ExternalOut(i) => if room < 2 {
                <(Same, Same) as BitPackAs<(bool, bool)>>::failure_as((true, true), room).at(
                    Context::Field("tag"),
                )
            } else {
                ExternalOutMsgInfo::failure(i, (room - 2) as nat).at(
                    Context::Field("external_out"),
                )
            },
        }
    }

    fn pack<W: BitWriter>(&self, writer: &mut W) -> (r: Result<(), Error>) {
        let ghost _own = (
            Self::packable(self.deep_view()),
            Self::encoding(self.deep_view()),
            Self::failure(self.deep_view(), writer.room()),
        );
        match self {
            CommonMsgInfo::Internal(i) => pack_internal(i, writer),
            CommonMsgInfo::ExternalIn(i) => pack_external(false, i, writer, Context::Field("external_in")),
            CommonMsgInfo::ExternalOut(i) => pack_external(true, i, writer, Context::Field("external_out")),
        }
    }
}

/// Writes the tag 0 and the information that follows it.
fn pack_internal<W: BitWriter>(info: &InternalMsgInfo, writer: &mut W) -> (r: Result<(), Error>)
    requires
        old(writer).wf(),
    ensures
        pack_outcome(
            *old(writer),
            *final(writer),
            r,
            InternalMsgInfo::packable(info.deep_view()),
            seq![false] + InternalMsgInfo::encoding(info.deep_view()),
        ),
        r matches Err(e) ==> reports(
            e,
            old(writer).plain(),
            if old(writer).room() < 1 {
                Failure::of(ErrorKind::Capacity).at(Context::Field("tag"))
            } else {
                InternalMsgInfo::failure(info.deep_view(), (old(writer).room() - 1) as nat).at(
                    Context::Field("internal"),
                )
            },
        ),
{
    let ghost start = writer.written();
    pack_part_as::<bool, Same, W>(&false, writer, Context::Field("tag"), Ghost(start))?;
    pack_part_as::<InternalMsgInfo, Same, W>(info, writer, Context::Field("internal"), Ghost(start))?;
    proof {
        let bits = InternalMsgInfo::encoding(info.deep_view());
        assert(start + seq![false] + bits =~= start + (seq![false] + bits));
    }
    Ok(())
}

/// Writes the tag of two bits, the first one 1, and the information that
/// follows it.
fn pack_external<T: BitPack, W: BitWriter>(
    second: bool,
    info: &T,
    writer: &mut W,
    place: Context,
) -> (r: Result<(), Error>)
    requires
        old(writer).wf(),
    ensures
        pack_outcome(
            *old(writer),
            *final(writer),
            r,
            T::packable(info.deep_view()),
            seq![true, second] + T::encoding(info.deep_view()),
        ),
        r matches Err(e) ==> reports(
            e,
            old(writer).plain(),
            if old(writer).room() < 2 {
                <(Same, Same) as BitPackAs<(bool, bool)>>::failure_as(
                    (true, second),
                    old(writer).room(),
                ).at(Context::Field("tag"))
            } else {
                T::failure(info.deep_view(), (old(writer).room() - 2) as nat).at(place)
            },
        ),
{
    let ghost start = writer.written();
    pack_part_as::<(bool, bool), (Same, Same), W>(
        &(true, second),
        writer,
        Context::Field("tag"),
        Ghost(start),
    )?;
    pack_part_as::<T, Same, W>(info, writer, place, Ghost(start))?;
    proof {
        let bits = T::encoding(info.deep_view());
        assert(seq![true] + seq![second] =~= seq![true, second]);
        assert(start + seq![true, second] + bits =~= start + (seq![true, second] + bits));
    }
    Ok(())
}

/// The information about a message from or to outside of the chain, after
/// the first bit of its tag.
pub open spec fn external_of(bits: Seq<bool>) -> Result<(CommonMsgInfoView, nat), Failure> {
    if bits.len() <= 1 {
        Err(Failure::of(ErrorKind::Exhaustion).at(Context::Field("tag")))
    } else if !bits[1] {
        match ExternalInMsgInfo::decode(bits.skip(2)) {
            Ok((i, n)) => Ok((CommonMsgInfoView::ExternalIn(i), n + 2)),
            Err(e) => Err(e.at(Context::Field("external_in"))),
        }
    } else {
        match ExternalOutMsgInfo::decode(bits.skip(2)) {
            Ok((i, n)) => Ok((CommonMsgInfoView::ExternalOut(i), n + 2)),
            Err(e) => Err(e.at(Context::Field("external_out"))),
        }
    }
}

impl BitUnpack for CommonMsgInfo {
    open spec fn decode(bits: Seq<bool>) -> Result<(CommonMsgInfoView, nat), Failure> {
        if bits.len() == 0 {
            Err(Failure::of(ErrorKind::Exhaustion).at(Context::Field("tag")))
        } else if !bits[0] {
            match InternalMsgInfo::decode(bits.skip(1)) {
                Ok((i, n)) => Ok((CommonMsgInfoView::Internal(i), n + 1)),
                Err(e) => Err(e.at(Context::Field("internal"))),
            }
        } else {
            external_of(bits)
        }
    }

    proof fn lemma_decode_within(bits: Seq<bool>) {
        let _own = Self::decode(bits);
        if bits.len() > 0 {
            InternalMsgInfo::lemma_decode_within(bits.skip(1));
        }
        if bits.len() > 1 {
            ExternalInMsgInfo::lemma_decode_within(bits.skip(2));
            ExternalOutMsgInfo::lemma_decode_within(bits.skip(2));
        }
    }

    fn unpack<R: BitReader>(reader: &mut R) -> (r: Result<Self, Error>) {
        let ghost _own = Self::decode(reader.remaining());
        let ghost all = reader.remaining();
        proof {
            assert(all.skip(0) =~= all);
        }
        let external = unpack_part_as::<bool, Same, R>(
            reader,
            Context::Field("tag"),
            Ghost(all),
            Ghost(0),
        )?;
        if !external {
            unpack_internal(reader, Ghost(all))
        } else {
            unpack_external(reader, Ghost(all))
        }
    }
}

/// Reads what follows the tag 0.
#[verifier::rlimit(40)]
fn unpack_internal<R: BitReader>(reader: &mut R, Ghost(all): Ghost<Seq<bool>>) -> (r: Result<
    CommonMsgInfo,
    Error,
>)
    requires
        old(reader).wf(),
        all.len() >= 1,
        old(reader).remaining() == all.skip(1),
    ensures
        final(reader).wf(),
        match InternalMsgInfo::decode(all.skip(1)) {
            Ok((i, n)) => r matches Ok(x) && x.deep_view() == CommonMsgInfoView::Internal(i) && n
                + 1 <= all.len() && final(reader).remaining() == all.skip(n as int + 1),
            Err(k) => r matches Err(e) && e@ == k.at(Context::Field("internal")),
        },
{
    let i = unpack_part_as::<InternalMsgInfo, Same, R>(
        reader,
        Context::Field("internal"),
        Ghost(all),
        Ghost(1),
    )?;
    Ok(CommonMsgInfo::Internal(i))
}

/// Reads what follows the tag 1.
#[verifier::rlimit(40)]
fn unpack_external<R: BitReader>(reader: &mut R, Ghost(all): Ghost<Seq<bool>>) -> (r: Result<
    CommonMsgInfo,
    Error,
>)
    requires
        old(reader).wf(),
        all.len() >= 1,
        old(reader).remaining() == all.skip(1),
    ensures
        final(reader).wf(),
        match external_of(all) {
            Ok((v, n)) => r matches Ok(x) && x.deep_view() == v && n <= all.len() && final(reader).remaining() == all.skip(n as int),
            Err(k) => r matches Err(e) && e@ == k,
        },
{
    let out = unpack_part_as::<bool, Same, R>(
        reader,
        Context::Field("tag"),
        Ghost(all),
        Ghost(1),
    )?;
    proof {
        assert(all.skip(1)[0] == all[1]);
    }
    if !out {
        let i = unpack_part_as::<ExternalInMsgInfo, Same, R>(
            reader,
            Context::Field("external_in"),
            Ghost(all),
            Ghost(2),
        )?;
        Ok(CommonMsgInfo::ExternalIn(i))
    } else {
        let i = unpack_part_as::<ExternalOutMsgInfo, Same, R>(
            reader,
            Context::Field("external_out"),
            Ghost(all),
            Ghost(2),
        )?;
        Ok(CommonMsgInfo::ExternalOut(i))
    }
}

/// A bit string that starts with a given bit.
pub proof fn lemma_one_bit_head(a: bool, body: Seq<bool>, rest: Seq<bool>)
    ensures
        (seq![a] + body + rest).len() >= 1,
        (seq![a] + body + rest)[0] == a,
        (seq![a] + body + rest).skip(1) == body + rest,
        (seq![a] + body).len() == body.len() + 1,
{
    assert((seq![a] + body + rest).skip(1) =~= body + rest);
}

/// A bit string that starts with two given bits.
pub proof fn lemma_two_bit_head(a: bool, b: bool, body: Seq<bool>, rest: Seq<bool>)
    ensures
        (seq![a, b] + body + rest).len() >= 2,
        (seq![a, b] + body + rest)[0] == a,
        (seq![a, b] + body + rest)[1] == b,
        (seq![a, b] + body + rest).skip(2) == body + rest,
        (seq![a, b] + body).len() == body.len() + 2,
{
    assert((seq![a, b] + body + rest).skip(2) =~= body + rest);
}

/// Information about a message from one contract to another is read back
/// as it was written.
#[verifier::rlimit(40)]
pub proof fn lemma_common_internal(i: InternalMsgInfoView, rest: Seq<bool>)
    requires
        InternalMsgInfo::packable(i),
    ensures
        CommonMsgInfo::decode(CommonMsgInfo::encoding(CommonMsgInfoView::Internal(i)) + rest)
            == Ok::<(CommonMsgInfoView, nat), Failure>(
            (
                CommonMsgInfoView::Internal(i),
                CommonMsgInfo::encoding(CommonMsgInfoView::Internal(i)).len(),
            ),
        ),
{
    InternalMsgInfo::lemma_round_trip(i, rest);
    lemma_one_bit_head(false, InternalMsgInfo::encoding(i), rest);
}

/// Information about a message from outside of the chain is read back as
/// it was written.
#[verifier::rlimit(40)]
pub proof fn lemma_common_external_in(i: ExternalInMsgInfoView, rest: Seq<bool>)
    requires
        ExternalInMsgInfo::packable(i),
    ensures
        CommonMsgInfo::decode(CommonMsgInfo::encoding(CommonMsgInfoView::ExternalIn(i)) + rest)
            == Ok::<(CommonMsgInfoView, nat), Failure>(
            (
                CommonMsgInfoView::ExternalIn(i),
                CommonMsgInfo::encoding(CommonMsgInfoView::ExternalIn(i)).len(),
            ),
        ),
{
    ExternalInMsgInfo::lemma_round_trip(i, rest);
    lemma_two_bit_head(true, false, ExternalInMsgInfo::encoding(i), rest);
}

/// Information about a message to outside of the chain is read back as it
/// was written.
#[verifier::rlimit(40)]
pub proof fn lemma_common_external_out(i: ExternalOutMsgInfoView, rest: Seq<bool>)
    requires
        ExternalOutMsgInfo::packable(i),
    ensures
        CommonMsgInfo::decode(CommonMsgInfo::encoding(CommonMsgInfoView::ExternalOut(i)) + rest)
            == Ok::<(CommonMsgInfoView, nat), Failure>(
            (
                CommonMsgInfoView::ExternalOut(i),
                CommonMsgInfo::encoding(CommonMsgInfoView::ExternalOut(i)).len(),
            ),
        ),
{
    ExternalOutMsgInfo::lemma_round_trip(i, rest);
    lemma_two_bit_head(true, true, ExternalOutMsgInfo::encoding(i), rest);
}

impl BitCodec for CommonMsgInfo {
    proof fn lemma_round_trip(v: CommonMsgInfoView, rest: Seq<bool>) {
        let _own = (Self::packable(v), Self::encoding(v), Self::decode(rest));
        match v {
            CommonMsgInfoView::Internal(i) => {
                lemma_common_internal(i, rest);
            },
            CommonMsgInfoView::ExternalIn(i) => {
                lemma_common_external_in(i, rest);
            },
            CommonMsgInfoView::ExternalOut(i) => {
                lemma_common_external_out(i, rest);
            },
        }
    }
}

} // verus!
