use std::sync::Arc;
use tlbits::address::MsgAddress;
use tlbits::builder::CellBuilder;
use tlbits::cell::Cell;
use tlbits::cell_ser::{CellSerialize, CellSerializeExt};
use tlbits::currency::{CurrencyCollection, Grams};
use tlbits::de::unpack_fully;
use tlbits::de_as::unpack_fully_as;
use tlbits::either::Either;
use tlbits::envelope::Message;
use tlbits::error::{Context, ErrorKind};
use tlbits::integer::NBits;
use tlbits::message::{CommonMsgInfo, InternalMsgInfo};
use tlbits::ser::{pack, BitPack};
use tlbits::ser_as::{pack_as, Same};
use tlbits::state_init::StateInit;
use tlbits::storage::Bits;
use tlbits::writer::{BitWriter, LimitWriter, Tee};

fn full_of_bits(bits: usize, references: usize) -> CellBuilder {
    let mut b = CellBuilder::new();
    b.repeat_bit(bits, true).unwrap();
    for _ in 0..references {
        b.store_reference(Arc::new(Cell::new())).unwrap();
    }
    b
}

fn cell_of(bits: usize, references: usize) -> Cell {
    full_of_bits(bits, references).into_cell()
}

#[test]
fn a_failed_store_of_one_of_two_leaves_the_builder_as_it_was() {
    for held in 0..=4 {
        let mut b = full_of_bits(1023, held);
        let before = full_of_bits(1023, held).into_cell();
        let left: Either<Cell, ()> = Either::Left(cell_of(0, 1));
        let err = CellSerialize::store(&left, &mut b).unwrap_err();
        assert_eq!(err.kind, ErrorKind::Capacity);
        assert_eq!(err.trail, vec![Context::Field("tag")]);
        assert_eq!(b.bits_len(), 1023);
        assert_eq!(b.references_len(), held);
        assert_eq!(b.into_cell(), before);
    }
}

#[test]
fn a_store_that_fails_after_its_tag_takes_the_tag_back() {
    let mut b = full_of_bits(1000, 3);
    let before = full_of_bits(1000, 3).into_cell();
    // the tag fits, the two references of the payload do not
    let right: Either<(), Cell> = Either::Right(cell_of(4, 2));
    let err = CellSerialize::store(&right, &mut b).unwrap_err();
    assert_eq!(err.kind, ErrorKind::Capacity);
    assert_eq!(err.trail, vec![Context::Field("right")]);
    assert_eq!(b.bits_len(), 1000);
    assert_eq!(b.references_len(), 3);
    assert_eq!(b.into_cell(), before);

    let left: Either<Cell, ()> = Either::Left(cell_of(23, 0));
    let mut b = full_of_bits(1000, 3);
    let err = CellSerialize::store(&left, &mut b).unwrap_err();
    assert_eq!(err.trail, vec![Context::Field("left")]);
    assert_eq!(b.into_cell(), before);
}

#[test]
fn a_trail_leads_from_the_point_of_failure_out() {
    let err = pack_as::<(u8, (u8, u8)), (Same, (Same, NBits<3>))>((1, (2, 200))).unwrap_err();
    assert_eq!(err.kind, ErrorKind::Custom);
    assert_eq!(err.trail, vec![Context::Slot(1), Context::Slot(1)]);

    let err = pack_as::<(u128, u8), (Grams, Same)>((1u128 << 120, 0)).unwrap_err();
    assert_eq!(err.kind, ErrorKind::Custom);
    assert_eq!(err.trail, vec![Context::Slot(0)]);

    let err = pack_as::<Option<(u8, u8)>, Option<(NBits<3>, Same)>>(Some((9, 0))).unwrap_err();
    assert_eq!(err.trail, vec![Context::Slot(0), Context::Field("right")]);

    let mut w = LimitWriter::new(Bits::new(), 12);
    let err = vec![(1u8, 2u8), (3, 4)].pack(&mut w).unwrap_err();
    assert_eq!(err.kind, ErrorKind::Capacity);
    assert_eq!(err.trail, vec![Context::Slot(1), Context::Index(0)]);
}

fn internal_at(created_at: Option<u32>) -> InternalMsgInfo {
    InternalMsgInfo {
        ihr_disabled: true,
        bounce: false,
        bounced: false,
        src: MsgAddress::null(),
        dst: MsgAddress::null(),
        value: CurrencyCollection::zero(),
        ihr_fee: 0,
        fwd_fee: 0,
        created_lt: 7,
        created_at,
    }
}

#[test]
fn a_message_names_the_part_that_cannot_be_stored() {
    let msg = Message::<(), (), ()> {
        info: CommonMsgInfo::Internal(internal_at(Some(0))),
        init: None,
        body: (),
    };
    let err = msg.to_cell().unwrap_err();
    assert_eq!(err.kind, ErrorKind::Custom);
    assert_eq!(err.trail, vec![Context::Field("internal"), Context::Field("info")]);

    let mut b = full_of_bits(1020, 0);
    let before = full_of_bits(1020, 0).into_cell();
    let msg = Message::<(), (), ()> {
        info: CommonMsgInfo::Internal(internal_at(None)),
        init: None,
        body: (),
    };
    let err = CellSerialize::store(&msg, &mut b).unwrap_err();
    assert_eq!(err.kind, ErrorKind::Capacity);
    assert_eq!(*err.trail.last().unwrap(), Context::Field("info"));
    assert_eq!(b.into_cell(), before);
}

#[test]
fn normalize_returns_the_error_of_the_part_that_has_no_cell() {
    let wide: Either<Cell, ()> = Either::Left(cell_of(1023, 0));
    let msg = Message::<Either<Cell, ()>, (), ()> {
        info: CommonMsgInfo::Internal(internal_at(None)),
        init: None,
        body: wide,
    };
    let err = msg.normalize().unwrap_err();
    assert_eq!(err.kind, ErrorKind::Capacity);
    assert_eq!(err.trail, vec![Context::Field("left")]);

    let state = StateInit::<Either<Cell, ()>, ()> {
        split_depth: None,
        special: None,
        code: Some(Either::Left(cell_of(1023, 0))),
        data: Some(()),
    };
    let err = state.normalize().unwrap_err();
    assert_eq!(err.kind, ErrorKind::Capacity);
    assert_eq!(err.trail, vec![Context::Field("left")]);
    let msg = Message::<(), Either<Cell, ()>, ()> {
        info: CommonMsgInfo::Internal(internal_at(None)),
        init: Some(state),
        body: (),
    };
    let err = msg.normalize().unwrap_err();
    assert_eq!(err.trail, vec![Context::Field("left")]);
}

#[test]
fn a_failed_bulk_write_has_written_some_of_the_first_bits_and_no_others() {
    let bits = Bits::from_bools(&[true, false, false, true, true, false]).unwrap();
    // a writer with bulk writes of its own takes all or nothing
    let mut w = LimitWriter::new(Bits::new(), 4);
    assert!(w.write_bitslice(&bits).is_err());
    assert_eq!(w.bit_count(), 0);
    // the first of two writers has taken all where only the second fails
    let mut t = Tee::new(Bits::new(), LimitWriter::new(Bits::new(), 4));
    let err = t.write_bitslice(&bits).unwrap_err();
    assert_eq!(err.trail, vec![Context::Field("writer")]);
    let (first, second) = t.into_inner();
    assert_eq!(first.to_bools(), bits.to_bools());
    assert_eq!(second.bit_count(), 0);
}

#[test]
fn tuples_of_up_to_ten_parts_are_written_part_by_part() {
    let four = (1u8, true, 0x0203u16, 4u8);
    let bits = pack(four).unwrap();
    assert_eq!(bits.len(), 8 + 1 + 16 + 8);
    assert_eq!(unpack_fully::<(u8, bool, u16, u8)>(&bits).unwrap(), four);

    let ten = (0u8, 1u8, 2u8, 3u8, 4u8, 5u8, 6u8, 7u8, 8u8, 9u8);
    let bits = pack(ten).unwrap();
    assert_eq!(bits.to_bools(), Bits::from_bytes(&[0, 1, 2, 3, 4, 5, 6, 7, 8, 9]).unwrap().to_bools());
    assert_eq!(unpack_fully::<(u8, u8, u8, u8, u8, u8, u8, u8, u8, u8)>(&bits).unwrap(), ten);

    // nine bytes and four bits: the last part cannot be read
    let mut short = bits.to_bools();
    short.truncate(76);
    let short = Bits::from_bools(&short).unwrap();
    let err = unpack_fully::<(u8, u8, u8, u8, u8, u8, u8, u8, u8, u8)>(&short).unwrap_err();
    assert_eq!(err.kind, ErrorKind::Exhaustion);
    assert_eq!(err.trail, vec![Context::Slot(9)]);
    let err = unpack_fully::<(u8, u8, u8, u8, u8, u8, u8)>(&Bits::from_bytes(&[0, 1, 2]).unwrap())
        .unwrap_err();
    assert_eq!(err.trail, vec![Context::Slot(3)]);

    let mut w = LimitWriter::new(Bits::new(), 50);
    let err = ten.pack(&mut w).unwrap_err();
    assert_eq!(err.kind, ErrorKind::Capacity);
    assert_eq!(err.trail, vec![Context::Slot(6)]);
    // six parts and the first two bits of the seventh were passed on
    assert_eq!(w.bit_count(), 50);
    assert_eq!(w.into_inner().to_bools()[..48], bits.to_bools()[..48]);
}

#[test]
fn strategies_for_up_to_ten_parts_are_applied_in_their_order() {
    type Parts = (u8, u8, u128, u8, u8, u8);
    type PartsAs = (NBits<3>, Same, Grams, NBits<1>, Same, NBits<7>);
    let v: Parts = (5, 255, 1_000, 1, 0, 100);
    let bits = pack_as::<Parts, PartsAs>(v).unwrap();
    assert_eq!(bits.len(), 3 + 8 + (4 + 16) + 1 + 8 + 7);
    assert_eq!(unpack_fully_as::<Parts, PartsAs>(&bits).unwrap(), v);
    let err = pack_as::<Parts, PartsAs>((5, 255, 1_000, 2, 0, 100)).unwrap_err();
    assert_eq!(err.kind, ErrorKind::Custom);
    assert_eq!(err.trail, vec![Context::Slot(3)]);
    let err = pack_as::<Parts, PartsAs>((5, 255, 1_000, 1, 0, 128)).unwrap_err();
    assert_eq!(err.trail, vec![Context::Slot(5)]);

    type Ten = (u8, u8, u8, u8, u8, u8, u8, u8, u8, u8);
    type TenAs =
        (NBits<1>, NBits<2>, NBits<3>, NBits<4>, NBits<5>, NBits<6>, NBits<7>, Same, NBits<2>, NBits<1>);
    let v: Ten = (1, 2, 4, 8, 16, 32, 64, 128, 3, 0);
    let bits = pack_as::<Ten, TenAs>(v).unwrap();
    assert_eq!(bits.len(), 1 + 2 + 3 + 4 + 5 + 6 + 7 + 8 + 2 + 1);
    assert_eq!(unpack_fully_as::<Ten, TenAs>(&bits).unwrap(), v);
    let err = pack_as::<Ten, TenAs>((1, 2, 4, 8, 16, 32, 64, 128, 4, 0)).unwrap_err();
    assert_eq!(err.trail, vec![Context::Slot(8)]);
}
