use std::sync::Arc;
use tlbits::builder::CellBuilder;
use tlbits::cell::Cell;
use tlbits::cell_ser::CellSerializeExt;
use tlbits::cell_ser::{Data, Ref};
use tlbits::either::Either;
use tlbits::error::{Context, ErrorKind};
use tlbits::integer::NBits;
use tlbits::reader::BitReader;
use tlbits::ser_as::Same;
use tlbits::writer::BitWriter;

#[test]
fn empty_cell_is_valid() {
    let cell = CellBuilder::new().into_cell();
    assert!(cell.is_empty());
    assert_eq!(cell.bits_len(), 0);
    assert!(cell.reference(0).is_none());
    assert_eq!(cell, Cell::new());
}

#[test]
fn cell_with_a_reference_and_no_bits_is_valid() {
    let mut b = CellBuilder::new();
    b.store_reference(Arc::new(Cell::new())).unwrap();
    let cell = b.into_cell();
    assert_eq!(cell.bits_len(), 0);
    assert!(cell.reference(0).unwrap().is_empty());
    assert!(!cell.is_empty());
}

#[test]
fn builder_rejects_the_1024th_bit() {
    let mut b = CellBuilder::new();
    b.repeat_bit(1023, true).unwrap();
    let err = b.write_bit(false).unwrap_err();
    assert_eq!(err.kind, ErrorKind::Capacity);
    assert_eq!(b.bits_len(), 1023);
    let err = b.pack(7u8).unwrap_err();
    assert_eq!(err.kind, ErrorKind::Capacity);
    assert_eq!(b.bits_len(), 1023);
    assert_eq!(b.references_len(), 0);
}

#[test]
fn builder_keeps_its_state_when_a_value_does_not_fit() {
    let mut b = CellBuilder::new();
    b.repeat_bit(1020, false).unwrap();
    let err = b.pack(0xFFu8).unwrap_err();
    assert_eq!(err.kind, ErrorKind::Capacity);
    assert_eq!(b.bits_len(), 1020);
    b.pack_as::<u8, NBits<3>>(5).unwrap();
    assert_eq!(b.bits_len(), 1023);
}

#[test]
fn builder_rejects_the_fifth_reference() {
    let mut b = CellBuilder::new();
    for _ in 0..4 {
        b.store_reference(Arc::new(Cell::new())).unwrap();
    }
    let err = b.store_reference(Arc::new(Cell::new())).unwrap_err();
    assert_eq!(err.kind, ErrorKind::Capacity);
    assert_eq!(b.references_len(), 4);
    let err = b.store_reference_as::<(), Same>(()).unwrap_err();
    assert_eq!(err.kind, ErrorKind::Capacity);
    assert_eq!(b.references_len(), 4);
}

#[test]
fn parser_fails_with_exhaustion_past_the_end() {
    let mut b = CellBuilder::new();
    b.pack(true).unwrap();
    let cell = b.into_cell();
    let mut p = cell.parser();
    assert_eq!(p.unpack::<bool>().unwrap(), true);
    let err = p.unpack::<bool>().unwrap_err();
    assert_eq!(err.kind, ErrorKind::Exhaustion);
    let err = p.read_bit().unwrap_err();
    assert_eq!(err.kind, ErrorKind::Exhaustion);
    let err = p.next_reference().unwrap_err();
    assert_eq!(err.kind, ErrorKind::Exhaustion);
    let err = p.unpack::<u32>().unwrap_err();
    assert_eq!(err.kind, ErrorKind::Exhaustion);
}

#[test]
fn parse_fully_rejects_one_trailing_bit() {
    let mut b = CellBuilder::new();
    b.store(Some(())).unwrap();
    b.pack(false).unwrap();
    let cell = b.into_cell();
    let err = cell.parse_fully::<Option<()>>().unwrap_err();
    assert_eq!(err.kind, ErrorKind::TrailingData);
    assert_eq!(cell.parse::<Option<()>>().unwrap(), Some(()));
}

#[test]
fn parse_fully_rejects_a_trailing_reference() {
    let mut b = CellBuilder::new();
    b.store_reference(Arc::new(Cell::new())).unwrap();
    let cell = b.into_cell();
    let err = cell.parse_fully::<()>().unwrap_err();
    assert_eq!(err.kind, ErrorKind::TrailingData);
    assert!(cell.parse::<()>().is_ok());
}

#[test]
fn either_in_a_cell() {
    let left: Either<(), Cell> = Either::Left(());
    let cell = left.to_cell().unwrap();
    assert_eq!(cell.data.to_bools(), vec![false]);
    assert_eq!(cell.parse_fully::<Either<(), Cell>>().unwrap(), Either::Left(()));

    let mut inner = CellBuilder::new();
    inner.pack(0xABu8).unwrap();
    let inner = inner.into_cell();
    let right: Either<(), Cell> = Either::Right(inner.clone());
    let cell = right.to_cell().unwrap();
    assert_eq!(cell.bits_len(), 9);
    assert_eq!(cell.data.get(0), Some(true));
    assert_eq!(cell.parse_fully::<Either<(), Cell>>().unwrap(), Either::Right(inner));
}

#[test]
fn either_as_with_a_reference_on_the_right() {
    let mut b = CellBuilder::new();
    b.store_as::<Either<u8, u8>, Either<Data<Same>, Ref<Data<NBits<4>>>>>(Either::Right(9)).unwrap();
    let cell = b.into_cell();
    assert_eq!(cell.data.to_bools(), vec![true]);
    let child = cell.reference(0).unwrap();
    assert_eq!(child.data.to_bools(), vec![true, false, false, true]);
    let back = cell
        .parse_fully_as::<Either<u8, u8>, Either<Data<Same>, Ref<Data<NBits<4>>>>>()
        .unwrap();
    assert_eq!(back, Either::Right(9));
}

#[test]
fn option_in_a_cell_is_one_bit_then_the_value() {
    let none: Option<Cell> = None;
    assert_eq!(none.to_cell().unwrap().data.to_bools(), vec![false]);
    let mut b = CellBuilder::new();
    b.store_as::<Option<u8>, Option<Data<Same>>>(Some(1)).unwrap();
    let cell = b.into_cell();
    assert_eq!(
        cell.data.to_bools(),
        vec![true, false, false, false, false, false, false, false, true]
    );
    assert_eq!(cell.parse_fully_as::<Option<u8>, Either<(), Data<Same>>>().unwrap(), Some(1));
}

#[test]
fn errors_carry_the_place_of_failure() {
    let mut b = CellBuilder::new();
    b.repeat_bit(1023, true).unwrap();
    let err = b.store(Either::<(), ()>::Left(())).unwrap_err();
    assert_eq!(err.kind, ErrorKind::Capacity);
    assert_eq!(err.trail, vec![Context::Field("tag")]);

    let mut b = CellBuilder::new();
    b.repeat_bit(1022, true).unwrap();
    let mut payload = CellBuilder::new();
    payload.pack(true).unwrap();
    let err = b.store(Either::<(), Cell>::Right(payload.into_cell())).unwrap_err();
    assert_eq!(err.trail, vec![Context::Field("right")]);

    let cell = Cell::new();
    let err = cell.parse::<Either<(), ()>>().unwrap_err();
    assert_eq!(err.kind, ErrorKind::Exhaustion);
    assert_eq!(err.trail, vec![Context::Field("tag")]);
}
