use tlbits::de::{unpack, unpack_bytes, unpack_bytes_fully, unpack_fully};
use tlbits::de_as::{
    unpack_as, unpack_bytes_as, unpack_bytes_fully_as, unpack_fully_as, DefaultOnNone,
};
use tlbits::either::Either;
use tlbits::error::ErrorKind;
use tlbits::integer::NBits;
use tlbits::ser::pack;
use tlbits::ser_as::{pack_as, Same};
use tlbits::storage::Bits;
use tlbits::writer::BitWriter;
use tlbits::writer::LimitWriter;

fn bits(bools: &[bool]) -> Bits {
    Bits::from_bools(bools).unwrap()
}

#[test]
fn new_bits_are_empty() {
    assert_eq!(Bits::new().len(), 0);
    assert!(Bits::new().is_empty());
}

#[test]
fn bytes_are_read_most_significant_bit_first() {
    let b = Bits::from_bytes(&[0b1010_0000, 0x01]).unwrap();
    assert_eq!(b.len(), 16);
    assert_eq!(
        b.to_bools(),
        vec![
            true, false, true, false, false, false, false, false, false, false, false, false,
            false, false, false, true
        ]
    );
}

#[test]
fn maybe_none_is_one_zero_bit() {
    let packed = pack(None::<u8>).unwrap();
    assert_eq!(packed.to_bools(), vec![false]);
}

#[test]
fn maybe_some_is_one_bit_then_value() {
    let packed = pack(Some(0xA5u8)).unwrap();
    assert_eq!(
        packed.to_bools(),
        vec![true, true, false, true, false, false, true, false, true]
    );
    let back: Option<u8> = unpack_fully(&packed).unwrap();
    assert_eq!(back, Some(0xA5));
}

#[test]
fn either_tag_is_zero_for_left_and_one_for_right() {
    let left = pack(Either::<bool, u8>::Left(true)).unwrap();
    assert_eq!(left.to_bools(), vec![false, true]);
    let right = pack(Either::<bool, u8>::Right(1)).unwrap();
    assert_eq!(right.len(), 9);
    assert_eq!(right.get(0), Some(true));
    let back: Either<bool, u8> = unpack_fully(&right).unwrap();
    assert_eq!(back, Either::Right(1));
}

#[test]
fn tuple_round_trip() {
    let packed = pack((7u8, true, 0xDEADBEEFu32)).unwrap();
    assert_eq!(packed.len(), 41);
    let back: (u8, bool, u32) = unpack_fully(&packed).unwrap();
    assert_eq!(back, (7, true, 0xDEADBEEF));
}

#[test]
fn u64_round_trip() {
    let packed = pack(u64::MAX - 1).unwrap();
    assert_eq!(packed.len(), 64);
    assert_eq!(packed.get(63), Some(false));
    assert_eq!(unpack_fully::<u64>(&packed).unwrap(), u64::MAX - 1);
}

#[test]
fn unpack_fully_rejects_a_trailing_bit() {
    let data = bits(&[true, false]);
    let err = unpack_fully::<bool>(&data).unwrap_err();
    assert_eq!(err.kind, ErrorKind::TrailingData);
    assert_eq!(unpack::<bool>(&data).unwrap(), true);
}

#[test]
fn unpack_from_nothing_is_exhaustion() {
    let err = unpack::<bool>(&Bits::new()).unwrap_err();
    assert_eq!(err.kind, ErrorKind::Exhaustion);
    let err = unpack::<u16>(&bits(&[true; 15])).unwrap_err();
    assert_eq!(err.kind, ErrorKind::Exhaustion);
}

#[test]
fn unpack_bytes_reads_the_front() {
    assert_eq!(unpack_bytes::<u8>(&[0x12, 0x34]).unwrap(), 0x12);
    assert_eq!(unpack_bytes::<u16>(&[0x12, 0x34]).unwrap(), 0x1234);
    assert_eq!(unpack_bytes_fully::<u16>(&[0x12, 0x34]).unwrap(), 0x1234);
    let err = unpack_bytes_fully::<u8>(&[0x12, 0x34]).unwrap_err();
    assert_eq!(err.kind, ErrorKind::TrailingData);
}

#[test]
fn nbits_writes_the_lowest_digits() {
    let packed = pack_as::<u8, NBits<3>>(0b101).unwrap();
    assert_eq!(packed.to_bools(), vec![true, false, true]);
    assert_eq!(unpack_fully_as::<u8, NBits<3>>(&packed).unwrap(), 5);
    let err = pack_as::<u8, NBits<3>>(8).unwrap_err();
    assert_eq!(err.kind, ErrorKind::Custom);
}

#[test]
fn unpack_as_variants() {
    assert_eq!(unpack_bytes_as::<u8, NBits<4>>(&[0xAB]).unwrap(), 0xA);
    let err = unpack_bytes_fully_as::<u8, NBits<4>>(&[0xAB]).unwrap_err();
    assert_eq!(err.kind, ErrorKind::TrailingData);
    assert_eq!(unpack_bytes_fully_as::<u8, NBits<8>>(&[0xAB]).unwrap(), 0xAB);
    let data = bits(&[true, true, false]);
    assert_eq!(unpack_as::<Option<u8>, Option<NBits<2>>>(&data).unwrap(), Some(2));
    assert_eq!(unpack_as::<bool, Same>(&data).unwrap(), true);
}

#[test]
fn default_on_none_gives_the_default() {
    let absent = bits(&[false]);
    assert_eq!(unpack_fully_as::<u8, DefaultOnNone<Same>>(&absent).unwrap(), 0);
    let present = pack(Some(9u8)).unwrap();
    assert_eq!(unpack_fully_as::<u8, DefaultOnNone<Same>>(&present).unwrap(), 9);
}

#[test]
fn limit_writer_takes_exactly_the_limit() {
    let mut w = LimitWriter::new(Bits::new(), 3);
    assert!(w.repeat_bit(3, true).is_ok());
    assert_eq!(w.bit_count(), 3);
    let err = w.write_bit(false).unwrap_err();
    assert_eq!(err.kind, ErrorKind::Capacity);
    assert_eq!(w.bit_count(), 3);
    assert!(w.ensure_more(0).is_ok());
    assert!(w.ensure_more(1).is_err());
    assert_eq!(w.into_inner().to_bools(), vec![true, true, true]);
}
