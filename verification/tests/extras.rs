use std::sync::Arc;
use tlbits::boc::BagOfCells;
use tlbits::boc_wire::BagOfCellsArgs;
use tlbits::builder::CellBuilder;
use tlbits::cell::Cell;
use tlbits::cell_ser::Data;
use tlbits::de::unpack_fully;
use tlbits::error::{Context, ErrorKind};
use tlbits::integer::NBits;
use tlbits::reader::BitCursor;
use tlbits::reader::BitReader;
use tlbits::sequence::{unpack_many_as, write_bytes};
use tlbits::ser::pack;
use tlbits::ser_as::Same;
use tlbits::storage::Bits;
use tlbits::writer::BitWriter;
use tlbits::writer::{BitCounter, LimitWriter, Tee};
use tlbits::writer_ext::BitWriterExt;

fn hex(bytes: &[u8]) -> String {
    bytes.iter().map(|b| format!("{b:02x}")).collect()
}

#[test]
fn hash_of_the_empty_cell() {
    let h = Cell::new().hash().unwrap();
    assert_eq!(hex(&h), "96a296d224f285c67bee93c30f8a309157f0daa35dc5b87e410b78630a09cfc7");
    assert_eq!(Cell::new().depth().unwrap(), 0);
}

#[test]
fn hash_depends_on_bits_and_on_references() {
    let mut b = CellBuilder::new();
    b.pack(true).unwrap();
    let one = b.into_cell();
    let mut b = CellBuilder::new();
    b.pack(false).unwrap();
    let zero = b.into_cell();
    assert_ne!(one.hash().unwrap(), zero.hash().unwrap());
    assert_ne!(one.hash().unwrap(), Cell::new().hash().unwrap());

    let mut b = CellBuilder::new();
    b.store_reference(Arc::new(one.clone())).unwrap();
    let parent_of_one = b.into_cell();
    let mut b = CellBuilder::new();
    b.store_reference(Arc::new(zero)).unwrap();
    let parent_of_zero = b.into_cell();
    assert_ne!(parent_of_one.hash().unwrap(), parent_of_zero.hash().unwrap());
    assert_eq!(parent_of_one.depth().unwrap(), 1);
    assert_eq!(parent_of_one.hash().unwrap(), parent_of_one.clone().hash().unwrap());

    let big = Cell { data: Bits::from_bools(&[false; 1024]).unwrap(), references: vec![] };
    assert_eq!(big.hash().unwrap_err().kind, ErrorKind::Custom);
}

#[test]
fn bag_as_text() {
    let with_crc = BagOfCellsArgs { has_idx: false, has_crc32c: true };
    let bag = BagOfCells::from_root(Arc::new(Cell::new()));
    assert_eq!(bag.serialize_base64(with_crc).unwrap(), "te6cckEBAQEAAgAAAEysuc0=");
    let back = BagOfCells::parse_base64("te6cckEBAQEAAgAAAEysuc0=").unwrap();
    assert!(back.single_root().unwrap().is_empty());
    let plain = BagOfCells::parse_base64("te6ccgEBAQEAAgAAAA==").unwrap();
    assert!(plain.single_root().unwrap().is_empty());
    assert_eq!(
        BagOfCells::parse_base64("not base64!").unwrap_err().kind,
        ErrorKind::Corruption
    );
    assert_eq!(BagOfCells::parse_base64("AAAA").unwrap_err().kind, ErrorKind::Corruption);
}

#[test]
fn bits_storage() {
    let a = Bits::from_bools(&[true, false, true, true]).unwrap();
    let b = Bits::from_bools(&[false, false]).unwrap();
    assert_eq!(a.len(), 4);
    assert_eq!(a.get(1), Some(false));
    assert_eq!(a.get(2), Some(true));
    assert_eq!(a.get(4), None);
    assert!(!a.same(&b));
    assert!(a.same(&a.copy()));
    assert_eq!(a.range(1, 3).unwrap().to_bools(), vec![false, true]);
    assert!(a.range(3, 1).is_none());
    assert!(a.range(0, 5).is_none());
    assert!(a.range(4, 4).unwrap().is_empty());
    let mut c = a.copy();
    assert!(c.extend(&b));
    assert_eq!(c.to_bools(), vec![true, false, true, true, false, false]);
    assert!(c.extend_repeat(2, true));
    assert_eq!(c.len(), 8);
    assert_eq!(c.get(7), Some(true));
    assert!(c.push(false));
    assert_eq!(c.to_bools().last(), Some(&false));
    assert_eq!(c, {
        let mut d = Bits::from_bytes(&[0b1011_0011]).unwrap();
        d.push(false);
        d
    });
}

#[test]
fn counter_counts_what_was_written() {
    let mut w = BitCounter::new(Bits::new());
    w.write_bit(true).unwrap();
    w.repeat_bit(5, false).unwrap();
    w.write_bitslice(&Bits::from_bools(&[true, true]).unwrap()).unwrap();
    assert_eq!(w.bit_count(), 8);
    assert_eq!(w.into_inner().to_bools(), vec![true, false, false, false, false, false, true, true]);
}

#[test]
fn tee_writes_to_both_and_marks_the_error_of_the_second() {
    let mut t = Tee::new(Bits::new(), LimitWriter::new(Bits::new(), 2));
    t.write_bit(true).unwrap();
    t.write_bit(false).unwrap();
    let err = t.write_bit(true).unwrap_err();
    assert_eq!(err.kind, ErrorKind::Capacity);
    assert_eq!(err.trail, vec![Context::Field("writer")]);
    let (first, second) = t.into_inner();
    assert_eq!(first.to_bools(), vec![true, false, true]);
    assert_eq!(second.into_inner().to_bools(), vec![true, false]);
}

#[test]
fn writer_extensions() {
    let mut w = Bits::new().limit(24);
    w.with_bit(true).unwrap();
    w.with_repeat_bit(7, false).unwrap();
    w.with_bytes(&[0xFF]).unwrap();
    BitWriterExt::pack(&mut w, 0x0Fu8).unwrap();
    let err = w.with_bit(true).unwrap_err();
    assert_eq!(err.kind, ErrorKind::Capacity);
    assert_eq!(w.bit_count(), 24);
    let bits = w.into_inner();
    assert_eq!(unpack_fully::<(u8, u8, u8)>(&bits).unwrap(), (0x80, 0xFF, 0x0F));

    let mut w = Bits::new().counted();
    w.pack_many(&[1u8, 2, 3]).unwrap();
    assert_eq!(w.bit_count(), 24);
    let mut w = Bits::new().limit(20);
    let err = w.pack_many(&[1u8, 2, 3]).unwrap_err();
    assert_eq!(err.trail, vec![Context::Index(2)]);
    let mut both = Bits::new().tee(Bits::new());
    write_bytes(&mut both, &[0xA0]).unwrap();
    let (a, b) = both.into_inner();
    assert_eq!(a, b);
    assert_eq!(a.len(), 8);
}

#[test]
fn sequences_are_read_one_after_the_other() {
    let packed = pack(vec![1u8, 2, 3]).unwrap();
    assert_eq!(packed.len(), 24);
    let mut r = BitCursor::new(&packed);
    let back: Vec<u8> = unpack_many_as::<u8, Same, _>(&mut r, 3).unwrap();
    assert_eq!(back, vec![1, 2, 3]);
    assert_eq!(r.bits_left(), 0);
    let mut r = BitCursor::new(&packed);
    let err = unpack_many_as::<u8, Same, _>(&mut r, 4).unwrap_err();
    assert_eq!(err.kind, ErrorKind::Exhaustion);
    assert_eq!(err.trail, vec![Context::Index(3)]);
    let arr: [u8; 3] = unpack_fully(&packed).unwrap();
    assert_eq!(arr, [1, 2, 3]);
    let mut r = BitCursor::new(&packed);
    assert_eq!(r.read_bits(8).unwrap().to_bools(), Bits::from_bytes(&[1]).unwrap().to_bools());
    r.skip(8).unwrap();
    assert_eq!(r.consumed(), 16);
    assert_eq!(r.read_bits(9).unwrap_err().kind, ErrorKind::Exhaustion);
}

#[test]
fn the_first_part_that_fails_gives_the_kind_of_the_error() {
    // the second part has no encoding, but the first does not fit: Capacity
    let mut w = LimitWriter::new(Bits::new(), 4);
    let err = BitWriterExt::pack_as::<(u8, u8), (Same, NBits<3>)>(&mut w, (1, 200)).unwrap_err();
    assert_eq!(err.kind, ErrorKind::Capacity);
    assert_eq!(err.trail, vec![Context::Slot(0)]);
    // with room for the first part, the second part is reached: Custom
    let mut w = LimitWriter::new(Bits::new(), 8);
    let err = BitWriterExt::pack_as::<(u8, u8), (Same, NBits<3>)>(&mut w, (1, 200)).unwrap_err();
    assert_eq!(err.kind, ErrorKind::Custom);
    assert_eq!(err.trail, vec![Context::Slot(1)]);
    // a value without an encoding is refused before anything is written
    let mut w = LimitWriter::new(Bits::new(), 0);
    let err = BitWriterExt::pack_as::<u8, NBits<3>>(&mut w, 200).unwrap_err();
    assert_eq!(err.kind, ErrorKind::Custom);
    // in a builder, a reference that does not fit comes before a value that cannot be stored
    let mut b = CellBuilder::new();
    for _ in 0..4 {
        b.store_reference(Arc::new(Cell::new())).unwrap();
    }
    let err = b.store_reference_as::<u8, Data<NBits<3>>>(200).unwrap_err();
    assert_eq!(err.kind, ErrorKind::Capacity);
    let mut b = CellBuilder::new();
    let err = b.store_reference_as::<u8, Data<NBits<3>>>(200).unwrap_err();
    assert_eq!(err.kind, ErrorKind::Custom);
    assert_eq!(b.references_len(), 0);
}
