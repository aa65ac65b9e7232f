use std::sync::Arc;
use tlbits::boc::BagOfCells;
use tlbits::boc_wire::BagOfCellsArgs;
use tlbits::builder::CellBuilder;
use tlbits::cell::Cell;
use tlbits::crc32c::checksum;
use tlbits::de::{unpack, unpack_fully};
use tlbits::error::ErrorKind;
use tlbits::ser::pack_with;
use tlbits::writer::BitWriter;

const PLAIN: BagOfCellsArgs = BagOfCellsArgs { has_idx: false, has_crc32c: false };
const WITH_CRC: BagOfCellsArgs = BagOfCellsArgs { has_idx: false, has_crc32c: true };
const WITH_IDX: BagOfCellsArgs = BagOfCellsArgs { has_idx: true, has_crc32c: false };
const WITH_BOTH: BagOfCellsArgs = BagOfCellsArgs { has_idx: true, has_crc32c: true };

fn leaf(byte: u8, extra_bits: usize) -> Arc<Cell> {
    let mut b = CellBuilder::new();
    b.pack(byte).unwrap();
    b.repeat_bit(extra_bits, true).unwrap();
    Arc::new(b.into_cell())
}

fn node(byte: u8, children: &[Arc<Cell>]) -> Arc<Cell> {
    let mut b = CellBuilder::new();
    b.pack(byte).unwrap();
    for c in children {
        b.store_reference(c.clone()).unwrap();
    }
    Arc::new(b.into_cell())
}

#[test]
fn crc32c_check_value() {
    assert_eq!(checksum(b"123456789"), 0xE306_9283);
    assert_eq!(checksum(b""), 0);
}

#[test]
fn empty_cell_bag_bytes() {
    let bag = BagOfCells::from_root(Arc::new(Cell::new()));
    let bytes = bag.serialize(PLAIN).unwrap();
    assert_eq!(
        bytes,
        vec![0xb5, 0xee, 0x9c, 0x72, 0x01, 0x01, 0x01, 0x01, 0x00, 0x02, 0x00, 0x00, 0x00]
    );
    // cell count and root count
    assert_eq!(bytes[6], 1);
    assert_eq!(bytes[7], 1);
    let back = BagOfCells::parse(&bytes).unwrap();
    assert_eq!(back.roots_len(), 1);
    let root = back.single_root().unwrap();
    assert!(root.is_empty());
    assert_eq!(root.bits_len(), 0);
    assert!(root.reference(0).is_none());
}

#[test]
fn empty_cell_bag_bytes_with_checksum() {
    let bag = BagOfCells::from_root(Arc::new(Cell::new()));
    let bytes = bag.serialize(WITH_CRC).unwrap();
    assert_eq!(
        bytes,
        vec![
            0xb5, 0xee, 0x9c, 0x72, 0x41, 0x01, 0x01, 0x01, 0x00, 0x02, 0x00, 0x00, 0x00, 0x4c,
            0xac, 0xb9, 0xcd
        ]
    );
    assert!(BagOfCells::parse(&bytes).unwrap().single_root().unwrap().is_empty());
}

#[test]
fn equal_subtrees_are_stored_once() {
    let a = node(1, &[leaf(7, 3)]);
    let b = node(2, &[leaf(7, 3)]);
    let root = node(0, &[a, b]);
    let bag = BagOfCells::from_root(root.clone());
    let bytes = bag.serialize(PLAIN).unwrap();
    // four cells: the root, two parents, one shared leaf
    assert_eq!(bytes[6], 4);
    // cells are laid out root first: root, b, a, leaf
    // root: d1 = 2, d2 = 2, data, refs to cells 2 (a) and 1 (b)
    let cells = &bytes[11..];
    assert_eq!(&cells[0..5], &[2, 2, 0, 2, 1]);
    // b: one reference, to the leaf (cell 3)
    assert_eq!(&cells[5..9], &[1, 2, 2, 3]);
    // a: one reference, to the same leaf
    assert_eq!(&cells[9..13], &[1, 2, 1, 3]);
    // leaf: 11 bits, so one whole byte and a padded one
    assert_eq!(&cells[13..17], &[0, 3, 7, 0b1111_0000]);
    assert_eq!(cells.len(), 17);
    let back = BagOfCells::parse(&bytes).unwrap();
    assert_eq!(**back.single_root().unwrap(), *root);
}

#[test]
fn bag_round_trip_with_every_layout() {
    let shared = node(9, &[leaf(1, 0), leaf(2, 7)]);
    let first = node(3, &[shared.clone(), leaf(1, 0), shared.clone()]);
    let second = node(4, &[first.clone(), Arc::new(Cell::new())]);
    for args in [PLAIN, WITH_CRC, WITH_IDX, WITH_BOTH] {
        let mut bag = BagOfCells::from_root(second.clone());
        bag.add_root(first.clone());
        bag.add_root(shared.clone());
        let bytes = bag.serialize(args).unwrap();
        let back = BagOfCells::parse(&bytes).unwrap();
        assert_eq!(back.roots_len(), 3);
        assert!(back.single_root().is_none());
        assert_eq!(**back.root(0).unwrap(), *second);
        assert_eq!(**back.root(1).unwrap(), *first);
        assert_eq!(**back.root(2).unwrap(), *shared);
        // the layout is the same every time
        assert_eq!(bag.serialize(args).unwrap(), bytes);
    }
}

#[test]
fn every_changed_byte_is_detected_with_a_checksum() {
    let root = node(5, &[leaf(6, 2), leaf(6, 2)]);
    let bytes = BagOfCells::from_root(root).serialize(WITH_CRC).unwrap();
    for at in 0..bytes.len() {
        let mut changed = bytes.clone();
        changed[at] ^= 0x01;
        let err = BagOfCells::parse(&changed).unwrap_err();
        assert!(matches!(err.kind, ErrorKind::Corruption | ErrorKind::Cycle));
    }
    let mut changed = bytes.clone();
    let last = changed.len() - 1;
    changed[last] ^= 0x80;
    assert_eq!(BagOfCells::parse(&changed).unwrap_err().kind, ErrorKind::Corruption);
}

#[test]
fn bag_without_roots_cannot_be_laid_out() {
    let err = BagOfCells::new().serialize(PLAIN).unwrap_err();
    assert_eq!(err.kind, ErrorKind::Custom);
}

#[test]
fn bag_with_an_oversized_cell_cannot_be_laid_out() {
    let big = Cell {
        data: tlbits::storage::Bits::from_bools(&[true; 1024]).unwrap(),
        references: vec![],
    };
    let err = BagOfCells::from_root(node(1, &[Arc::new(big)])).serialize(PLAIN).unwrap_err();
    assert_eq!(err.kind, ErrorKind::Custom);
}

#[test]
fn malformed_bags_are_rejected() {
    let good = vec![0xb5, 0xee, 0x9c, 0x72, 0x01, 0x01, 0x01, 0x01, 0x00, 0x02, 0x00, 0x00, 0x00];
    assert!(BagOfCells::parse(&good).is_ok());
    // truncated
    assert_eq!(BagOfCells::parse(&good[..12]).unwrap_err().kind, ErrorKind::Corruption);
    assert_eq!(BagOfCells::parse(&good[..3]).unwrap_err().kind, ErrorKind::Corruption);
    // trailing byte
    let mut long = good.clone();
    long.push(0);
    assert_eq!(BagOfCells::parse(&long).unwrap_err().kind, ErrorKind::Corruption);
    // wrong magic
    let mut bad = good.clone();
    bad[0] = 0;
    assert_eq!(BagOfCells::parse(&bad).unwrap_err().kind, ErrorKind::Corruption);
    // root index out of range
    let mut bad = good.clone();
    bad[10] = 1;
    assert_eq!(BagOfCells::parse(&bad).unwrap_err().kind, ErrorKind::Corruption);
    // a cell that refers to itself
    let own = vec![
        0xb5, 0xee, 0x9c, 0x72, 0x01, 0x01, 0x01, 0x01, 0x00, 0x03, 0x00, 0x01, 0x00, 0x00,
    ];
    assert_eq!(BagOfCells::parse(&own).unwrap_err().kind, ErrorKind::Cycle);
    // a reference past the last cell
    let mut past = own.clone();
    past[13] = 1;
    assert_eq!(BagOfCells::parse(&past).unwrap_err().kind, ErrorKind::Corruption);
}

#[test]
fn bag_through_the_bit_codec() {
    let root = node(5, &[leaf(6, 2), node(7, &[leaf(6, 2)])]);
    let packed = pack_with(BagOfCells::from_root(root.clone()), WITH_CRC).unwrap();
    assert_eq!(packed.len() % 8, 0);
    let unpacked: BagOfCells = unpack_fully(&packed).unwrap();
    let got: Cell = unpacked.single_root().unwrap().parse_fully().unwrap();
    assert_eq!(got, *root);

    // bits after the bag are left alone by `unpack` and refused by `unpack_fully`
    let mut longer = packed.clone();
    assert!(longer.push(true));
    let again: BagOfCells = unpack(&longer).unwrap();
    assert_eq!(**again.single_root().unwrap(), *root);
    let err = unpack_fully::<BagOfCells>(&longer).unwrap_err();
    assert_eq!(err.kind, ErrorKind::TrailingData);
}

#[test]
fn a_changed_byte_of_flags_can_switch_the_checksum_off() {
    let bytes: Vec<u8> = vec![
        0xb5, 0xee, 0x9c, 0x72, 0x41, 0x01, 0x04, 0x01, 0x00, 0x12, 0x00, 0x02, 0x00, 0x02, 0x01,
        0x01, 0x02, 0x01, 0x03, 0x01, 0x02, 0x02, 0x03, 0x00, 0x08, 0x00, 0x00, 0xb9, 0x34, 0x00,
        0x04, 0x73, 0x1e,
    ];
    let bag = BagOfCells::parse(&bytes).unwrap();
    assert_eq!(bag.serialize(WITH_CRC).unwrap(), bytes);
    // with the bit for the checksum cleared and the bit for the table of
    // offsets set, the same bytes lay out another bag
    let mut changed = bytes.clone();
    changed[4] = 0x81;
    let other = BagOfCells::parse(&changed).unwrap();
    assert_ne!(**other.single_root().unwrap(), **bag.single_root().unwrap());
    // every other value of that byte that keeps the bit is refused
    for flags in 0..=255u8 {
        if flags != 0x41 && flags & 0x40 != 0 {
            changed[4] = flags;
            assert!(BagOfCells::parse(&changed).is_err());
        }
    }
}

#[test]
fn a_deep_graph_with_shared_cells_is_walked_once_per_cell() {
    let mut top = leaf(0, 0);
    for level in 1..=300u32 {
        let mut b = CellBuilder::new();
        b.pack(level).unwrap();
        b.store_reference(top.clone()).unwrap();
        b.store_reference(top.clone()).unwrap();
        top = Arc::new(b.into_cell());
    }
    assert_eq!(top.depth().unwrap(), 300);
    let hash = top.hash().unwrap();
    let bytes = BagOfCells::from_root(top).serialize(WITH_BOTH).unwrap();
    // 301 cells, numbered in two bytes
    assert_eq!(bytes[4] & 7, 2);
    assert_eq!(&bytes[6..8], &[0x01, 0x2d]);
    let back = BagOfCells::parse(&bytes).unwrap();
    assert_eq!(back.single_root().unwrap().hash().unwrap(), hash);
}
