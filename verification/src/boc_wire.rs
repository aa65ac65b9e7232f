//! The byte layout of a bag of cells.
//!
//! A bag is laid out as a header, the list of root indices, an optional
//! table of cell offsets, the cells one after the other, and an optional
//! CRC-32C checksum of all that comes before it. Cells are numbered in the
//! order in which they are laid out, and every reference of a cell is the
//! number of a cell that comes after it.

use crate::bytes::{be_bytes, be_value, bits_to_bytes, byte_range, bytes_needed, padded, unpadded};
use crate::cell::{MAX_BITS_LEN, MAX_REFS_COUNT};
use crate::crc32c::crc32c;
use crate::error::{ErrorKind, Failure};
use crate::storage::bytes_to_bits;
use vstd::prelude::*;

verus! {

/// The four bytes that every bag of cells starts with.
pub open spec fn magic() -> Seq<u8> {
    seq![0xb5u8, 0xeeu8, 0x9cu8, 0x72u8]
}

/// What is optional in the layout of a bag of cells.
#[derive(Clone, Copy, Debug, PartialEq, Eq)]
pub struct BagOfCellsArgs {
    /// Whether the table of cell offsets is laid out.
    pub has_idx: bool,
    /// Whether the checksum is laid out.
    pub has_crc32c: bool,
}

/// A cell as it is laid out: its bits, and the numbers of the cells that it
/// refers to.
pub ghost struct RawCellView {
    pub data: Seq<bool>,
    pub refs: Seq<nat>,
}

/// A bag as it is laid out: its cells in their order, and the numbers of
/// its roots.
pub ghost struct RawBagView {
    pub cells: Seq<RawCellView>,
    pub roots: Seq<nat>,
}

/// Whether cell number `index` of `count` can be laid out: it keeps to the
/// limits of a cell and refers only to cells after it.
pub open spec fn cell_ok(c: RawCellView, index: nat, count: nat) -> bool {
    &&& c.data.len() <= MAX_BITS_LEN
    &&& c.refs.len() <= MAX_REFS_COUNT
    &&& forall|j: int| 0 <= j < c.refs.len() ==> index < #[trigger] c.refs[j] < count
}

/// Whether a bag can be laid out.
pub open spec fn bag_ok(bag: RawBagView) -> bool {
    &&& bag.roots.len() >= 1
    &&& bag.roots.len() <= bag.cells.len()
    &&& bag.cells.len() < byte_range(4)
    &&& forall|j: int| 0 <= j < bag.roots.len() ==> #[trigger] bag.roots[j] < bag.cells.len()
    &&& forall|i: int|
        0 <= i < bag.cells.len() ==> cell_ok(#[trigger] bag.cells[i], i as nat, bag.cells.len())
}

/// The second byte of a cell: twice the number of whole bytes of data, and
/// one more where bits are left over.
pub open spec fn descriptor(bits: nat) -> nat {
    bits / 8 + (bits + 7) / 8
}

/// The numbers of a list, each in `size` bytes.
pub open spec fn numbers_bytes(numbers: Seq<nat>, size: nat) -> Seq<u8>
    decreases numbers.len(),
{
    if numbers.len() == 0 {
        Seq::empty()
    } else {
        numbers_bytes(numbers.drop_last(), size) + be_bytes(numbers.last(), size)
    }
}

/// The bytes of one cell: the number of references, the descriptor of the
/// data, the data made up to whole bytes, and the references.
pub open spec fn cell_bytes(c: RawCellView, size: nat) -> Seq<u8> {
    seq![c.refs.len() as u8, descriptor(c.data.len()) as u8] + bits_to_bytes(padded(c.data))
        + numbers_bytes(c.refs, size)
}

/// The bytes of the first `k` cells.
pub open spec fn cells_bytes(cells: Seq<RawCellView>, k: nat, size: nat) -> Seq<u8>
    decreases k,
{
    if k == 0 || k > cells.len() {
        Seq::empty()
    } else {
        cells_bytes(cells, (k - 1) as nat, size) + cell_bytes(cells[k - 1], size)
    }
}

/// The table of cell offsets: for each of the first `k` cells the number of
/// bytes up to its end.
pub open spec fn index_bytes(cells: Seq<RawCellView>, k: nat, size: nat, off: nat) -> Seq<u8>
    decreases k,
{
    if k == 0 || k > cells.len() {
        Seq::empty()
    } else {
        index_bytes(cells, (k - 1) as nat, size, off) + be_bytes(
            cells_bytes(cells, k, size).len(),
            off,
        )
    }
}

/// The byte of flags.
pub open spec fn flags_byte(args: BagOfCellsArgs, size: nat) -> u8 {
    ((if args.has_idx {
        128
    } else {
        0nat
    }) + (if args.has_crc32c {
        64
    } else {
        0nat
    }) + size) as u8
}

/// The number of bytes in which the cells of a bag are numbered.
pub open spec fn size_of(bag: RawBagView) -> nat {
    bytes_needed(bag.cells.len())
}

/// The number of bytes that all cells of a bag take.
pub open spec fn cells_len(bag: RawBagView) -> nat {
    cells_bytes(bag.cells, bag.cells.len(), size_of(bag)).len()
}

/// The number of bytes in which offsets into the cells are written.
pub open spec fn off_of(bag: RawBagView) -> nat {
    bytes_needed(cells_len(bag))
}

/// A number in four bytes, the lowest first.
pub open spec fn le_bytes4(value: u32) -> Seq<u8> {
    seq![
        (value % 256) as u8,
        (value / 256 % 256) as u8,
        (value / 65536 % 256) as u8,
        (value / 16777216) as u8,
    ]
}

/// The bytes of a bag before the checksum.
pub open spec fn body_bytes(bag: RawBagView, args: BagOfCellsArgs) -> Seq<u8> {
    let size = size_of(bag);
    let off = off_of(bag);
    magic() + seq![flags_byte(args, size), off as u8] + be_bytes(bag.cells.len(), size)
        + be_bytes(bag.roots.len(), size) + be_bytes(0, size) + be_bytes(cells_len(bag), off)
        + numbers_bytes(bag.roots, size) + (if args.has_idx {
        index_bytes(bag.cells, bag.cells.len(), size, off)
    } else {
        Seq::empty()
    }) + cells_bytes(bag.cells, bag.cells.len(), size)
}

/// The bytes of a bag.
pub open spec fn bag_bytes(bag: RawBagView, args: BagOfCellsArgs) -> Seq<u8> {
    let body = body_bytes(bag, args);
    if args.has_crc32c {
        body + le_bytes4(crc32c(body))
    } else {
        body
    }
}

/// The `len` bytes of a byte string from `from` on.
pub open spec fn slice(bytes: Seq<u8>, from: nat, len: nat) -> Seq<u8> {
    bytes.subrange(from as int, (from + len) as int)
}

/// The number that the `len` bytes from `from` on stand for, the highest
/// byte first.
pub open spec fn field(bytes: Seq<u8>, from: nat, len: nat) -> nat {
    be_value(slice(bytes, from, len))
}

/// What the header of a bag says.
pub ghost struct Header {
    pub has_idx: bool,
    pub has_crc32c: bool,
    pub size: nat,
    pub off: nat,
    pub cells: nat,
    pub roots: nat,
    pub cells_len: nat,
}

impl Header {
    /// The number of bytes of the header.
    pub open spec fn len(self) -> nat {
        6 + 3 * self.size + self.off
    }

    /// Where the table of cell offsets starts.
    pub open spec fn index_start(self) -> nat {
        self.len() + self.roots * self.size
    }

    /// Where the cells start.
    pub open spec fn cells_start(self) -> nat {
        self.index_start() + if self.has_idx {
            self.cells * self.off
        } else {
            0
        }
    }

    /// Where the cells end.
    pub open spec fn cells_end(self) -> nat {
        self.cells_start() + self.cells_len
    }

    /// The number of bytes of the whole bag.
    pub open spec fn total(self) -> nat {
        self.cells_end() + if self.has_crc32c {
            4nat
        } else {
            0nat
        }
    }
}

/// The header at the front of a byte string; `Corruption` where the bytes
/// are too few or do not make a header.
pub open spec fn parse_header(bytes: Seq<u8>) -> Result<Header, Failure> {
    if bytes.len() < 6 {
        Err(Failure::of(ErrorKind::Corruption))
    } else if slice(bytes, 0, 4) != magic() {
        Err(Failure::of(ErrorKind::Corruption))
    } else {
        let flags = bytes[4];
        let size = (flags % 8) as nat;
        let off = bytes[5] as nat;
        if flags / 8 % 8 != 0 || size < 1 || size > 4 || off < 1 || off > 8 {
            Err(Failure::of(ErrorKind::Corruption))
        } else if bytes.len() < 6 + 3 * size + off {
            Err(Failure::of(ErrorKind::Corruption))
        } else {
            let cells = field(bytes, 6, size);
            let roots = field(bytes, 6 + size, size);
            let absent = field(bytes, 6 + 2 * size, size);
            let cells_len = field(bytes, 6 + 3 * size, off);
            if roots < 1 || absent != 0 || roots > cells {
                Err(Failure::of(ErrorKind::Corruption))
            } else {
                Ok(
                    Header {
                        has_idx: flags / 128 == 1,
                        has_crc32c: flags / 64 % 2 == 1,
                        size,
                        off,
                        cells,
                        roots,
                        cells_len,
                    },
                )
            }
        }
    }
}

/// The first `k` numbers of a list of numbers of `size` bytes each that
/// starts at `start`; `Corruption` where one is not below `count`.
pub open spec fn parse_roots(bytes: Seq<u8>, start: nat, k: nat, size: nat, count: nat) -> Result<
    Seq<nat>,
    Failure,
>
    decreases k,
{
    if k == 0 {
        Ok(Seq::empty())
    } else {
        match parse_roots(bytes, start, (k - 1) as nat, size, count) {
            Err(e) => Err(e),
            Ok(front) => {
                let root = field(bytes, (start + (k - 1) * size) as nat, size);
                if root >= count {
                    Err(Failure::of(ErrorKind::Corruption))
                } else {
                    Ok(front.push(root))
                }
            },
        }
    }
}

/// The first `k` references of cell number `index`, laid out from `start`
/// on; `Corruption` where one is not below `count`, `Cycle` where one does
/// not lead to a later cell.
pub open spec fn parse_refs(
    bytes: Seq<u8>,
    start: nat,
    k: nat,
    size: nat,
    index: nat,
    count: nat,
) -> Result<Seq<nat>, Failure>
    decreases k,
{
    if k == 0 {
        Ok(Seq::empty())
    } else {
        match parse_refs(bytes, start, (k - 1) as nat, size, index, count) {
            Err(e) => Err(e),
            Ok(front) => {
                let to = field(bytes, (start + (k - 1) * size) as nat, size);
                if to >= count {
                    Err(Failure::of(ErrorKind::Corruption))
                } else if to <= index {
                    Err(Failure::of(ErrorKind::Cycle))
                } else {
                    Ok(front.push(to))
                }
            },
        }
    }
}

/// The bits of a cell from the bytes of its data, of which the descriptor
/// says whether they end in padding.
pub open spec fn parse_data(data: Seq<u8>, descriptor: nat) -> Result<Seq<bool>, Failure> {
    if descriptor % 2 == 0 {
        Ok(bytes_to_bits(data))
    } else if data.len() == 0 || data.last() == 0 {
        Err(Failure::of(ErrorKind::Corruption))
    } else {
        match unpadded(bytes_to_bits(data)) {
            Some(bits) => Ok(bits),
            None => Err(Failure::of(ErrorKind::Corruption)),
        }
    }
}

/// Cell number `index`, laid out from `pos` on and ending by `limit`, and
/// where it ends.
pub open spec fn parse_cell(
    bytes: Seq<u8>,
    pos: nat,
    limit: nat,
    size: nat,
    index: nat,
    count: nat,
) -> Result<(RawCellView, nat), Failure> {
    if pos + 2 > limit {
        Err(Failure::of(ErrorKind::Corruption))
    } else {
        let refs = bytes[pos as int] as nat;
        let descriptor = bytes[pos as int + 1] as nat;
        let data_len = (descriptor + 1) / 2;
        let end = pos + 2 + data_len + refs * size;
        if refs > MAX_REFS_COUNT || end > limit {
            Err(Failure::of(ErrorKind::Corruption))
        } else {
            match parse_data(slice(bytes, pos + 2, data_len), descriptor) {
                Err(e) => Err(e),
                Ok(data) => match parse_refs(
                    bytes,
                    pos + 2 + data_len,
                    refs,
                    size,
                    index,
                    count,
                ) {
                    Err(e) => Err(e),
                    Ok(refs) => Ok((RawCellView { data, refs }, end)),
                },
            }
        }
    }
}

/// The first `k` cells laid out from `start` on, and where they end.
pub open spec fn parse_cells(
    bytes: Seq<u8>,
    start: nat,
    limit: nat,
    k: nat,
    size: nat,
    count: nat,
) -> Result<(Seq<RawCellView>, nat), Failure>
    decreases k,
{
    if k == 0 {
        Ok((Seq::empty(), start))
    } else {
        match parse_cells(bytes, start, limit, (k - 1) as nat, size, count) {
            Err(e) => Err(e),
            Ok((front, pos)) => match parse_cell(bytes, pos, limit, size, (k - 1) as nat, count) {
                Err(e) => Err(e),
                Ok((cell, end)) => Ok((front.push(cell), end)),
            },
        }
    }
}

/// The number that four bytes stand for, the lowest byte first.
pub open spec fn le_value4(bytes: Seq<u8>) -> nat {
    bytes[0] as nat + 256 * (bytes[1] as nat) + 65536 * (bytes[2] as nat) + 16777216 * (
    bytes[3] as nat)
}

/// The bag that a byte string lays out from its first byte to its last.
pub open spec fn parse_bag(bytes: Seq<u8>) -> Result<RawBagView, Failure> {
    match parse_header(bytes) {
        Err(e) => Err(e),
        Ok(h) => if bytes.len() != h.total() {
            Err(Failure::of(ErrorKind::Corruption))
        } else {
            match parse_roots(bytes, h.len(), h.roots, h.size, h.cells) {
                Err(e) => Err(e),
                Ok(roots) => match parse_cells(
                    bytes,
                    h.cells_start(),
                    h.cells_end(),
                    h.cells,
                    h.size,
                    h.cells,
                ) {
                    Err(e) => Err(e),
                    Ok((cells, end)) => if end != h.cells_end() {
                        Err(Failure::of(ErrorKind::Corruption))
                    } else if h.has_crc32c && le_value4(slice(bytes, h.cells_end(), 4))
                        != crc32c(bytes.take(h.cells_end() as int)) {
                        Err(Failure::of(ErrorKind::Corruption))
                    } else {
                        Ok(RawBagView { cells, roots })
                    },
                },
            }
        },
    }
}

/// Once a root cannot be read, the list of roots cannot be read.
pub proof fn lemma_parse_roots_fails(bytes: Seq<u8>, start: nat, k: nat, n: nat, size: nat, count: nat)
    requires
        k <= n,
        parse_roots(bytes, start, k, size, count) is Err,
    ensures
        parse_roots(bytes, start, n, size, count) == parse_roots(bytes, start, k, size, count),
    decreases n - k,
{
    if k < n {
        lemma_parse_roots_fails(bytes, start, k, (n - 1) as nat, size, count);
    }
}

/// Once a reference cannot be read, the references cannot be read.
pub proof fn lemma_parse_refs_fails(
    bytes: Seq<u8>,
    start: nat,
    k: nat,
    n: nat,
    size: nat,
    index: nat,
    count: nat,
)
    requires
        k <= n,
        parse_refs(bytes, start, k, size, index, count) is Err,
    ensures
        parse_refs(bytes, start, n, size, index, count) == parse_refs(
            bytes,
            start,
            k,
            size,
            index,
            count,
        ),
    decreases n - k,
{
    if k < n {
        lemma_parse_refs_fails(bytes, start, k, (n - 1) as nat, size, index, count);
    }
}

/// Once a cell cannot be read, the cells cannot be read.
pub proof fn lemma_parse_cells_fails(
    bytes: Seq<u8>,
    start: nat,
    limit: nat,
    k: nat,
    n: nat,
    size: nat,
    count: nat,
)
    requires
        k <= n,
        parse_cells(bytes, start, limit, k, size, count) is Err,
    ensures
        parse_cells(bytes, start, limit, n, size, count) == parse_cells(
            bytes,
            start,
            limit,
            k,
            size,
            count,
        ),
    decreases n - k,
{
    if k < n {
        lemma_parse_cells_fails(bytes, start, limit, k, (n - 1) as nat, size, count);
    }
}

/// Roots that were read are as many as were asked for, and each is the
/// number of a cell.
pub proof fn lemma_parse_roots_ok(bytes: Seq<u8>, start: nat, k: nat, size: nat, count: nat)
    ensures
        parse_roots(bytes, start, k, size, count) matches Ok(v) ==> v.len() == k && forall|j: int|
            0 <= j < k ==> (#[trigger] v[j]) < count,
    decreases k,
{
    if k > 0 {
        lemma_parse_roots_ok(bytes, start, (k - 1) as nat, size, count);
    }
}

/// References that were read are as many as were asked for, and each is
/// the number of a later cell.
pub proof fn lemma_parse_refs_ok(
    bytes: Seq<u8>,
    start: nat,
    k: nat,
    size: nat,
    index: nat,
    count: nat,
)
    ensures
        parse_refs(bytes, start, k, size, index, count) matches Ok(v) ==> v.len() == k
            && forall|j: int| 0 <= j < k ==> index < (#[trigger] v[j]) < count,
    decreases k,
{
    if k > 0 {
        lemma_parse_refs_ok(bytes, start, (k - 1) as nat, size, index, count);
    }
}

/// Whether every cell of a list refers to at most four cells, all of them
/// later cells of the list.
pub open spec fn refs_forward(cells: Seq<RawCellView>, count: nat) -> bool {
    forall|i: int|
        0 <= i < cells.len() ==> (#[trigger] cells[i]).refs.len() <= MAX_REFS_COUNT && forall|
            j: int,
        |
            0 <= j < cells[i].refs.len() ==> i < (#[trigger] cells[i].refs[j]) < count
}

/// Cells that were read are as many as were asked for, and each refers to
/// later cells only.
pub proof fn lemma_parse_cells_ok(
    bytes: Seq<u8>,
    start: nat,
    limit: nat,
    k: nat,
    size: nat,
    count: nat,
)
    ensures
        parse_cells(bytes, start, limit, k, size, count) matches Ok((v, end)) ==> v.len() == k
            && refs_forward(v, count),
    decreases k,
{
    if k > 0 {
        lemma_parse_cells_ok(bytes, start, limit, (k - 1) as nat, size, count);
        if let Ok((front, pos)) = parse_cells(bytes, start, limit, (k - 1) as nat, size, count) {
            if let Ok((cell, end)) = parse_cell(bytes, pos, limit, size, (k - 1) as nat, count) {
                let refs = bytes[pos as int] as nat;
                let descriptor = bytes[pos as int + 1] as nat;
                let data_len = (descriptor + 1) / 2;
                lemma_parse_refs_ok(
                    bytes,
                    pos + 2 + data_len,
                    refs,
                    size,
                    (k - 1) as nat,
                    count,
                );
                let v = front.push(cell);
                assert forall|i: int| 0 <= i < v.len() implies (#[trigger] v[i]).refs.len()
                    <= MAX_REFS_COUNT && forall|j: int|
                    0 <= j < v[i].refs.len() ==> i < (#[trigger] v[i].refs[j]) < count by {
                    if i < front.len() {
                        assert(v[i] == front[i]);
                    }
                }
            }
        }
    }
}

/// A bag that was read has as many cells and roots as its header says, at
/// least one root, roots that are numbers of its cells, and cells that
/// refer to later cells only.
pub proof fn lemma_parse_bag_ok(bytes: Seq<u8>)
    ensures
        parse_bag(bytes) matches Ok(bag) ==> bag.roots.len() >= 1 && (forall|j: int|
            0 <= j < bag.roots.len() ==> (#[trigger] bag.roots[j]) < bag.cells.len())
            && refs_forward(bag.cells, bag.cells.len()),
{
    if let Ok(h) = parse_header(bytes) {
        lemma_parse_roots_ok(bytes, h.len(), h.roots, h.size, h.cells);
        lemma_parse_cells_ok(bytes, h.cells_start(), h.cells_end(), h.cells, h.size, h.cells);
    }
}

} // verus!
