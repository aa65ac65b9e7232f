//! Laying out a bag of cells as bytes.

use crate::boc_wire::{
    BagOfCellsArgs, RawBagView, RawCellView, bag_bytes, bag_ok, body_bytes, cell_bytes, cell_ok,
    cells_bytes, index_bytes, le_bytes4, numbers_bytes,
};
use crate::bytes::{
    be_bytes, bits_to_bytes, bytes_needed, count_bytes, lemma_be_bytes_len, lemma_byte_range_step,
    lemma_bytes_needed, padded, push_be,
};
use crate::cell::{MAX_BITS_LEN, MAX_REFS_COUNT};
use crate::crc32c::checksum;
use crate::integer::{lemma_bits_uint_bound, read_uint};
use crate::reader::BitCursor;
use crate::storage::Bits;
use vstd::arithmetic::power2::{lemma2_to64, lemma2_to64_rest};
use crate::reader::BitReader;
use vstd::prelude::*;

verus! {

/// A cell of a bag that is laid out: its bits, and the numbers of the cells
/// that it refers to.
#[derive(Debug)]
pub struct RawCell {
    pub data: Bits,
    pub refs: Vec<usize>,
}

impl DeepView for RawCell {
    type V = RawCellView;

    open spec fn deep_view(&self) -> RawCellView {
        RawCellView { data: self.data@, refs: Seq::new(self.refs@.len(), |i: int| self.refs@[i] as nat) }
    }
}

/// A bag that is laid out: its cells in their order, and the numbers of its
/// roots.
#[derive(Debug)]
pub struct RawBag {
    pub cells: Vec<RawCell>,
    pub roots: Vec<usize>,
}

impl DeepView for RawBag {
    type V = RawBagView;

    open spec fn deep_view(&self) -> RawBagView {
        RawBagView {
            cells: Seq::new(self.cells@.len(), |i: int| self.cells@[i].deep_view()),
            roots: Seq::new(self.roots@.len(), |i: int| self.roots@[i] as nat),
        }
    }
}

/// A list of numbers takes `size` bytes for each.
pub proof fn lemma_numbers_bytes_len(numbers: Seq<nat>, size: nat)
    ensures
        numbers_bytes(numbers, size).len() == numbers.len() * size,
    decreases numbers.len(),
{
    if numbers.len() > 0 {
        lemma_numbers_bytes_len(numbers.drop_last(), size);
        lemma_be_bytes_len(numbers.last(), size);
        assert((numbers.len() - 1) * size + size == numbers.len() * size) by (nonlinear_arith);
    } else {
        assert(0 * size == 0);
    }
}

/// Padding makes a bit string up to whole bytes.
pub proof fn lemma_padded_len(bits: Seq<bool>)
    ensures
        padded(bits).len() % 8 == 0,
        padded(bits).len() == 8 * ((bits.len() + 7) / 8),
        bits_to_bytes(padded(bits)).len() == (bits.len() + 7) / 8,
{
}

/// The number of bytes that a cell takes.
pub proof fn lemma_cell_bytes_len(c: RawCellView, size: nat)
    ensures
        cell_bytes(c, size).len() == 2 + (c.data.len() + 7) / 8 + c.refs.len() * size,
{
    lemma_padded_len(c.data);
    lemma_numbers_bytes_len(c.refs, size);
}

/// The first cells take no more bytes than all of them, and no cell that
/// keeps to the limits takes more than 146 bytes.
pub proof fn lemma_cells_bytes_len(cells: Seq<RawCellView>, k: nat, size: nat)
    requires
        k <= cells.len(),
        size <= 4,
        forall|i: int|
            0 <= i < cells.len() ==> (#[trigger] cells[i]).data.len() <= MAX_BITS_LEN
                && cells[i].refs.len() <= MAX_REFS_COUNT,
    ensures
        cells_bytes(cells, k, size).len() <= 146 * k,
        cells_bytes(cells, k, size).len() <= cells_bytes(cells, cells.len(), size).len(),
        k >= 1 ==> cells_bytes(cells, k, size).len() == cells_bytes(
            cells,
            (k - 1) as nat,
            size,
        ).len() + cell_bytes(cells[k - 1], size).len(),
    decreases cells.len() - k,
{
    lemma_cells_prefix_len(cells, k, size);
    if k < cells.len() {
        lemma_cells_bytes_len(cells, k + 1, size);
    }
}

/// No cell that keeps to the limits takes more than 146 bytes.
pub proof fn lemma_cells_prefix_len(cells: Seq<RawCellView>, k: nat, size: nat)
    requires
        k <= cells.len(),
        size <= 4,
        forall|i: int|
            0 <= i < cells.len() ==> (#[trigger] cells[i]).data.len() <= MAX_BITS_LEN
                && cells[i].refs.len() <= MAX_REFS_COUNT,
    ensures
        cells_bytes(cells, k, size).len() <= 146 * k,
    decreases k,
{
    if k > 0 {
        lemma_cells_prefix_len(cells, (k - 1) as nat, size);
        let c = cells[k - 1];
        lemma_cell_bytes_len(c, size);
        assert(c.refs.len() * size <= 16) by (nonlinear_arith)
            requires
                c.refs.len() <= 4,
                size <= 4,
        ;
    }
}

/// The table of offsets takes `off` bytes for each cell.
pub proof fn lemma_index_bytes_len(cells: Seq<RawCellView>, k: nat, size: nat, off: nat)
    requires
        k <= cells.len(),
    ensures
        index_bytes(cells, k, size, off).len() == k * off,
    decreases k,
{
    if k > 0 {
        lemma_index_bytes_len(cells, (k - 1) as nat, size, off);
        lemma_be_bytes_len(cells_bytes(cells, k, size).len(), off);
        assert((k - 1) * off + off == k * off) by (nonlinear_arith);
    } else {
        assert(0 * off == 0);
    }
}

/// The bytes of a bit string whose length is a multiple of eight.
pub(crate) fn pack_bits(bits: &Bits) -> (out: Vec<u8>)
    requires
        bits@.len() % 8 == 0,
    ensures
        out@ == bits_to_bytes(bits@),
{
    let n = bits.len() / 8;
    let mut out: Vec<u8> = Vec::new();
    let mut cursor = BitCursor::new(bits);
    let mut i: usize = 0;
    while i < n
        invariant
            i <= n,
            n == bits@.len() / 8,
            bits@.len() % 8 == 0,
            cursor.wf(),
            cursor.remaining() == bits@.skip(8 * i),
            out@.len() == i,
            forall|j: int| 0 <= j < i ==> out@[j] == #[trigger] bits_to_bytes(bits@)[j],
        decreases n - i,
    {
        let r = read_uint(&mut cursor, 8);
        proof {
            assert(bits@.skip(8 * i).take(8) =~= bits@.subrange(8 * i, 8 * i + 8));
            assert(bits@.skip(8 * i).skip(8) =~= bits@.skip(8 * (i + 1)));
            lemma_bits_uint_bound(bits@.subrange(8 * i, 8 * i + 8));
            lemma2_to64();
        }
        let v = match r {
            Ok(v) => v,
            Err(_) => 0,
        };
        out.push(v as u8);
        i = i + 1;
    }
    assert(out@ =~= bits_to_bytes(bits@));
    out
}

/// A copy of a bit string, made up to whole bytes.
pub(crate) fn pad_bits(bits: &Bits) -> (out: Bits)
    requires
        bits@.len() <= MAX_BITS_LEN,
    ensures
        out@ == padded(bits@),
{
    let mut out = bits.copy();
    let n = bits.len();
    if n % 8 != 0 {
        let _ = out.push(true);
        let _ = out.extend_repeat(7 - n % 8, false);
    }
    out
}

/// Appends the bytes of one cell.
pub(crate) fn push_cell(out: &mut Vec<u8>, cell: &RawCell, size: usize)
    requires
        cell.deep_view().data.len() <= MAX_BITS_LEN,
        cell.deep_view().refs.len() <= MAX_REFS_COUNT,
        1 <= size <= 4,
    ensures
        final(out)@ == old(out)@ + cell_bytes(cell.deep_view(), size as nat),
{
    let ghost start = out@;
    let ghost c = cell.deep_view();
    let bits = cell.data.len();
    out.push(cell.refs.len() as u8);
    out.push((bits / 8 + (bits + 7) / 8) as u8);
    let padded_bits = pad_bits(&cell.data);
    proof {
        lemma_padded_len(c.data);
    }
    let mut data = pack_bits(&padded_bits);
    out.append(&mut data);
    let ghost head = out@;
    let n = cell.refs.len();
    let mut i: usize = 0;
    proof {
        assert(c.refs.take(0) =~= Seq::<nat>::empty());
        assert(head + numbers_bytes(c.refs.take(0), size as nat) =~= head);
    }
    while i < n
        invariant
            i <= n,
            n == cell.refs@.len(),
            c == cell.deep_view(),
            size <= 4,
            out@ == head + numbers_bytes(c.refs.take(i as int), size as nat),
        decreases n - i,
    {
        let ghost before = out@;
        push_be(out, cell.refs[i] as u64, size);
        proof {
            assert(c.refs.take(i + 1).drop_last() =~= c.refs.take(i as int));
            assert(c.refs.take(i + 1).last() == cell.refs@[i as int] as nat);
            assert(head + numbers_bytes(c.refs.take(i + 1), size as nat) =~= before + be_bytes(
                cell.refs@[i as int] as nat,
                size as nat,
            ));
        }
        i = i + 1;
    }
    proof {
        assert(c.refs.take(n as int) =~= c.refs);
        assert(out@ =~= start + cell_bytes(c, size as nat));
    }
}

/// Appends a list of numbers, each in `size` bytes.
pub(crate) fn push_numbers(out: &mut Vec<u8>, numbers: &Vec<usize>, size: usize)
    requires
        size <= 8,
    ensures
        final(out)@ == old(out)@ + numbers_bytes(
            Seq::new(numbers@.len(), |i: int| numbers@[i] as nat),
            size as nat,
        ),
{
    let ghost start = out@;
    let ghost all = Seq::new(numbers@.len(), |i: int| numbers@[i] as nat);
    let n = numbers.len();
    let mut i: usize = 0;
    proof {
        assert(all.take(0) =~= Seq::<nat>::empty());
        assert(start + numbers_bytes(all.take(0), size as nat) =~= start);
    }
    while i < n
        invariant
            i <= n,
            n == numbers@.len(),
            size <= 8,
            all == Seq::new(numbers@.len(), |i: int| numbers@[i] as nat),
            out@ == start + numbers_bytes(all.take(i as int), size as nat),
        decreases n - i,
    {
        let ghost before = out@;
        push_be(out, numbers[i] as u64, size);
        proof {
            assert(all.take(i + 1).drop_last() =~= all.take(i as int));
            assert(all.take(i + 1).last() == numbers@[i as int] as nat);
            assert(start + numbers_bytes(all.take(i + 1), size as nat) =~= before + be_bytes(
                numbers@[i as int] as nat,
                size as nat,
            ));
        }
        i = i + 1;
    }
    proof {
        assert(all.take(n as int) =~= all);
    }
}

/// The bytes of a bag.
#[verifier::rlimit(40)]
pub(crate) fn serialize_bag(bag: &RawBag, args: BagOfCellsArgs) -> (out: Vec<u8>)
    requires
        bag_ok(bag.deep_view()),
    ensures
        out@ == bag_bytes(bag.deep_view(), args),
{
    let ghost view = bag.deep_view();
    let n = bag.cells.len();
    proof {
        lemma_byte_range_step(0);
        lemma_byte_range_step(1);
        lemma_byte_range_step(2);
        lemma_byte_range_step(3);
        lemma2_to64();
        lemma2_to64_rest();
        lemma_bytes_needed(n as nat);
        if bytes_needed(n as nat) > 4 {
            lemma_byte_range_step((bytes_needed(n as nat) - 1) as nat);
            vstd::arithmetic::power2::lemma_pow2_strictly_increases(
                32,
                (8 * (bytes_needed(n as nat) - 1)) as nat,
            );
        }
    }
    let size = count_bytes(n as u64);
    assert(size <= 4) by {
        if size > 4 {
            if 8 * (size - 1) > 32 {
                vstd::arithmetic::power2::lemma_pow2_strictly_increases(
                    32,
                    (8 * (size - 1)) as nat,
                );
            }
        }
    }
    let mut blob: Vec<u8> = Vec::new();
    let mut ends: Vec<usize> = Vec::new();
    let mut i: usize = 0;
    while i < n
        invariant
            i <= n,
            n == bag.cells@.len(),
            view == bag.deep_view(),
            bag_ok(view),
            1 <= size <= 4,
            blob@ == cells_bytes(view.cells, i as nat, size as nat),
            ends@.len() == i,
            forall|j: int|
                0 <= j < i ==> (#[trigger] ends@[j]) as nat == cells_bytes(
                    view.cells,
                    (j + 1) as nat,
                    size as nat,
                ).len(),
        decreases n - i,
    {
        proof {
            assert(cell_ok(view.cells[i as int], i as nat, view.cells.len()));
            assert(view.cells[i as int] == bag.cells@[i as int].deep_view());
        }
        push_cell(&mut blob, &bag.cells[i], size);
        ends.push(blob.len());
        i = i + 1;
    }
    let total = blob.len();
    let off = count_bytes(total as u64);
    let mut out: Vec<u8> = Vec::new();
    out.push(0xb5);
    out.push(0xee);
    out.push(0x9c);
    out.push(0x72);
    let flags: u8 = (if args.has_idx {
        128u8
    } else {
        0u8
    }) + (if args.has_crc32c {
        64u8
    } else {
        0u8
    }) + size as u8;
    out.push(flags);
    out.push(off as u8);
    push_be(&mut out, n as u64, size);
    push_be(&mut out, bag.roots.len() as u64, size);
    push_be(&mut out, 0, size);
    push_be(&mut out, total as u64, off);
    push_numbers(&mut out, &bag.roots, size);
    if args.has_idx {
        let ghost head = out@;
        let mut j: usize = 0;
        proof {
            assert(head + index_bytes(view.cells, 0, size as nat, off as nat) =~= head);
        }
        while j < n
            invariant
                j <= n,
                n == bag.cells@.len(),
                n == view.cells.len(),
                ends@.len() == n,
                off <= 8,
                forall|k: int|
                    0 <= k < n ==> (#[trigger] ends@[k]) as nat == cells_bytes(
                        view.cells,
                        (k + 1) as nat,
                        size as nat,
                    ).len(),
                out@ == head + index_bytes(view.cells, j as nat, size as nat, off as nat),
            decreases n - j,
        {
            let ghost before = out@;
            push_be(&mut out, ends[j] as u64, off);
            proof {
                assert(head + index_bytes(view.cells, (j + 1) as nat, size as nat, off as nat)
                    =~= before + be_bytes(ends@[j as int] as nat, off as nat));
            }
            j = j + 1;
        }
    }
    out.append(&mut blob);
    proof {
        assert(out@ =~= body_bytes(view, args));
    }
    if args.has_crc32c {
        let crc = checksum(out.as_slice());
        out.push((crc % 256) as u8);
        out.push((crc / 256 % 256) as u8);
        out.push((crc / 65536 % 256) as u8);
        out.push((crc / 16777216) as u8);
        proof {
            assert(out@ =~= body_bytes(view, args) + le_bytes4(crc));
        }
    }
    out
}

} // verus!
