//! What is laid out as bytes is read back as it was.

use crate::boc::{boc_bytes, boc_parse, encodable, flatten, lemma_flatten, lemma_mirror_ok, linked};
use crate::boc_graph::{
    lemma_intern_all_adds, lemma_mirror_twice, lemma_resolve_injective, lemma_within_numbered,
    mirror, reachable, resolve, within,
};
use crate::boc_ser::{
    lemma_cell_bytes_len, lemma_cells_bytes_len, lemma_index_bytes_len, lemma_numbers_bytes_len,
    lemma_padded_len,
};
use crate::boc_wire::{
    BagOfCellsArgs, Header, RawBagView, RawCellView, bag_bytes, bag_ok, body_bytes, cell_bytes,
    cell_ok, cells_bytes, cells_len, descriptor, field, flags_byte, index_bytes, le_bytes4,
    le_value4, magic, numbers_bytes, off_of, parse_bag, parse_cell, parse_cells, parse_data,
    parse_header, parse_refs, parse_roots, size_of, slice,
};
use crate::bytes::{
    be_bytes, bits_to_bytes, byte_range, lemma_be_bytes_len, lemma_be_value_of_be_bytes,
    lemma_bits_of_bytes_of_bits, lemma_byte_range_step, lemma_bytes_needed, lemma_unpadded_of_tail,
    padded,
};
use crate::cell::{CellView, MAX_BITS_LEN, MAX_REFS_COUNT};
use crate::crc32c::{crc32c, lemma_crc_detects_one_byte};
use crate::error::Failure;
use crate::integer::bits_uint;
use vstd::arithmetic::power2::{lemma2_to64, lemma2_to64_rest};
use vstd::prelude::*;

verus! {

/// A part of a part of a byte string is a part of the byte string.
pub proof fn lemma_slice_of_slice(bytes: Seq<u8>, from: nat, len: nat, at: nat, n: nat)
    requires
        from + len <= bytes.len(),
        at + n <= len,
    ensures
        slice(slice(bytes, from, len), at, n) == slice(bytes, from + at, n),
{
    assert(slice(slice(bytes, from, len), at, n) =~= slice(bytes, from + at, n));
}

/// Where the bytes of each number of a list lie.
pub proof fn lemma_numbers_block(numbers: Seq<nat>, size: nat, k: nat)
    requires
        k < numbers.len(),
    ensures
        (k + 1) * size <= numbers_bytes(numbers, size).len(),
        slice(numbers_bytes(numbers, size), k * size, size) == be_bytes(numbers[k as int], size),
    decreases numbers.len(),
{
    let front = numbers.drop_last();
    let front_bytes = numbers_bytes(front, size);
    let last_bytes = be_bytes(numbers.last(), size);
    lemma_numbers_bytes_len(front, size);
    lemma_numbers_bytes_len(numbers, size);
    lemma_be_bytes_len(numbers.last(), size);
    assert((k + 1) * size <= numbers.len() * size) by (nonlinear_arith)
        requires
            k < numbers.len(),
    ;
    assert((k + 1) * size == k * size + size) by (nonlinear_arith);
    if k == numbers.len() - 1 {
        assert(slice(front_bytes + last_bytes, k * size, size) =~= last_bytes);
    } else {
        lemma_numbers_block(front, size, k);
        assert((k + 1) * size <= front.len() * size) by (nonlinear_arith)
            requires
                k < front.len(),
        ;
        assert(slice(front_bytes + last_bytes, k * size, size) =~= slice(
            front_bytes,
            k * size,
            size,
        ));
    }
}

/// Reading the roots where a list of numbers is laid out gives the numbers.
pub proof fn lemma_parse_roots_block(
    bytes: Seq<u8>,
    start: nat,
    numbers: Seq<nat>,
    k: nat,
    size: nat,
    count: nat,
)
    requires
        k <= numbers.len(),
        start + numbers.len() * size <= bytes.len(),
        slice(bytes, start, numbers.len() * size) == numbers_bytes(numbers, size),
        forall|j: int| 0 <= j < numbers.len() ==> (#[trigger] numbers[j]) < count,
        count <= byte_range(size),
    ensures
        parse_roots(bytes, start, k, size, count) == Ok::<Seq<nat>, Failure>(
            numbers.take(k as int),
        ),
    decreases k,
{
    if k == 0 {
        assert(numbers.take(0) =~= Seq::<nat>::empty());
    } else {
        lemma_parse_roots_block(bytes, start, numbers, (k - 1) as nat, size, count);
        lemma_numbers_block(numbers, size, (k - 1) as nat);
        lemma_numbers_bytes_len(numbers, size);
        assert((k - 1) * size + size <= numbers.len() * size && (k - 1) * size >= 0)
            by (nonlinear_arith)
            requires
                1 <= k <= numbers.len(),
        ;
        lemma_slice_of_slice(bytes, start, numbers.len() * size, ((k - 1) * size) as nat, size);
        lemma_be_value_of_be_bytes(numbers[k - 1], size);
        assert(numbers.take(k - 1).push(numbers[k - 1]) =~= numbers.take(k as int));
    }
}

/// Reading the references where they are laid out gives them.
pub proof fn lemma_parse_refs_block(
    bytes: Seq<u8>,
    start: nat,
    numbers: Seq<nat>,
    k: nat,
    size: nat,
    index: nat,
    count: nat,
)
    requires
        k <= numbers.len(),
        start + numbers.len() * size <= bytes.len(),
        slice(bytes, start, numbers.len() * size) == numbers_bytes(numbers, size),
        forall|j: int| 0 <= j < numbers.len() ==> index < (#[trigger] numbers[j]) < count,
        count <= byte_range(size),
    ensures
        parse_refs(bytes, start, k, size, index, count) == Ok::<Seq<nat>, Failure>(
            numbers.take(k as int),
        ),
    decreases k,
{
    if k == 0 {
        assert(numbers.take(0) =~= Seq::<nat>::empty());
    } else {
        lemma_parse_refs_block(bytes, start, numbers, (k - 1) as nat, size, index, count);
        lemma_numbers_block(numbers, size, (k - 1) as nat);
        lemma_numbers_bytes_len(numbers, size);
        assert((k - 1) * size + size <= numbers.len() * size && (k - 1) * size >= 0)
            by (nonlinear_arith)
            requires
                1 <= k <= numbers.len(),
        ;
        lemma_slice_of_slice(bytes, start, numbers.len() * size, ((k - 1) * size) as nat, size);
        lemma_be_value_of_be_bytes(numbers[k - 1], size);
        assert(numbers.take(k - 1).push(numbers[k - 1]) =~= numbers.take(k as int));
    }
}

/// Binary digits that stand for zero are all 0.
pub proof fn lemma_bits_uint_zero(bits: Seq<bool>)
    requires
        bits_uint(bits) == 0,
    ensures
        forall|i: int| 0 <= i < bits.len() ==> !bits[i],
    decreases bits.len(),
{
    if bits.len() > 0 {
        lemma_bits_uint_zero(bits.drop_last());
        assert forall|i: int| 0 <= i < bits.len() implies !bits[i] by {
            if i < bits.len() - 1 {
                assert(bits[i] == bits.drop_last()[i]);
            }
        }
    }
}

/// Reading the data of a cell where it is laid out gives its bits.
pub proof fn lemma_parse_data_block(bits: Seq<bool>)
    requires
        bits.len() <= MAX_BITS_LEN,
    ensures
        parse_data(bits_to_bytes(padded(bits)), descriptor(bits.len())) == Ok::<
            Seq<bool>,
            Failure,
        >(bits),
        (descriptor(bits.len()) + 1) / 2 == bits_to_bytes(padded(bits)).len(),
        descriptor(bits.len()) <= 255,
{
    lemma_padded_len(bits);
    let whole = padded(bits);
    let data = bits_to_bytes(whole);
    lemma_bits_of_bytes_of_bits(whole);
    if bits.len() % 8 != 0 {
        let zeros = (7 - bits.len() % 8) as nat;
        lemma_unpadded_of_tail(bits, zeros);
        let last = (data.len() - 1) as int;
        let chunk = whole.subrange(8 * last, 8 * last + 8);
        if data.last() == 0 {
            lemma2_to64();
            crate::integer::lemma_bits_uint_bound(chunk);
            lemma_bits_uint_zero(chunk);
            let at = bits.len() - 8 * last;
            assert(chunk[at] == whole[bits.len() as int]);
            assert(whole[bits.len() as int]);
        }
    }
}

/// Reading a cell where it is laid out gives the cell.
pub proof fn lemma_parse_cell_block(
    bytes: Seq<u8>,
    pos: nat,
    limit: nat,
    size: nat,
    index: nat,
    count: nat,
    c: RawCellView,
)
    requires
        cell_ok(c, index, count),
        count <= byte_range(size),
        1 <= size <= 4,
        pos + cell_bytes(c, size).len() <= limit <= bytes.len(),
        slice(bytes, pos, cell_bytes(c, size).len()) == cell_bytes(c, size),
    ensures
        parse_cell(bytes, pos, limit, size, index, count) == Ok::<(RawCellView, nat), Failure>(
            (c, pos + cell_bytes(c, size).len()),
        ),
{
    let whole = cell_bytes(c, size);
    let head = seq![c.refs.len() as u8, descriptor(c.data.len()) as u8];
    let data = bits_to_bytes(padded(c.data));
    let refs = numbers_bytes(c.refs, size);
    lemma_cell_bytes_len(c, size);
    lemma_padded_len(c.data);
    lemma_numbers_bytes_len(c.refs, size);
    lemma_parse_data_block(c.data);
    assert(whole[0] == head[0]);
    assert(whole[1] == head[1]);
    assert(bytes[pos as int] == slice(bytes, pos, whole.len())[0]);
    assert(bytes[pos as int + 1] == slice(bytes, pos, whole.len())[1]);
    let data_len = data.len();
    assert(slice(whole, 2, data_len) =~= data);
    lemma_slice_of_slice(bytes, pos, whole.len(), 2, data_len);
    assert(slice(whole, 2 + data_len, refs.len()) =~= refs);
    lemma_slice_of_slice(bytes, pos, whole.len(), 2 + data_len, refs.len());
    lemma_parse_refs_block(bytes, pos + 2 + data_len, c.refs, c.refs.len(), size, index, count);
    assert(c.refs.take(c.refs.len() as int) =~= c.refs);
}

/// The bytes of the first cells are the first bytes of all cells.
pub proof fn lemma_cells_bytes_prefix(cells: Seq<RawCellView>, k: nat, size: nat)
    requires
        k <= cells.len(),
    ensures
        cells_bytes(cells, k, size).len() <= cells_bytes(cells, cells.len(), size).len(),
        cells_bytes(cells, cells.len(), size).take(cells_bytes(cells, k, size).len() as int)
            == cells_bytes(cells, k, size),
    decreases cells.len() - k,
{
    let all = cells_bytes(cells, cells.len(), size);
    if k == cells.len() {
        assert(all.take(all.len() as int) =~= all);
    } else {
        lemma_cells_bytes_prefix(cells, k + 1, size);
        let more = cells_bytes(cells, k + 1, size);
        let here = cells_bytes(cells, k, size);
        assert(more == here + cell_bytes(cells[k as int], size));
        assert(all.take(here.len() as int) =~= here) by {
            assert(all.take(more.len() as int) == more);
            assert forall|i: int| 0 <= i < here.len() implies all[i] == here[i] by {
                assert(all.take(more.len() as int)[i] == all[i]);
                assert(more[i] == here[i]);
            }
        }
    }
}

/// Reading the cells where they are laid out gives them.
pub proof fn lemma_parse_cells_block(
    bytes: Seq<u8>,
    start: nat,
    limit: nat,
    cells: Seq<RawCellView>,
    k: nat,
    size: nat,
)
    requires
        k <= cells.len(),
        forall|i: int|
            0 <= i < cells.len() ==> cell_ok(#[trigger] cells[i], i as nat, cells.len()),
        cells.len() <= byte_range(size),
        1 <= size <= 4,
        start + cells_bytes(cells, cells.len(), size).len() <= limit <= bytes.len(),
        slice(bytes, start, cells_bytes(cells, cells.len(), size).len()) == cells_bytes(
            cells,
            cells.len(),
            size,
        ),
    ensures
        parse_cells(bytes, start, limit, k, size, cells.len()) == Ok::<
            (Seq<RawCellView>, nat),
            Failure,
        >((cells.take(k as int), start + cells_bytes(cells, k, size).len())),
    decreases k,
{
    if k == 0 {
        assert(cells.take(0) =~= Seq::<RawCellView>::empty());
    } else {
        lemma_parse_cells_block(bytes, start, limit, cells, (k - 1) as nat, size);
        let all = cells_bytes(cells, cells.len(), size);
        let before = cells_bytes(cells, (k - 1) as nat, size);
        let c = cells[k - 1];
        let one = cell_bytes(c, size);
        let upto = cells_bytes(cells, k, size);
        lemma_cells_bytes_prefix(cells, k, size);
        assert(upto == before + one);
        assert(slice(all, before.len(), one.len()) =~= one) by {
            assert forall|i: int| 0 <= i < one.len() implies all[before.len() + i] == one[i] by {
                assert(all.take(upto.len() as int)[before.len() + i] == all[before.len() + i]);
                assert(upto[before.len() + i] == one[i]);
            }
        }
        lemma_slice_of_slice(bytes, start, all.len(), before.len(), one.len());
        lemma_parse_cell_block(
            bytes,
            start + before.len(),
            limit,
            size,
            (k - 1) as nat,
            cells.len(),
            c,
        );
        assert(cells.take(k - 1).push(c) =~= cells.take(k as int));
    }
}

/// The number of bytes in which the cells of a bag are numbered is at most
/// four, and the number in which offsets are written at most eight.
pub proof fn lemma_sizes(bag: RawBagView)
    requires
        bag_ok(bag),
    ensures
        1 <= size_of(bag) <= 4,
        1 <= off_of(bag) <= 8,
        bag.cells.len() < byte_range(size_of(bag)),
        cells_len(bag) < byte_range(off_of(bag)),
{
    let n = bag.cells.len();
    lemma_bytes_needed(n);
    lemma2_to64();
    lemma2_to64_rest();
    let size = size_of(bag);
    if size > 4 {
        if 8 * (size - 1) > 32 {
            vstd::arithmetic::power2::lemma_pow2_strictly_increases(32, (8 * (size - 1)) as nat);
        }
    }
    assert forall|i: int| 0 <= i < n implies (#[trigger] bag.cells[i]).data.len() <= MAX_BITS_LEN
        && bag.cells[i].refs.len() <= MAX_REFS_COUNT by {
        assert(cell_ok(bag.cells[i], i as nat, n));
    }
    lemma_cells_bytes_len(bag.cells, n, size);
    let total = cells_len(bag);
    lemma_bytes_needed(total);
    let off = off_of(bag);
    if off > 8 {
        if 8 * (off - 1) > 64 {
            vstd::arithmetic::power2::lemma_pow2_strictly_increases(64, (8 * (off - 1)) as nat);
        }
    }
}

/// Reading back four bytes, the lowest first.
pub proof fn lemma_le_value4(value: u32)
    ensures
        le_value4(le_bytes4(value)) == value,
{
}

/// The header that the bytes of a bag start with.
pub open spec fn header_of(bag: RawBagView, args: BagOfCellsArgs) -> Header {
    Header {
        has_idx: args.has_idx,
        has_crc32c: args.has_crc32c,
        size: size_of(bag),
        off: off_of(bag),
        cells: bag.cells.len(),
        roots: bag.roots.len(),
        cells_len: cells_len(bag),
    }
}

/// The parts of the bytes of a bag, and where they lie.
#[verifier::rlimit(40)]
pub proof fn lemma_layout(bag: RawBagView, args: BagOfCellsArgs)
    requires
        bag_ok(bag),
    ensures
        ({
            let bytes = bag_bytes(bag, args);
            let h = header_of(bag, args);
            &&& bytes.len() == h.total()
            &&& slice(bytes, 0, 4) == magic()
            &&& bytes[4] == flags_byte(args, h.size)
            &&& bytes[5] == h.off as u8
            &&& slice(bytes, 6, h.size) == be_bytes(h.cells, h.size)
            &&& slice(bytes, 6 + h.size, h.size) == be_bytes(h.roots, h.size)
            &&& slice(bytes, 6 + 2 * h.size, h.size) == be_bytes(0, h.size)
            &&& slice(bytes, 6 + 3 * h.size, h.off) == be_bytes(h.cells_len, h.off)
            &&& slice(bytes, h.len(), h.roots * h.size) == numbers_bytes(bag.roots, h.size)
            &&& slice(bytes, h.cells_start(), h.cells_len) == cells_bytes(
                bag.cells,
                bag.cells.len(),
                h.size,
            )
            &&& bytes.take(h.cells_end() as int) == body_bytes(bag, args)
            &&& args.has_crc32c ==> slice(bytes, h.cells_end(), 4) == le_bytes4(
                crc32c(body_bytes(bag, args)),
            )
        }),
{
    let size = size_of(bag);
    let off = off_of(bag);
    let n = bag.cells.len();
    let h = header_of(bag, args);
    let start = magic();
    let flags = seq![flags_byte(args, size), off as u8];
    let count = be_bytes(n, size);
    let roots_count = be_bytes(bag.roots.len(), size);
    let absent = be_bytes(0, size);
    let length = be_bytes(cells_len(bag), off);
    let roots = numbers_bytes(bag.roots, size);
    let index = if args.has_idx {
        index_bytes(bag.cells, n, size, off)
    } else {
        Seq::<u8>::empty()
    };
    let cells = cells_bytes(bag.cells, n, size);
    let body = body_bytes(bag, args);
    let bytes = bag_bytes(bag, args);
    let tail = if args.has_crc32c {
        le_bytes4(crc32c(body))
    } else {
        Seq::<u8>::empty()
    };
    lemma_be_bytes_len(n, size);
    lemma_be_bytes_len(bag.roots.len(), size);
    lemma_be_bytes_len(0, size);
    lemma_be_bytes_len(cells_len(bag), off);
    lemma_numbers_bytes_len(bag.roots, size);
    lemma_index_bytes_len(bag.cells, n, size, off);
    assert(body == start + flags + count + roots_count + absent + length + roots + index + cells);
    assert(bytes =~= body + tail);
    assert(start.len() == 4);
    assert(flags.len() == 2);
    assert(bytes.len() == h.total());
    assert(slice(bytes, 0, 4) =~= start);
    assert(bytes[4] == flags[0]);
    assert(bytes[5] == flags[1]);
    assert(slice(bytes, 6, size) =~= count);
    assert(slice(bytes, 6 + size, size) =~= roots_count);
    assert(slice(bytes, 6 + 2 * size, size) =~= absent);
    assert(slice(bytes, 6 + 3 * size, off) =~= length);
    assert(slice(bytes, h.len(), h.roots * size) =~= roots);
    assert(slice(bytes, h.cells_start(), h.cells_len) =~= cells);
    assert(bytes.take(h.cells_end() as int) =~= body);
    if args.has_crc32c {
        assert(slice(bytes, h.cells_end(), 4) =~= tail);
    }
}

/// What the byte of flags says.
pub proof fn lemma_flags(args: BagOfCellsArgs, size: nat)
    requires
        1 <= size <= 4,
    ensures
        flags_byte(args, size) % 8 == size,
        flags_byte(args, size) / 8 % 8 == 0,
        (flags_byte(args, size) / 128 == 1) == args.has_idx,
        (flags_byte(args, size) / 64 % 2 == 1) == args.has_crc32c,
{
}

/// The bytes of a bag start with its header.
#[verifier::rlimit(40)]
pub proof fn lemma_parse_header_of_bag_bytes(bag: RawBagView, args: BagOfCellsArgs)
    requires
        bag_ok(bag),
    ensures
        parse_header(bag_bytes(bag, args)) == Ok::<Header, Failure>(header_of(bag, args)),
{
    let bytes = bag_bytes(bag, args);
    let h = header_of(bag, args);
    lemma_layout(bag, args);
    lemma_sizes(bag);
    lemma_flags(args, h.size);
    let size = (bytes[4] % 8) as nat;
    let off = bytes[5] as nat;
    assert(size == h.size);
    assert(off == h.off);
    assert(bytes.len() >= 6 + 3 * size + off);
    assert(field(bytes, 6, size) == h.cells) by {
        lemma_be_value_of_be_bytes(h.cells, h.size);
    }
    assert(field(bytes, 6 + size, size) == h.roots) by {
        lemma_be_value_of_be_bytes(h.roots, h.size);
    }
    assert(field(bytes, 6 + 2 * size, size) == 0) by {
        lemma_byte_range_step(h.size);
        lemma_be_value_of_be_bytes(0, h.size);
    }
    assert(field(bytes, 6 + 3 * size, off) == h.cells_len) by {
        lemma_be_value_of_be_bytes(h.cells_len, h.off);
    }
}

/// The bytes of a bag are read back as the bag.
#[verifier::rlimit(40)]
pub proof fn lemma_parse_bag_of_bag_bytes(bag: RawBagView, args: BagOfCellsArgs)
    requires
        bag_ok(bag),
    ensures
        parse_bag(bag_bytes(bag, args)) == Ok::<RawBagView, Failure>(bag),
{
    let bytes = bag_bytes(bag, args);
    let h = header_of(bag, args);
    lemma_layout(bag, args);
    lemma_sizes(bag);
    lemma_parse_header_of_bag_bytes(bag, args);
    lemma_parse_roots_block(bytes, h.len(), bag.roots, h.roots, h.size, h.cells);
    assert(bag.roots.take(h.roots as int) =~= bag.roots);
    lemma_parse_cells_block(bytes, h.cells_start(), h.cells_end(), bag.cells, h.cells, h.size);
    assert(bag.cells.take(h.cells as int) =~= bag.cells);
    if args.has_crc32c {
        lemma_le_value4(crc32c(body_bytes(bag, args)));
    }
}

/// A graph that is laid out as bytes is read back as it was: the same
/// roots in the same order, each with the same bits and the same cells
/// below it.
pub proof fn lemma_boc_round_trip(roots: Seq<CellView>, args: BagOfCellsArgs)
    requires
        encodable(roots),
    ensures
        boc_parse(boc_bytes(roots, args)) == Ok::<Seq<CellView>, Failure>(roots),
{
    let arena = flatten(roots);
    lemma_flatten(roots);
    lemma_mirror_ok(arena);
    lemma_parse_bag_of_bag_bytes(mirror(arena), args);
    lemma_mirror_twice(arena);
    assert(linked(mirror(arena)) =~= roots);
}

/// Equal cells of a graph are laid out once: in the numbered list of the
/// graph, two numbers that stand for equal cells are the same number, so
/// that all references to equal cells are the same number.
pub proof fn lemma_boc_dedup(roots: Seq<CellView>, i: nat, j: nat)
    requires
        forall|k: int| 0 <= k < roots.len() ==> (#[trigger] roots[k]).wf(),
        i < flatten(roots).cells.len(),
        j < flatten(roots).cells.len(),
        resolve(flatten(roots).cells, i) == resolve(flatten(roots).cells, j),
    ensures
        i == j,
{
    lemma_flatten(roots);
    lemma_resolve_injective(flatten(roots).cells, i, j);
}

/// The cells that are laid out are the cells of the graph: every cell of
/// the numbered list is one of the roots or lies below one, and every cell
/// that is a root or lies below one is in the list. As equal cells share
/// their number, the list holds each cell of the graph once, so that the
/// number of cells laid out is the number of different cells in the graph.
pub proof fn lemma_boc_cells_are_those_of_the_graph(roots: Seq<CellView>)
    requires
        forall|k: int| 0 <= k < roots.len() ==> (#[trigger] roots[k]).wf(),
    ensures
        forall|i: nat|
            i < flatten(roots).cells.len() ==> reachable(
                roots,
                #[trigger] resolve(flatten(roots).cells, i),
            ),
        forall|cell: CellView|
            reachable(roots, cell) ==> exists|i: nat|
                i < flatten(roots).cells.len() && #[trigger] resolve(flatten(roots).cells, i)
                    == cell,
{
    lemma_flatten(roots);
    lemma_intern_all_adds(Seq::empty(), roots, roots.len());
    let bag = flatten(roots);
    assert forall|cell: CellView| reachable(roots, cell) implies exists|i: nat|
        i < bag.cells.len() && #[trigger] resolve(bag.cells, i) == cell by {
        let k = choose|k: int| 0 <= k < roots.len() && within(#[trigger] roots[k], cell);
        let at = bag.roots[k];
        assert(resolve(bag.cells, at) == roots[k]);
        let i = lemma_within_numbered(bag.cells, at, cell);
        assert(i < bag.cells.len() && resolve(bag.cells, i) == cell);
    }
}

/// A bag that was laid out with a checksum is not read back once one of its
/// bytes has changed, as long as the byte of flags still announces the
/// checksum.
pub proof fn lemma_checksum_detects(bytes: Seq<u8>, changed: Seq<u8>, at: int)
    requires
        parse_bag(bytes) is Ok,
        bytes[4] / 64 % 2 == 1,
        changed.len() == bytes.len(),
        0 <= at < bytes.len(),
        changed[at] != bytes[at],
        forall|j: int| 0 <= j < bytes.len() && j != at ==> changed[j] == bytes[j],
        changed[4] / 64 % 2 == 1,
    ensures
        parse_bag(changed) is Err,
        boc_parse(changed) is Err,
{
    if parse_bag(changed) is Ok {
        let h = parse_header(bytes)->Ok_0;
        let g = parse_header(changed)->Ok_0;
        let end = (bytes.len() - 4) as nat;
        assert(h.cells_end() == end);
        assert(g.cells_end() == end);
        let old_tail = slice(bytes, end, 4);
        let new_tail = slice(changed, end, 4);
        assert(le_value4(old_tail) == crc32c(bytes.take(end as int)));
        assert(le_value4(new_tail) == crc32c(changed.take(end as int)));
        if at < end {
            lemma_crc_detects_one_byte(bytes.take(end as int), changed.take(end as int), at);
            assert(old_tail =~= new_tail);
        } else {
            assert(bytes.take(end as int) =~= changed.take(end as int));
            assert(old_tail[at - end] != new_tail[at - end]);
            assert forall|j: int| 0 <= j < 4 && j != at - end implies old_tail[j] == new_tail[j] by {
                assert(changed[end + j] == bytes[end + j]);
            }
        }
    }
}

/// The bag that a graph is laid out as keeps to the rules of the layout: it
/// has a root, every root and every reference is the number of one of its
/// cells, every cell refers to later cells only and keeps to the limits of
/// a cell, and no two of its cells are equal.
pub proof fn lemma_boc_layout_ok(roots: Seq<CellView>)
    requires
        encodable(roots),
    ensures
        bag_ok(mirror(flatten(roots))),
        forall|i: int, j: int|
            0 <= i < j < mirror(flatten(roots)).cells.len() ==> mirror(flatten(roots)).cells[i]
                != mirror(flatten(roots)).cells[j],
{
    let arena = flatten(roots);
    let wire = mirror(arena);
    let n = arena.cells.len();
    lemma_flatten(roots);
    lemma_mirror_ok(arena);
    lemma_mirror_twice(arena);
    assert forall|i: int, j: int| 0 <= i < j < wire.cells.len() implies wire.cells[i]
        != wire.cells[j] by {
        if wire.cells[i] == wire.cells[j] {
            let a = arena.cells[n - 1 - i];
            let b = arena.cells[n - 1 - j];
            assert(mirror(wire).cells[n - 1 - i] == crate::boc_graph::mirror_cell(wire.cells[i], n));
            assert(mirror(wire).cells[n - 1 - j] == crate::boc_graph::mirror_cell(wire.cells[j], n));
            assert(a == b);
        }
    }
}

} // verus!
