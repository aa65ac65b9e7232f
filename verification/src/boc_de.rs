//! Reading a bag of cells back from bytes.

use crate::boc_ser::{RawBag, RawCell};
use crate::boc_wire::{
    Header, RawCellView, lemma_parse_cells_fails, lemma_parse_refs_fails, lemma_parse_roots_fails,
    magic, parse_bag, parse_cell, parse_cells, parse_data, parse_header, parse_refs, parse_roots,
    slice,
};
use crate::bytes::{lemma_be_value_bound, read_be, unpadded};
use crate::cell::MAX_REFS_COUNT;
use crate::crc32c::checksum;
use crate::error::{Error, ErrorKind, Failure};
use crate::storage::Bits;
use vstd::arithmetic::power2::{lemma2_to64, lemma2_to64_rest};
use vstd::prelude::*;
use vstd::slice::slice_subrange;

verus! {

/// What the header of a bag says.
pub struct HeaderInfo {
    pub has_idx: bool,
    pub has_crc32c: bool,
    pub size: usize,
    pub off: usize,
    pub cells: u64,
    pub roots: u64,
    pub cells_len: u64,
}

impl DeepView for HeaderInfo {
    type V = Header;

    open spec fn deep_view(&self) -> Header {
        Header {
            has_idx: self.has_idx,
            has_crc32c: self.has_crc32c,
            size: self.size as nat,
            off: self.off as nat,
            cells: self.cells as nat,
            roots: self.roots as nat,
            cells_len: self.cells_len as nat,
        }
    }
}

/// Whether an outcome is the one that was asked for: the value
/// by its deep view, the error by its kind and its trail.
pub open spec fn matches_spec<T: DeepView>(r: Result<T, Error>, want: Result<T::V, Failure>) -> bool {
    match want {
        Ok(v) => r matches Ok(x) && x.deep_view() == v,
        Err(k) => r matches Err(e) && e@ == k,
    }
}

/// An error of kind `Corruption`.
fn corrupt<T>() -> (r: Result<T, Error>)
    ensures
        r matches Err(e) && e@ == Failure::of(ErrorKind::Corruption),
{
    Err(Error::new(ErrorKind::Corruption))
}

/// Reads the header at the front of a byte string.
pub(crate) fn read_header(bytes: &[u8]) -> (r: Result<HeaderInfo, Error>)
    ensures
        matches_spec(r, parse_header(bytes@)),
        r matches Ok(h) ==> 1 <= h.size <= 4 && 1 <= h.off <= 8 && h.cells < 0x1_0000_0000
            && 1 <= h.roots <= h.cells,
{
    let len = bytes.len();
    if len < 6 {
        return corrupt();
    }
    if bytes[0] != 0xb5 || bytes[1] != 0xee || bytes[2] != 0x9c || bytes[3] != 0x72 {
        proof {
            assert(slice(bytes@, 0, 4)[0] == bytes@[0]);
            assert(slice(bytes@, 0, 4)[1] == bytes@[1]);
            assert(slice(bytes@, 0, 4)[2] == bytes@[2]);
            assert(slice(bytes@, 0, 4)[3] == bytes@[3]);
        }
        return corrupt();
    }
    proof {
        assert(slice(bytes@, 0, 4) =~= magic());
    }
    let flags = bytes[4];
    let size = (flags % 8) as usize;
    let off = bytes[5] as usize;
    if flags / 8 % 8 != 0 || size < 1 || size > 4 || off < 1 || off > 8 {
        return corrupt();
    }
    if len < 6 + 3 * size + off {
        return corrupt();
    }
    let cells = read_be(bytes, 6, size);
    let roots = read_be(bytes, 6 + size, size);
    let absent = read_be(bytes, 6 + 2 * size, size);
    let cells_len = read_be(bytes, 6 + 3 * size, off);
    proof {
        lemma_be_value_bound(slice(bytes@, 6, size as nat));
        lemma2_to64();
        lemma2_to64_rest();
        if size < 4 {
            vstd::arithmetic::power2::lemma_pow2_strictly_increases((8 * size) as nat, 32);
        }
    }
    if roots < 1 || absent != 0 || roots > cells {
        return corrupt();
    }
    Ok(
        HeaderInfo {
            has_idx: flags / 128 == 1,
            has_crc32c: flags / 64 % 2 == 1,
            size,
            off,
            cells,
            roots,
            cells_len,
        },
    )
}

/// The deep view of a list of numbers.
pub open spec fn numbers_view(numbers: Seq<usize>) -> Seq<nat> {
    Seq::new(numbers.len(), |i: int| numbers[i] as nat)
}

/// Reads the numbers of the roots.
fn read_roots(bytes: &[u8], start: usize, n: usize, size: usize, count: u64) -> (r: Result<
    Vec<usize>,
    Error,
>)
    requires
        1 <= size <= 4,
        start + n * size <= bytes@.len(),
        count < 0x1_0000_0000,
    ensures
        match parse_roots(bytes@, start as nat, n as nat, size as nat, count as nat) {
            Ok(v) => r matches Ok(x) && numbers_view(x@) == v,
            Err(k) => r matches Err(e) && e@ == k,
        },
{
    let mut out: Vec<usize> = Vec::new();
    let mut i: usize = 0;
    let _ = bytes.len();
    proof {
        assert(numbers_view(out@) =~= Seq::<nat>::empty());
    }
    while i < n
        invariant
            i <= n,
            1 <= size <= 4,
            start + n * size <= bytes@.len() <= usize::MAX,
            count < 0x1_0000_0000,
            parse_roots(bytes@, start as nat, i as nat, size as nat, count as nat) == Ok::<
                Seq<nat>,
                Failure,
            >(numbers_view(out@)),
        decreases n - i,
    {
        proof {
            assert(i * size + size <= n * size) by (nonlinear_arith)
                requires
                    i < n,
            ;
        }
        let root = read_be(bytes, start + i * size, size);
        if root >= count {
            proof {
                lemma_parse_roots_fails(
                    bytes@,
                    start as nat,
                    (i + 1) as nat,
                    n as nat,
                    size as nat,
                    count as nat,
                );
            }
            return corrupt();
        }
        proof {
            assert(numbers_view(out@.push(root as usize)) =~= numbers_view(out@).push(root as nat));
        }
        out.push(root as usize);
        i = i + 1;
    }
    Ok(out)
}

/// Reads the references of cell number `index`.
fn read_refs(bytes: &[u8], start: usize, n: usize, size: usize, index: u64, count: u64) -> (r:
    Result<Vec<usize>, Error>)
    requires
        1 <= size <= 4,
        start + n * size <= bytes@.len(),
        count < 0x1_0000_0000,
    ensures
        match parse_refs(bytes@, start as nat, n as nat, size as nat, index as nat, count as nat) {
            Ok(v) => r matches Ok(x) && numbers_view(x@) == v,
            Err(k) => r matches Err(e) && e@ == k,
        },
{
    let mut out: Vec<usize> = Vec::new();
    let mut i: usize = 0;
    let _ = bytes.len();
    proof {
        assert(numbers_view(out@) =~= Seq::<nat>::empty());
    }
    while i < n
        invariant
            i <= n,
            1 <= size <= 4,
            start + n * size <= bytes@.len() <= usize::MAX,
            count < 0x1_0000_0000,
            parse_refs(
                bytes@,
                start as nat,
                i as nat,
                size as nat,
                index as nat,
                count as nat,
            ) == Ok::<Seq<nat>, Failure>(numbers_view(out@)),
        decreases n - i,
    {
        proof {
            assert(i * size + size <= n * size) by (nonlinear_arith)
                requires
                    i < n,
            ;
        }
        let to = read_be(bytes, start + i * size, size);
        proof {
            if to >= count || to <= index {
                lemma_parse_refs_fails(
                    bytes@,
                    start as nat,
                    (i + 1) as nat,
                    n as nat,
                    size as nat,
                    index as nat,
                    count as nat,
                );
            }
        }
        if to >= count {
            return corrupt();
        }
        if to <= index {
            return Err(Error::new(ErrorKind::Cycle));
        }
        proof {
            assert(numbers_view(out@.push(to as usize)) =~= numbers_view(out@).push(to as nat));
        }
        out.push(to as usize);
        i = i + 1;
    }
    Ok(out)
}

/// Takes the padding off a bit string: what comes before its last 1.
fn strip_padding(bits: &Bits) -> (r: Option<Bits>)
    ensures
        match unpadded(bits@) {
            Some(v) => r matches Some(x) && x@ == v,
            None => r is None,
        },
{
    let mut i: usize = bits.len();
    proof {
        assert(bits@.take(i as int) =~= bits@);
    }
    while i > 0
        invariant
            i <= bits@.len(),
            unpadded(bits@) == unpadded(bits@.take(i as int)),
        decreases i,
    {
        let bit = match bits.get(i - 1) {
            Some(b) => b,
            None => false,
        };
        proof {
            assert(bits@.take(i as int).last() == bits@[i - 1]);
            assert(bits@.take(i as int).drop_last() =~= bits@.take(i - 1));
        }
        if bit {
            let out = bits.part(0, i - 1);
            proof {
                assert(bits@.subrange(0, i - 1) =~= bits@.take(i - 1));
            }
            return Some(out);
        }
        i = i - 1;
    }
    None
}

/// Reads the bits of a cell from the bytes of its data.
fn read_data(bytes: &[u8], start: usize, len: usize, descriptor: u8) -> (r: Result<Bits, Error>)
    requires
        start + len <= bytes@.len(),
        len <= 128,
    ensures
        match parse_data(slice(bytes@, start as nat, len as nat), descriptor as nat) {
            Ok(v) => r matches Ok(x) && x@ == v,
            Err(k) => r matches Err(e) && e@ == k,
        },
{
    let _ = bytes.len();
    let part = slice_subrange(bytes, start, start + len);
    let all = match Bits::from_bytes(part) {
        Some(b) => b,
        None => {
            proof {
                lemma2_to64();
                lemma2_to64_rest();
            }
            return corrupt();
        },
    };
    if descriptor % 2 == 0 {
        return Ok(all);
    }
    if len == 0 || bytes[start + len - 1] == 0 {
        return corrupt();
    }
    match strip_padding(&all) {
        Some(bits) => Ok(bits),
        None => corrupt(),
    }
}

/// Reads cell number `index` from `pos` on.
fn read_cell(bytes: &[u8], pos: usize, limit: usize, size: usize, index: u64, count: u64) -> (r:
    Result<(RawCell, usize), Error>)
    requires
        1 <= size <= 4,
        pos <= limit <= bytes@.len(),
        count < 0x1_0000_0000,
    ensures
        match parse_cell(
            bytes@,
            pos as nat,
            limit as nat,
            size as nat,
            index as nat,
            count as nat,
        ) {
            Ok((v, end)) => r matches Ok((x, e)) && x.deep_view() == v && e == end && pos <= e
                <= limit,
            Err(k) => r matches Err(e) && e@ == k,
        },
{
    let _ = bytes.len();
    if limit - pos < 2 {
        return corrupt();
    }
    let refs = bytes[pos] as usize;
    let descriptor = bytes[pos + 1];
    let data_len = (descriptor as usize + 1) / 2;
    if refs > MAX_REFS_COUNT {
        return corrupt();
    }
    assert(refs * size <= 16) by (nonlinear_arith)
        requires
            refs <= 4,
            size <= 4,
    ;
    let need = 2 + data_len + refs * size;
    if need > limit - pos {
        return corrupt();
    }
    let data = read_data(bytes, pos + 2, data_len, descriptor)?;
    let refs = read_refs(bytes, pos + 2 + data_len, refs, size, index, count)?;
    let cell = RawCell { data, refs };
    proof {
        assert(cell.deep_view().refs =~= numbers_view(cell.refs@));
    }
    Ok((cell, pos + need))
}

/// The deep view of a list of cells.
pub open spec fn cells_view(cells: Seq<RawCell>) -> Seq<RawCellView> {
    Seq::new(cells.len(), |i: int| cells[i].deep_view())
}

/// Reads `n` cells from `start` on.
fn read_cells(bytes: &[u8], start: usize, limit: usize, n: u64, size: usize) -> (r: Result<
    (Vec<RawCell>, usize),
    Error,
>)
    requires
        1 <= size <= 4,
        start <= limit <= bytes@.len(),
        n < 0x1_0000_0000,
    ensures
        match parse_cells(bytes@, start as nat, limit as nat, n as nat, size as nat, n as nat) {
            Ok((v, end)) => r matches Ok((x, e)) && cells_view(x@) == v && e == end,
            Err(k) => r matches Err(e) && e@ == k,
        },
{
    let mut out: Vec<RawCell> = Vec::new();
    let mut pos: usize = start;
    let mut i: u64 = 0;
    proof {
        assert(cells_view(out@) =~= Seq::<RawCellView>::empty());
    }
    while i < n
        invariant
            i <= n,
            1 <= size <= 4,
            start <= pos <= limit <= bytes@.len(),
            n < 0x1_0000_0000,
            parse_cells(bytes@, start as nat, limit as nat, i as nat, size as nat, n as nat)
                == Ok::<(Seq<RawCellView>, nat), Failure>((cells_view(out@), pos as nat)),
        decreases n - i,
    {
        let (cell, end) = match read_cell(bytes, pos, limit, size, i, n) {
            Ok(found) => found,
            Err(e) => {
                proof {
                    lemma_parse_cells_fails(
                        bytes@,
                        start as nat,
                        limit as nat,
                        (i + 1) as nat,
                        n as nat,
                        size as nat,
                        n as nat,
                    );
                }
                return Err(e);
            },
        };
        proof {
            assert(cells_view(out@.push(cell)) =~= cells_view(out@).push(cell.deep_view()));
        }
        out.push(cell);
        pos = end;
        i = i + 1;
    }
    Ok((out, pos))
}

/// Reads the bag that a byte string lays out from its first byte to its
/// last.
pub(crate) fn read_bag(bytes: &[u8]) -> (r: Result<RawBag, Error>)
    ensures
        matches_spec(r, parse_bag(bytes@)),
{
    let h = read_header(bytes)?;
    let len = bytes.len();
    let head: u128 = (6 + 3 * h.size + h.off) as u128;
    assert(h.roots * h.size <= 0x4_0000_0000 && h.cells * h.off <= 0x8_0000_0000)
        by (nonlinear_arith)
        requires
            h.roots <= h.cells < 0x1_0000_0000,
            h.size <= 4,
            h.off <= 8,
    ;
    let index_start: u128 = head + (h.roots as u128) * (h.size as u128);
    let cells_start: u128 = index_start + if h.has_idx {
        (h.cells as u128) * (h.off as u128)
    } else {
        0
    };
    let cells_end: u128 = cells_start + h.cells_len as u128;
    let total: u128 = cells_end + if h.has_crc32c {
        4
    } else {
        0
    };
    proof {
        let hv = h.deep_view();
        assert(head == hv.len());
        assert(index_start == hv.index_start());
        assert(cells_start == hv.cells_start());
        assert(cells_end == hv.cells_end());
        assert(total == hv.total());
    }
    if total != len as u128 {
        return corrupt();
    }
    let roots = read_roots(bytes, head as usize, h.roots as usize, h.size, h.cells)?;
    let (cells, end) = read_cells(
        bytes,
        cells_start as usize,
        cells_end as usize,
        h.cells,
        h.size,
    )?;
    if end != cells_end as usize {
        return corrupt();
    }
    if h.has_crc32c {
        let body = slice_subrange(bytes, 0, end);
        let crc = checksum(body);
        let stored: u32 = bytes[end] as u32 + 256 * (bytes[end + 1] as u32) + 65536 * (bytes[end
            + 2] as u32) + 16777216 * (bytes[end + 3] as u32);
        proof {
            assert(bytes@.subrange(0, end as int) =~= bytes@.take(end as int));
            let tail = slice(bytes@, end as nat, 4);
            assert(tail[0] == bytes@[end as int]);
            assert(tail[1] == bytes@[end + 1]);
            assert(tail[2] == bytes@[end + 2]);
            assert(tail[3] == bytes@[end + 3]);
        }
        if stored != crc {
            return corrupt();
        }
    }
    let bag = RawBag { cells, roots };
    proof {
        assert(bag.deep_view().cells =~= cells_view(bag.cells@));
        assert(bag.deep_view().roots =~= numbers_view(bag.roots@));
    }
    Ok(bag)
}

} // verus!
