//! Bags of cells as values that are written to and read from streams of
//! bits.

use crate::boc::{BagOfCells, boc_bytes, boc_parse, encodable};
use crate::boc_de::read_header;
use crate::boc_wire::{BagOfCellsArgs, Header, magic, parse_header, slice};
use crate::bytes::{bits_to_bytes, lemma_bytes_of_bits_of_bytes};
use crate::cell::CellView;
use crate::de::BitUnpack;
use crate::error::{Error, ErrorKind, Failure};
use crate::integer::{lemma_bits_uint_bound, read_uint};
use crate::reader::BitReader;
use crate::sequence::write_bytes;
use crate::ser::BitPackWithArgs;
use crate::storage::bytes_to_bits;
use crate::writer::BitWriter;
use vstd::arithmetic::power2::lemma2_to64;
use vstd::prelude::*;

verus! {

/// The whole bytes at the front of a bit string.
pub open spec fn whole_bytes(bits: Seq<bool>) -> Seq<u8> {
    bits_to_bytes(bits.take(8 * (bits.len() as int / 8)))
}

/// The header of a byte string is the header of its front.
pub proof fn lemma_header_prefix(bytes: Seq<u8>, m: nat)
    requires
        6 <= m <= bytes.len(),
        m >= 6 + 3 * (bytes[4] % 8) + bytes[5],
    ensures
        parse_header(bytes.take(m as int)) == parse_header(bytes),
{
    let front = bytes.take(m as int);
    let size = (bytes[4] % 8) as nat;
    let off = bytes[5] as nat;
    assert(front[4] == bytes[4]);
    assert(front[5] == bytes[5]);
    assert(slice(front, 0, 4) =~= slice(bytes, 0, 4));
    assert(slice(front, 6, size) =~= slice(bytes, 6, size));
    assert(slice(front, 6 + size, size) =~= slice(bytes, 6 + size, size));
    assert(slice(front, 6 + 2 * size, size) =~= slice(bytes, 6 + 2 * size, size));
    assert(slice(front, 6 + 3 * size, off) =~= slice(bytes, 6 + 3 * size, off));
}

/// Reads `n` whole bytes, after `k` bytes have been read.
fn read_bytes<R: BitReader>(
    reader: &mut R,
    buf: &mut Vec<u8>,
    n: usize,
    Ghost(all): Ghost<Seq<bool>>,
) -> (r: Result<(), Error>)
    requires
        old(reader).wf(),
        8 * old(buf)@.len() <= all.len(),
        old(reader).remaining() == all.skip(8 * old(buf)@.len() as int),
        old(buf)@ == whole_bytes(all).take(old(buf)@.len() as int),
        old(buf)@.len() + n <= whole_bytes(all).len(),
    ensures
        final(reader).wf(),
        r is Ok,
        final(buf)@.len() == old(buf)@.len() + n,
        final(buf)@ == whole_bytes(all).take(final(buf)@.len() as int),
        final(reader).remaining() == all.skip(8 * final(buf)@.len() as int),
{
    let ghost bytes = whole_bytes(all);
    let ghost start = buf@.len();
    let mut i: usize = 0;
    while i < n
        invariant
            i <= n,
            reader.wf(),
            bytes == whole_bytes(all),
            start + n <= bytes.len(),
            buf@.len() == start + i,
            buf@ == bytes.take(buf@.len() as int),
            reader.remaining() == all.skip(8 * buf@.len() as int),
        decreases n - i,
    {
        let ghost at = buf@.len() as int;
        let r = read_uint(reader, 8);
        proof {
            let chunk = all.skip(8 * at).take(8);
            assert(chunk =~= all.take(8 * (all.len() as int / 8)).subrange(8 * at, 8 * at + 8));
            lemma_bits_uint_bound(chunk);
            lemma2_to64();
            assert(all.skip(8 * at).skip(8) =~= all.skip(8 * (at + 1)));
        }
        let v = match r {
            Ok(v) => v,
            Err(e) => {
                return Err(e);
            },
        };
        buf.push(v as u8);
        proof {
            assert(buf@ =~= bytes.take(at + 1));
        }
        i = i + 1;
    }
    Ok(())
}

impl BitPackWithArgs for BagOfCells {
    type Args = BagOfCellsArgs;

    open spec fn packable_with(v: Seq<CellView>, args: BagOfCellsArgs) -> bool {
        encodable(v)
    }

    open spec fn encoding_with(v: Seq<CellView>, args: BagOfCellsArgs) -> Seq<bool> {
        bytes_to_bits(boc_bytes(v, args))
    }

    fn pack_with<W: BitWriter>(&self, writer: &mut W, args: BagOfCellsArgs) -> (r: Result<
        (),
        Error,
    >) {
        let ghost _own = (
            Self::packable_with(self.deep_view(), args),
            Self::encoding_with(self.deep_view(), args),
            Self::failure_with(self.deep_view(), args, writer.room()),
        );
        let bytes = match self.serialize(args) {
            Ok(b) => b,
            Err(e) => {
                assert(writer.written().is_prefix_of(writer.written()));
                return Err(e);
            },
        };
        write_bytes(writer, bytes.as_slice())
    }
}

/// Whether a byte string starts with the six bytes of a header and is as
/// long as these say that the header is.
pub open spec fn head_ok(bytes: Seq<u8>) -> bool {
    &&& bytes.len() >= 6
    &&& slice(bytes, 0, 4) == magic()
    &&& bytes[4] / 8 % 8 == 0
    &&& 1 <= bytes[4] % 8 <= 4
    &&& 1 <= bytes[5] <= 8
    &&& bytes.len() >= 6 + 3 * (bytes[4] % 8) + bytes[5]
}

/// A byte string that does not start so has no header.
pub proof fn lemma_head_ok(bytes: Seq<u8>)
    ensures
        !head_ok(bytes) ==> parse_header(bytes) == Err::<Header, Failure>(Failure::of(ErrorKind::Corruption)),
{
}

/// The bytes of the bag at the front of a byte string.
pub open spec fn frame_of(bytes: Seq<u8>) -> Result<Seq<u8>, Failure> {
    match parse_header(bytes) {
        Err(e) => Err(e),
        Ok(h) => if bytes.len() < h.total() {
            Err(Failure::of(ErrorKind::Corruption))
        } else {
            Ok(bytes.take(h.total() as int))
        },
    }
}

/// The length of the header that six bytes start, if they start one.
fn header_len(buf: &Vec<u8>) -> (r: Option<usize>)
    requires
        buf@.len() == 6,
    ensures
        r matches Some(n) ==> slice(buf@, 0, 4) == magic() && buf@[4] / 8 % 8 == 0 && 1 <= buf@[4]
            % 8 <= 4 && 1 <= buf@[5] <= 8 && n == 6 + 3 * (buf@[4] % 8) + buf@[5],
        r is None ==> !(slice(buf@, 0, 4) == magic() && buf@[4] / 8 % 8 == 0 && 1 <= buf@[4] % 8
            <= 4 && 1 <= buf@[5] <= 8),
{
    let flags = buf[4];
    let size = (flags % 8) as usize;
    let off = buf[5] as usize;
    if buf[0] != 0xb5 || buf[1] != 0xee || buf[2] != 0x9c || buf[3] != 0x72 {
        proof {
            assert(slice(buf@, 0, 4)[0] == buf@[0]);
            assert(slice(buf@, 0, 4)[1] == buf@[1]);
            assert(slice(buf@, 0, 4)[2] == buf@[2]);
            assert(slice(buf@, 0, 4)[3] == buf@[3]);
        }
        return None;
    }
    proof {
        assert(slice(buf@, 0, 4) =~= magic());
    }
    if flags / 8 % 8 != 0 || size < 1 || size > 4 || off < 1 || off > 8 {
        return None;
    }
    Some(6 + 3 * size + off)
}

/// The number of bytes of the bag whose header is given.
fn total_len(h: &crate::boc_de::HeaderInfo) -> (total: u128)
    requires
        1 <= h.size <= 4,
        1 <= h.off <= 8,
        h.cells < 0x1_0000_0000,
        h.roots <= h.cells,
    ensures
        total == h.deep_view().total(),
{
    assert(h.roots * h.size <= 0x4_0000_0000 && h.cells * h.off <= 0x8_0000_0000)
        by (nonlinear_arith)
        requires
            h.roots <= h.cells < 0x1_0000_0000,
            h.size <= 4,
            h.off <= 8,
    ;
    (6 + 3 * h.size + h.off) as u128 + (h.roots as u128) * (h.size as u128) + (if h.has_idx {
        (h.cells as u128) * (h.off as u128)
    } else {
        0
    }) + h.cells_len as u128 + (if h.has_crc32c {
        4
    } else {
        0
    })
}

/// Reads the first six bytes of a header and gives the length of the header
/// that they start.
#[verifier::rlimit(40)]
fn read_head<R: BitReader>(reader: &mut R, buf: &mut Vec<u8>, Ghost(all): Ghost<Seq<bool>>) -> (r:
    Result<usize, Error>)
    requires
        old(reader).wf(),
        old(reader).remaining() == all,
        old(buf)@.len() == 0,
    ensures
        final(reader).wf(),
        match r {
            Ok(head) => {
                &&& head_ok(whole_bytes(all))
                &&& head == 6 + 3 * (whole_bytes(all)[4] % 8) + whole_bytes(all)[5]
                &&& final(buf)@ == whole_bytes(all).take(6)
                &&& final(reader).remaining() == all.skip(48)
            },
            Err(e) => e@ == Failure::of(ErrorKind::Corruption) && !head_ok(whole_bytes(all)),
        },
{
    let ghost bytes = whole_bytes(all);
    let avail = reader.bits_left() / 8;
    if avail < 6 {
        return Err(Error::new(ErrorKind::Corruption));
    }
    proof {
        assert(all.skip(0) =~= all);
        assert(buf@ =~= bytes.take(0));
    }
    let _ = read_bytes(reader, buf, 6, Ghost(all));
    proof {
        assert(buf@[4] == bytes[4]);
        assert(buf@[5] == bytes[5]);
        assert(slice(buf@, 0, 4) =~= slice(bytes, 0, 4));
    }
    let head = match header_len(buf) {
        Some(n) => n,
        None => {
            return Err(Error::new(ErrorKind::Corruption));
        },
    };
    if avail < head {
        return Err(Error::new(ErrorKind::Corruption));
    }
    Ok(head)
}

/// Reads the bytes of the bag at the front of what the reader holds.
#[verifier::rlimit(40)]
fn read_frame<R: BitReader>(reader: &mut R) -> (r: Result<Vec<u8>, Error>)
    requires
        old(reader).wf(),
    ensures
        final(reader).wf(),
        match frame_of(whole_bytes(old(reader).remaining())) {
            Ok(frame) => r matches Ok(buf) && buf@ == frame && 8 * frame.len() <= old(reader).remaining().len() && final(reader).remaining() == old(reader).remaining().skip(
                8 * frame.len() as int,
            ),
            Err(k) => r matches Err(e) && e@ == k,
        },
{
    let ghost all = reader.remaining();
    let ghost bytes = whole_bytes(all);
    let avail = reader.bits_left() / 8;
    let mut buf: Vec<u8> = Vec::new();
    proof {
        lemma_head_ok(bytes);
    }
    let head = match read_head(reader, &mut buf, Ghost(all)) {
        Ok(n) => n,
        Err(e) => {
            return Err(e);
        },
    };
    let _ = read_bytes(reader, &mut buf, head - 6, Ghost(all));
    proof {
        lemma_header_prefix(bytes, head as nat);
    }
    let h = match read_header(buf.as_slice()) {
        Ok(h) => h,
        Err(e) => {
            return Err(e);
        },
    };
    let total = total_len(&h);
    if total > avail as u128 {
        return Err(Error::new(ErrorKind::Corruption));
    }
    let _ = read_bytes(reader, &mut buf, total as usize - head, Ghost(all));
    Ok(buf)
}

impl BitUnpack for BagOfCells {
    open spec fn decode(bits: Seq<bool>) -> Result<(Seq<CellView>, nat), Failure> {
        match frame_of(whole_bytes(bits)) {
            Err(e) => Err(e),
            Ok(frame) => match boc_parse(frame) {
                Err(e) => Err(e),
                Ok(v) => Ok((v, 8 * frame.len())),
            },
        }
    }

    proof fn lemma_decode_within(bits: Seq<bool>) {
        let _own = Self::decode(bits);
    }

    fn unpack<R: BitReader>(reader: &mut R) -> (r: Result<Self, Error>) {
        let ghost _own = Self::decode(reader.remaining());
        let buf = read_frame(reader)?;
        BagOfCells::parse(buf.as_slice())
    }
}

/// The whole bytes of the bits of a byte string, whatever follows the bits,
/// start with the byte string.
pub proof fn lemma_whole_bytes_front(laid: Seq<u8>, rest: Seq<bool>)
    ensures
        whole_bytes(bytes_to_bits(laid) + rest).len() >= laid.len(),
        whole_bytes(bytes_to_bits(laid) + rest).take(laid.len() as int) == laid,
{
    let bits = bytes_to_bits(laid) + rest;
    let bytes = whole_bytes(bits);
    lemma_bytes_of_bits_of_bytes(laid);
    assert(bytes.take(laid.len() as int) =~= laid) by {
        assert forall|k: int| 0 <= k < laid.len() implies bytes[k] == laid[k] by {
            let front = bits.take(8 * (bits.len() as int / 8));
            assert(front.subrange(8 * k, 8 * k + 8) =~= bytes_to_bits(laid).subrange(
                8 * k,
                8 * k + 8,
            ));
            assert(bits_to_bytes(bytes_to_bits(laid))[k] == laid[k]);
        }
    }
}

/// The bytes of a bag are the bag at the front of every byte string that
/// starts with them.
#[verifier::rlimit(40)]
pub proof fn lemma_frame_of_front(
    wire: crate::boc_wire::RawBagView,
    args: BagOfCellsArgs,
    bytes: Seq<u8>,
)
    requires
        crate::boc_wire::bag_ok(wire),
        bytes.len() >= crate::boc_wire::bag_bytes(wire, args).len(),
        bytes.take(crate::boc_wire::bag_bytes(wire, args).len() as int)
            == crate::boc_wire::bag_bytes(wire, args),
    ensures
        frame_of(bytes) == Ok::<Seq<u8>, Failure>(crate::boc_wire::bag_bytes(wire, args)),
{
    let laid = crate::boc_wire::bag_bytes(wire, args);
    crate::boc_laws::lemma_parse_header_of_bag_bytes(wire, args);
    crate::boc_laws::lemma_layout(wire, args);
    crate::boc_laws::lemma_sizes(wire);
    let h = crate::boc_laws::header_of(wire, args);
    crate::boc_laws::lemma_flags(args, h.size);
    assert(bytes[4] == laid[4]) by {
        assert(bytes.take(laid.len() as int)[4] == bytes[4]);
    }
    assert(bytes[5] == laid[5]) by {
        assert(bytes.take(laid.len() as int)[5] == bytes[5]);
    }
    lemma_header_prefix(bytes, laid.len());
}

/// A bag that was written as bits is read back as it was, whatever follows
/// it.
#[verifier::rlimit(40)]
pub proof fn lemma_bag_bits_round_trip(roots: Seq<CellView>, args: BagOfCellsArgs, rest: Seq<bool>)
    requires
        encodable(roots),
    ensures
        BagOfCells::decode(BagOfCells::encoding_with(roots, args) + rest) == Ok::<
            (Seq<CellView>, nat),
            Failure,
        >((roots, BagOfCells::encoding_with(roots, args).len())),
{
    let laid = boc_bytes(roots, args);
    let bits = bytes_to_bits(laid) + rest;
    crate::boc_laws::lemma_boc_round_trip(roots, args);
    crate::boc::lemma_flatten(roots);
    crate::boc::lemma_mirror_ok(crate::boc::flatten(roots));
    let wire = crate::boc_graph::mirror(crate::boc::flatten(roots));
    lemma_whole_bytes_front(laid, rest);
    lemma_frame_of_front(wire, args, whole_bytes(bits));
}

} // verus!
