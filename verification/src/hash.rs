//! The hash of a cell: the SHA-256 digest of what the cell holds and of the
//! hashes of the cells that it refers to.

use crate::boc_ser::{lemma_padded_len, pack_bits, pad_bits};
use crate::boc_wire::descriptor;
use crate::bytes::{be_bytes, bits_to_bytes, padded, push_be};
use crate::cell::{Cell, CellView, MAX_BITS_LEN, MAX_REFS_COUNT, same_allocation, share};
use crate::error::{Error, ErrorKind, Failure};
use sha2::Digest;
use sha2::Sha256;
use std::sync::Arc;
use vstd::prelude::*;

verus! {

/// The SHA-256 digest of a byte string.
pub uninterp spec fn sha256(data: Seq<u8>) -> Seq<u8>;

/// `Sha256::digest`: the SHA-256 digest of the bytes, as 32 bytes.
#[verifier::external_body]
fn digest(data: &[u8]) -> (out: [u8; 32])
    ensures
        out@ == sha256(data@),
{
    Sha256::digest(data).into()
}

/// The larger of two numbers.
pub open spec fn larger(a: nat, b: nat) -> nat {
    if a >= b {
        a
    } else {
        b
    }
}

/// The depth of a cell: 0 for a cell without references, else one more than
/// the depth of the deepest cell that it refers to.
pub open spec fn cell_depth(c: CellView) -> nat
    decreases c, 1nat, 0nat,
{
    if c.references.len() == 0 {
        0
    } else {
        1 + deepest(c, c.references.len())
    }
}

/// The depth of the deepest of the cells that the first `k` references of a
/// cell lead to.
pub open spec fn deepest(c: CellView, k: nat) -> nat
    decreases c, 0nat, k,
{
    if k == 0 || k > c.references.len() {
        0
    } else {
        larger(deepest(c, (k - 1) as nat), cell_depth(c.references[k - 1]))
    }
}

/// The depths of the cells that the first `k` references of a cell lead
/// to, each in two bytes.
pub open spec fn depths_bytes(c: CellView, k: nat) -> Seq<u8>
    decreases c, 0nat, k,
{
    if k == 0 || k > c.references.len() {
        Seq::empty()
    } else {
        depths_bytes(c, (k - 1) as nat) + be_bytes(cell_depth(c.references[k - 1]), 2)
    }
}

/// The hashes of the cells that the first `k` references of a cell lead
/// to.
pub open spec fn hashes_bytes(c: CellView, k: nat) -> Seq<u8>
    decreases c, 0nat, k,
{
    if k == 0 || k > c.references.len() {
        Seq::empty()
    } else {
        hashes_bytes(c, (k - 1) as nat) + cell_hash(c.references[k - 1])
    }
}

/// The bytes that are hashed for a cell: the number of its references, the
/// descriptor of its data, its data made up to whole bytes, and the depths
/// and the hashes of the cells that it refers to.
pub open spec fn cell_repr(c: CellView) -> Seq<u8>
    decreases c, 1nat, 0nat,
{
    seq![c.references.len() as u8, descriptor(c.data.len()) as u8] + bits_to_bytes(padded(c.data))
        + depths_bytes(c, c.references.len()) + hashes_bytes(c, c.references.len())
}

/// The hash of a cell.
pub open spec fn cell_hash(c: CellView) -> Seq<u8>
    decreases c, 2nat, 0nat,
{
    sha256(cell_repr(c))
}

/// Whether a cell can be hashed: it and all cells below it keep to the
/// limits of a cell, and its depth can be written in two bytes.
pub open spec fn hashable(c: CellView) -> bool {
    c.wf() && cell_depth(c) <= 0xFFFF
}

/// The cells that a cell refers to are less deep than the cell.
pub proof fn lemma_deepest(c: CellView, k: nat, j: int)
    requires
        0 <= j < k <= c.references.len(),
    ensures
        cell_depth(c.references[j]) <= deepest(c, k),
        deepest(c, k) <= deepest(c, c.references.len()),
    decreases c.references.len() - k,
{
    lemma_deepest_upto(c, k, j);
    if k < c.references.len() {
        lemma_deepest(c, k + 1, j);
    }
}

/// The deepest of the first cells is at least as deep as each of them.
pub proof fn lemma_deepest_upto(c: CellView, k: nat, j: int)
    requires
        0 <= j < k <= c.references.len(),
    ensures
        cell_depth(c.references[j]) <= deepest(c, k),
    decreases k,
{
    if j < k - 1 {
        lemma_deepest_upto(c, (k - 1) as nat, j);
    }
}

/// Appends the bytes of a digest.
fn push_digest(out: &mut Vec<u8>, h: &[u8; 32])
    ensures
        final(out)@ == old(out)@ + h@,
{
    let ghost start = out@;
    let mut i: usize = 0;
    while i < 32
        invariant
            i <= 32,
            out@ == start + h@.take(i as int),
        decreases 32 - i,
    {
        out.push(h[i]);
        proof {
            assert(start + h@.take(i + 1) =~= (start + h@.take(i as int)).push(h@[i as int]));
        }
        i = i + 1;
    }
    proof {
        assert(h@.take(32) =~= h@);
    }
}

/// A cell that has been hashed, with its hash and its depth.
pub struct Hashed {
    pub cell: Arc<Cell>,
    pub hash: [u8; 32],
    pub depth: u16,
}

/// Whether what has been noted of cells is their hash and their depth.
pub open spec fn memo_ok(memo: Seq<Hashed>) -> bool {
    forall|j: int|
        0 <= j < memo.len() ==> {
            &&& hashable((#[trigger] memo[j]).cell.deep_view())
            &&& memo[j].hash@ == cell_hash(memo[j].cell.deep_view())
            &&& memo[j].depth == cell_depth(memo[j].cell.deep_view())
        }
}

/// Computes the hash and the depth of the cell behind a pointer: a cell
/// that was reached through the same pointer before is not walked again.
fn hash_shared(cell: &Arc<Cell>, memo: &mut Vec<Hashed>) -> (r: Result<([u8; 32], u16), Error>)
    requires
        memo_ok(old(memo)@),
    ensures
        memo_ok(final(memo)@),
        r is Ok <==> hashable(cell.deep_view()),
        r matches Ok((h, d)) ==> h@ == cell_hash(cell.deep_view()) && d == cell_depth(
            cell.deep_view(),
        ),
        r matches Err(e) ==> e@ == Failure::of(ErrorKind::Custom),
    decreases *cell, 1nat,
{
    let m = memo.len();
    let mut j: usize = 0;
    while j < m
        invariant
            j <= m,
            m == memo@.len(),
            memo_ok(memo@),
        decreases m - j,
    {
        if same_allocation(&memo[j].cell, cell) {
            proof {
                assert(hashable(memo@[j as int].cell.deep_view()));
            }
            return Ok((memo[j].hash, memo[j].depth));
        }
        j = j + 1;
    }
    let (h, d) = hash_and_depth(cell, memo)?;
    let ghost before = memo@;
    let noted = Hashed { cell: share(cell), hash: h, depth: d };
    memo.push(noted);
    proof {
        assert forall|k: int| 0 <= k < memo@.len() implies hashable(
            (#[trigger] memo@[k]).cell.deep_view(),
        ) && memo@[k].hash@ == cell_hash(memo@[k].cell.deep_view()) && memo@[k].depth
            == cell_depth(memo@[k].cell.deep_view()) by {
            if k < before.len() {
                assert(memo@[k] == before[k]);
            }
        }
    }
    Ok((h, d))
}

/// Computes the hash and the depth of a cell.
fn hash_and_depth(cell: &Cell, memo: &mut Vec<Hashed>) -> (r: Result<([u8; 32], u16), Error>)
    requires
        memo_ok(old(memo)@),
    ensures
        memo_ok(final(memo)@),
        r is Ok <==> hashable(cell.deep_view()),
        r matches Ok((h, d)) ==> h@ == cell_hash(cell.deep_view()) && d == cell_depth(
            cell.deep_view(),
        ),
        r matches Err(e) ==> e@ == Failure::of(ErrorKind::Custom),
    decreases *cell, 0nat,
{
    let ghost c = cell.deep_view();
    let n = cell.references.len();
    let bits = cell.data.len();
    if bits > MAX_BITS_LEN || n > MAX_REFS_COUNT {
        return Err(Error::new(ErrorKind::Custom));
    }
    let mut depths: Vec<u8> = Vec::new();
    let mut hashes: Vec<u8> = Vec::new();
    let mut deep: u16 = 0;
    let mut k: usize = 0;
    while k < n
        invariant
            k <= n,
            n == cell.references@.len(),
            c == cell.deep_view(),
            n <= MAX_REFS_COUNT,
            c.data.len() <= MAX_BITS_LEN,
            depths@ == depths_bytes(c, k as nat),
            hashes@ == hashes_bytes(c, k as nat),
            deep == deepest(c, k as nat),
            forall|j: int| 0 <= j < k ==> hashable(#[trigger] c.references[j]),
            memo_ok(memo@),
        decreases n - k,
    {
        let child: &Arc<Cell> = &cell.references[k];
        proof {
            assert(c.references[k as int] == child.deep_view());
        }
        let (h, d) = match hash_shared(child, memo) {
            Ok(found) => found,
            Err(e) => {
                proof {
                    if hashable(c) {
                        assert(c.references[k as int].wf());
                        lemma_deepest(c, (k + 1) as nat, k as int);
                    }
                }
                return Err(e);
            },
        };
        push_be(&mut depths, d as u64, 2);
        push_digest(&mut hashes, &h);
        if d > deep {
            deep = d;
        }
        k = k + 1;
    }
    if n > 0 && deep == 0xFFFF {
        return Err(Error::new(ErrorKind::Custom));
    }
    let depth: u16 = if n == 0 {
        0
    } else {
        deep + 1
    };
    let mut repr: Vec<u8> = Vec::new();
    repr.push(n as u8);
    repr.push((bits / 8 + (bits + 7) / 8) as u8);
    let padded_bits = pad_bits(&cell.data);
    proof {
        lemma_padded_len(c.data);
    }
    let mut data = pack_bits(&padded_bits);
    repr.append(&mut data);
    repr.append(&mut depths);
    repr.append(&mut hashes);
    proof {
        assert(repr@ =~= cell_repr(c));
        assert(c.wf()) by {
            assert forall|i: int| 0 <= i < c.references.len() implies (
            #[trigger] c.references[i]).wf() by {
                assert(hashable(c.references[i]));
            }
        }
    }
    Ok((digest(repr.as_slice()), depth))
}

impl Cell {
    /// The hash of this cell; an error of kind `Custom` where the cell or a
    /// cell below it does not keep to the limits of a cell, or where the
    /// cell is more than 65535 cells deep.
    pub fn hash(&self) -> (r: Result<[u8; 32], Error>)
        ensures
            r is Ok <==> hashable(self.deep_view()),
            r matches Ok(h) ==> h@ == cell_hash(self.deep_view()),
            r matches Err(e) ==> e@ == Failure::of(ErrorKind::Custom),
    {
        let mut memo: Vec<Hashed> = Vec::new();
        match hash_and_depth(self, &mut memo) {
            Ok((h, _)) => Ok(h),
            Err(e) => Err(e),
        }
    }

    /// The depth of this cell: 0 without references, else one more than the
    /// depth of the deepest cell that it refers to. The error is as for the
    /// hash.
    pub fn depth(&self) -> (r: Result<u16, Error>)
        ensures
            r is Ok <==> hashable(self.deep_view()),
            r matches Ok(d) ==> d == cell_depth(self.deep_view()),
            r matches Err(e) ==> e@ == Failure::of(ErrorKind::Custom),
    {
        let mut memo: Vec<Hashed> = Vec::new();
        match hash_and_depth(self, &mut memo) {
            Ok((_, d)) => Ok(d),
            Err(e) => Err(e),
        }
    }
}

} // verus!
