//! The bit storage this library is built on: `bitvec`'s growable bit vector,
//! most significant bit first within each byte.

use bitvec::order::Msb0;
use bitvec::vec::BitVec;
use vstd::prelude::*;

verus! {

/// A growable sequence of bits, kept in a `bitvec::vec::BitVec<u8, Msb0>`.
#[verifier::external_body]
#[derive(Debug, PartialEq, Eq)]
pub struct Bits {
    inner: BitVec<u8, Msb0>,
}

/// The bits that a bit vector holds, first bit first.
pub uninterp spec fn bits_of(v: Bits) -> Seq<bool>;

impl View for Bits {
    type V = Seq<bool>;

    open spec fn view(&self) -> Seq<bool> {
        bits_of(*self)
    }
}

impl DeepView for Bits {
    type V = Seq<bool>;

    open spec fn deep_view(&self) -> Seq<bool> {
        bits_of(*self)
    }
}

/// The largest number of bits that a bit vector can hold.
pub open spec fn max_bits() -> nat {
    (usize::MAX / 8) as nat
}

/// Bit `j` of a byte, counted from the most significant bit.
pub open spec fn byte_bit(byte: u8, j: int) -> bool {
    if j == 0 {
        byte / 128 % 2 == 1
    } else if j == 1 {
        byte / 64 % 2 == 1
    } else if j == 2 {
        byte / 32 % 2 == 1
    } else if j == 3 {
        byte / 16 % 2 == 1
    } else if j == 4 {
        byte / 8 % 2 == 1
    } else if j == 5 {
        byte / 4 % 2 == 1
    } else if j == 6 {
        byte / 2 % 2 == 1
    } else {
        byte % 2 == 1
    }
}

/// The bits of a byte string: eight for each byte, the most significant
/// bit of the first byte first.
pub open spec fn bytes_to_bits(bytes: Seq<u8>) -> Seq<bool> {
    Seq::new(8 * bytes.len(), |i: int| byte_bit(bytes[i / 8], i % 8))
}

/// `BitVec::new`: a bit vector that holds no bits.
#[verifier::external_body]
fn bv_new() -> (v: Bits)
    ensures
        bits_of(v) == Seq::<bool>::empty(),
{
    Bits { inner: BitVec::new() }
}

/// `BitVec::len`: the number of bits held, which is never over the largest
/// length that a bit vector can have.
#[verifier::external_body]
fn bv_len(v: &Bits) -> (n: usize)
    ensures
        n == bits_of(*v).len(),
        n <= max_bits(),
{
    v.inner.len()
}

/// Indexing a `BitVec` with a position below its length: the bit there.
#[verifier::external_body]
fn bv_get(v: &Bits, i: usize) -> (bit: bool)
    requires
        i < bits_of(*v).len(),
    ensures
        bit == bits_of(*v)[i as int],
{
    v.inner[i]
}

/// `BitVec::push`: appends one bit. It panics where the new length is over
/// the largest that a bit vector can have.
#[verifier::external_body]
fn bv_push(v: &mut Bits, bit: bool)
    requires
        bits_of(*old(v)).len() < max_bits(),
    ensures
        bits_of(*final(v)) == bits_of(*old(v)).push(bit),
{
    v.inner.push(bit)
}

/// `BitVec::extend_from_bitslice`: appends the bits of another bit vector,
/// in their order. It panics where the new length is over the largest that
/// a bit vector can have.
#[verifier::external_body]
fn bv_extend(v: &mut Bits, other: &Bits)
    requires
        bits_of(*old(v)).len() + bits_of(*other).len() <= max_bits(),
    ensures
        bits_of(*final(v)) == bits_of(*old(v)) + bits_of(*other),
{
    v.inner.extend_from_bitslice(other.inner.as_bitslice())
}

/// `BitVec::resize` to a length that is not below the present one: appends
/// copies of one bit until the length is reached. It panics where the new
/// length is over the largest that a bit vector can have.
#[verifier::external_body]
fn bv_resize(v: &mut Bits, new_len: usize, bit: bool)
    requires
        bits_of(*old(v)).len() <= new_len <= max_bits(),
    ensures
        bits_of(*final(v)) == bits_of(*old(v)) + Seq::new(
            (new_len - bits_of(*old(v)).len()) as nat,
            |i: int| bit,
        ),
{
    v.inner.resize(new_len, bit)
}

/// `BitVec::from_slice`: the bits of a byte slice, eight for each byte, the
/// most significant bit of each byte first. It panics where the slice has
/// more bits than a bit vector can hold.
#[verifier::external_body]
fn bv_from_slice(bytes: &[u8]) -> (v: Bits)
    requires
        8 * bytes@.len() <= max_bits(),
    ensures
        bits_of(v) == bytes_to_bits(bytes@),
{
    Bits { inner: BitVec::from_slice(bytes) }
}

/// Slicing a `BitVec` by a range within its length and `to_bitvec`: a bit
/// vector of its own that holds the bits of that range.
#[verifier::external_body]
fn bv_range(v: &Bits, start: usize, end: usize) -> (part: Bits)
    requires
        start <= end <= bits_of(*v).len(),
    ensures
        bits_of(part) == bits_of(*v).subrange(start as int, end as int),
{
    Bits { inner: v.inner[start..end].to_bitvec() }
}

/// `==` on two `BitVec`s: whether they hold the same bits in the same order.
#[verifier::external_body]
fn bv_eq(a: &Bits, b: &Bits) -> (same: bool)
    ensures
        same == (bits_of(*a) == bits_of(*b)),
{
    a.inner == b.inner
}

impl Clone for Bits {
    fn clone(&self) -> (b: Bits)
        ensures
            b@ == self@,
    {
        self.copy()
    }
}

impl Bits {
    /// The largest number of bits that a bit string can hold.
    pub fn max_len() -> (n: usize)
        ensures
            n == max_bits(),
    {
        usize::MAX / 8
    }

    /// A bit string without bits.
    pub fn new() -> (b: Bits)
        ensures
            b@ == Seq::<bool>::empty(),
    {
        bv_new()
    }

    /// The number of bits.
    pub fn len(&self) -> (n: usize)
        ensures
            n == self@.len(),
            n <= max_bits(),
    {
        bv_len(self)
    }

    /// Whether there is no bit.
    pub fn is_empty(&self) -> (b: bool)
        ensures
            b == (self@.len() == 0),
    {
        bv_len(self) == 0
    }

    /// The bit at a position, if there is one.
    pub fn get(&self, i: usize) -> (bit: Option<bool>)
        ensures
            bit == (if i < self@.len() {
                Some(self@[i as int])
            } else {
                None
            }),
    {
        if i < bv_len(self) {
            Some(bv_get(self, i))
        } else {
            None
        }
    }

    /// The bits of a byte string, the most significant bit of each byte
    /// first; `None` where they are more than a bit string can hold.
    pub fn from_bytes(bytes: &[u8]) -> (b: Option<Bits>)
        ensures
            b is Some <==> 8 * bytes@.len() <= max_bits(),
            b matches Some(bits) ==> bits@ == bytes_to_bits(bytes@),
    {
        if bytes.len() <= Bits::max_len() / 8 {
            Some(bv_from_slice(bytes))
        } else {
            None
        }
    }

    /// The bits from `start` up to `end`, as a bit string of their own;
    /// `None` where these are no positions in the bit string.
    pub fn range(&self, start: usize, end: usize) -> (part: Option<Bits>)
        ensures
            part is Some <==> start <= end <= self@.len(),
            part matches Some(bits) ==> bits@ == self@.subrange(start as int, end as int),
    {
        if start <= end && end <= bv_len(self) {
            Some(bv_range(self, start, end))
        } else {
            None
        }
    }

    /// The bits from `start` up to `end`, which are positions in the bit
    /// string.
    pub(crate) fn part(&self, start: usize, end: usize) -> (part: Bits)
        requires
            start <= end <= self@.len(),
        ensures
            part@ == self@.subrange(start as int, end as int),
    {
        bv_range(self, start, end)
    }

    /// A copy of this bit string.
    pub fn copy(&self) -> (b: Bits)
        ensures
            b@ == self@,
    {
        let n = bv_len(self);
        let b = bv_range(self, 0, n);
        assert(self@.subrange(0, n as int) =~= self@);
        b
    }

    /// Whether two bit strings hold the same bits.
    pub fn same(&self, other: &Bits) -> (b: bool)
        ensures
            b == (self@ == other@),
    {
        bv_eq(self, other)
    }

    /// The bit string that holds the given bits; `None` where they are more
    /// than a bit string can hold.
    pub fn from_bools(bools: &[bool]) -> (b: Option<Bits>)
        ensures
            b is Some <==> bools@.len() <= max_bits(),
            b matches Some(bits) ==> bits@ == bools@,
    {
        let n = bools.len();
        if n > Bits::max_len() {
            return None;
        }
        let mut out = bv_new();
        let mut i: usize = 0;
        while i < n
            invariant
                i <= n,
                n == bools@.len(),
                n <= max_bits(),
                out@ == bools@.take(i as int),
            decreases n - i,
        {
            bv_push(&mut out, bools[i]);
            proof {
                assert(bools@.take(i as int).push(bools@[i as int]) =~= bools@.take(i + 1));
            }
            i = i + 1;
        }
        proof {
            assert(bools@.take(n as int) =~= bools@);
        }
        Some(out)
    }

    /// The bits, one by one.
    pub fn to_bools(&self) -> (v: Vec<bool>)
        ensures
            v@ == self@,
    {
        let n = bv_len(self);
        let mut out: Vec<bool> = Vec::new();
        let mut i: usize = 0;
        while i < n
            invariant
                i <= n,
                n == self@.len(),
                out@ == self@.take(i as int),
            decreases n - i,
        {
            out.push(bv_get(self, i));
            proof {
                assert(self@.take(i as int).push(self@[i as int]) =~= self@.take(i + 1));
            }
            i = i + 1;
        }
        proof {
            assert(self@.take(n as int) =~= self@);
        }
        out
    }

    /// Appends one bit, unless the bit string is full.
    pub fn push(&mut self, bit: bool) -> (done: bool)
        ensures
            done == (old(self)@.len() < max_bits()),
            done ==> final(self)@ == old(self)@.push(bit),
            !done ==> *final(self) == *old(self),
    {
        if bv_len(self) < Bits::max_len() {
            bv_push(self, bit);
            true
        } else {
            false
        }
    }

    /// Appends the bits of another bit string, unless they do not fit.
    pub fn extend(&mut self, other: &Bits) -> (done: bool)
        ensures
            done == (old(self)@.len() + other@.len() <= max_bits()),
            done ==> final(self)@ == old(self)@ + other@,
            !done ==> *final(self) == *old(self),
    {
        let n = bv_len(self);
        let m = bv_len(other);
        if n <= Bits::max_len() && m <= Bits::max_len() - n {
            bv_extend(self, other);
            true
        } else {
            false
        }
    }

    /// Appends `n` copies of one bit, unless they do not fit.
    pub fn extend_repeat(&mut self, n: usize, bit: bool) -> (done: bool)
        ensures
            done == (old(self)@.len() + n <= max_bits()),
            done ==> final(self)@ == old(self)@ + Seq::new(n as nat, |i: int| bit),
            !done ==> *final(self) == *old(self),
    {
        let len = bv_len(self);
        if len <= Bits::max_len() && n <= Bits::max_len() - len {
            bv_resize(self, len + n, bit);
            true
        } else {
            false
        }
    }
}

} // verus!
