//! The CRC-32C checksum (Castagnoli), bit by bit.

use vstd::prelude::*;

verus! {

/// The checksum register after one bit of input has been shifted out.
pub open spec fn crc_shift(state: u32) -> u32 {
    if state & 1 == 1 {
        (state >> 1) ^ 0x82F6_3B78u32
    } else {
        state >> 1
    }
}

/// The checksum register after eight shifts.
pub open spec fn crc_shift8(state: u32) -> u32 {
    crc_shift(crc_shift(crc_shift(crc_shift(crc_shift(crc_shift(crc_shift(crc_shift(state))))))))
}

/// The checksum register after one more byte of input.
pub open spec fn crc_feed(state: u32, byte: u8) -> u32 {
    crc_shift8(state ^ (byte as u32))
}

/// The checksum register after all bytes of the input.
pub open spec fn crc_register(bytes: Seq<u8>) -> u32
    decreases bytes.len(),
{
    if bytes.len() == 0 {
        0xFFFF_FFFFu32
    } else {
        crc_feed(crc_register(bytes.drop_last()), bytes.last())
    }
}

/// The CRC-32C checksum of a byte string.
pub open spec fn crc32c(bytes: Seq<u8>) -> u32 {
    crc_register(bytes) ^ 0xFFFF_FFFFu32
}

/// Shifting the register once.
fn shift(state: u32) -> (r: u32)
    ensures
        r == crc_shift(state),
{
    if state & 1 == 1 {
        (state >> 1) ^ 0x82F6_3B78u32
    } else {
        state >> 1
    }
}

/// Computes the CRC-32C checksum of a byte string.
pub fn checksum(bytes: &[u8]) -> (r: u32)
    ensures
        r == crc32c(bytes@),
{
    let mut state: u32 = 0xFFFF_FFFF;
    let n = bytes.len();
    let mut i: usize = 0;
    proof {
        assert(bytes@.take(0) =~= Seq::<u8>::empty());
    }
    while i < n
        invariant
            i <= n,
            n == bytes@.len(),
            state == crc_register(bytes@.take(i as int)),
        decreases n - i,
    {
        proof {
            assert(bytes@.take(i + 1).drop_last() =~= bytes@.take(i as int));
            assert(bytes@.take(i + 1).last() == bytes@[i as int]);
        }
        let mut s: u32 = state ^ (bytes[i] as u32);
        s = shift(s);
        s = shift(s);
        s = shift(s);
        s = shift(s);
        s = shift(s);
        s = shift(s);
        s = shift(s);
        s = shift(s);
        state = s;
        i = i + 1;
    }
    proof {
        assert(bytes@.take(n as int) =~= bytes@);
    }
    state ^ 0xFFFF_FFFF
}

/// Two registers that shift to the same register are the same.
pub proof fn lemma_shift_injective(a: u32, b: u32)
    requires
        crc_shift(a) == crc_shift(b),
    ensures
        a == b,
{
    assert(crc_shift(a) == crc_shift(b) ==> a == b) by (bit_vector)
        requires
            crc_shift(a) == (if a & 1 == 1 {
                (a >> 1) ^ 0x82F6_3B78u32
            } else {
                a >> 1
            }),
            crc_shift(b) == (if b & 1 == 1 {
                (b >> 1) ^ 0x82F6_3B78u32
            } else {
                b >> 1
            }),
    ;
}

/// Two registers that take the same byte to the same register are the
/// same, and so are two bytes that take one register to the same register.
pub proof fn lemma_feed_injective(a: u32, x: u8, b: u32, y: u8)
    requires
        crc_feed(a, x) == crc_feed(b, y),
    ensures
        a ^ (x as u32) == b ^ (y as u32),
        a == b ==> x == y,
        x == y ==> a == b,
{
    let a0 = a ^ (x as u32);
    let b0 = b ^ (y as u32);
    let a1 = crc_shift(a0);
    let b1 = crc_shift(b0);
    let a2 = crc_shift(a1);
    let b2 = crc_shift(b1);
    let a3 = crc_shift(a2);
    let b3 = crc_shift(b2);
    let a4 = crc_shift(a3);
    let b4 = crc_shift(b3);
    let a5 = crc_shift(a4);
    let b5 = crc_shift(b4);
    let a6 = crc_shift(a5);
    let b6 = crc_shift(b5);
    let a7 = crc_shift(a6);
    let b7 = crc_shift(b6);
    lemma_shift_injective(a7, b7);
    lemma_shift_injective(a6, b6);
    lemma_shift_injective(a5, b5);
    lemma_shift_injective(a4, b4);
    lemma_shift_injective(a3, b3);
    lemma_shift_injective(a2, b2);
    lemma_shift_injective(a1, b1);
    lemma_shift_injective(a0, b0);
    let xw = x as u32;
    let yw = y as u32;
    assert(a ^ xw == b ^ yw && a == b ==> xw == yw) by (bit_vector);
    assert(a ^ xw == b ^ yw && xw == yw ==> a == b) by (bit_vector);
}

/// Two byte strings of one length that end in different registers keep
/// different registers when the same bytes follow both.
pub proof fn lemma_register_diverges(a: Seq<u8>, b: Seq<u8>, k: int)
    requires
        a.len() == b.len(),
        0 <= k <= a.len(),
        crc_register(a.take(k)) != crc_register(b.take(k)),
        forall|j: int| k <= j < a.len() ==> a[j] == b[j],
    ensures
        crc_register(a) != crc_register(b),
    decreases a.len() - k,
{
    if k == a.len() {
        assert(a.take(k) =~= a);
        assert(b.take(k) =~= b);
    } else {
        assert(a.take(k + 1).drop_last() =~= a.take(k));
        assert(b.take(k + 1).drop_last() =~= b.take(k));
        if crc_register(a.take(k + 1)) == crc_register(b.take(k + 1)) {
            lemma_feed_injective(crc_register(a.take(k)), a[k], crc_register(b.take(k)), b[k]);
        }
        lemma_register_diverges(a, b, k + 1);
    }
}

/// The checksum tells apart two byte strings of one length that differ in
/// exactly one byte.
pub proof fn lemma_crc_detects_one_byte(a: Seq<u8>, b: Seq<u8>, at: int)
    requires
        a.len() == b.len(),
        0 <= at < a.len(),
        a[at] != b[at],
        forall|j: int| 0 <= j < a.len() && j != at ==> a[j] == b[j],
    ensures
        crc32c(a) != crc32c(b),
{
    assert(a.take(at) =~= b.take(at));
    assert(a.take(at + 1).drop_last() =~= a.take(at));
    assert(b.take(at + 1).drop_last() =~= b.take(at));
    if crc_register(a.take(at + 1)) == crc_register(b.take(at + 1)) {
        lemma_feed_injective(crc_register(a.take(at)), a[at], crc_register(b.take(at)), b[at]);
    }
    lemma_register_diverges(a, b, at + 1);
    let p = crc_register(a);
    let q = crc_register(b);
    assert(p != q ==> p ^ 0xFFFF_FFFFu32 != q ^ 0xFFFF_FFFFu32) by (bit_vector);
}

} // verus!
