//! Numbers and bit strings as bytes.

use crate::integer::{
    bits_uint, lemma_bits_uint_bound, lemma_bits_uint_of_uint_bits, lemma_uint_bits_of_bits_uint,
    uint_bits,
};
use crate::sequence::lemma_byte_digits;
use crate::storage::bytes_to_bits;
use crate::writer::repeated;
use vstd::arithmetic::power2::{lemma2_to64, lemma_pow2_adds, lemma_pow2_pos, pow2};
use vstd::prelude::*;

verus! {

/// The `n` lowest base-256 digits of a number, the highest first.
pub open spec fn be_bytes(value: nat, n: nat) -> Seq<u8>
    decreases n,
{
    if n == 0 {
        Seq::empty()
    } else {
        be_bytes(value / 256, (n - 1) as nat).push((value % 256) as u8)
    }
}

/// The number that base-256 digits stand for, the highest digit first.
pub open spec fn be_value(bytes: Seq<u8>) -> nat
    decreases bytes.len(),
{
    if bytes.len() == 0 {
        0
    } else {
        256 * be_value(bytes.drop_last()) + bytes.last() as nat
    }
}

/// The number of values that `n` bytes can tell apart.
pub open spec fn byte_range(n: nat) -> nat {
    pow2(8 * n)
}

/// One byte more tells apart 256 times as many values.
pub proof fn lemma_byte_range_step(n: nat)
    ensures
        byte_range(n + 1) == 256 * byte_range(n),
        byte_range(0) == 1,
        byte_range(n) > 0,
{
    lemma_pow2_adds(8 * n, 8);
    lemma2_to64();
    lemma_pow2_pos(8 * n);
    assert(8 * (n + 1) == 8 * n + 8);
    assert(pow2(8 * n) * 256 == 256 * pow2(8 * n)) by (nonlinear_arith);
}

/// A number written in `n` bytes takes `n` bytes.
pub proof fn lemma_be_bytes_len(value: nat, n: nat)
    ensures
        be_bytes(value, n).len() == n,
    decreases n,
{
    if n > 0 {
        lemma_be_bytes_len(value / 256, (n - 1) as nat);
    }
}

/// Bytes stand for a number within their range.
pub proof fn lemma_be_value_bound(bytes: Seq<u8>)
    ensures
        be_value(bytes) < byte_range(bytes.len()),
    decreases bytes.len(),
{
    if bytes.len() == 0 {
        lemma_byte_range_step(0);
    } else {
        lemma_be_value_bound(bytes.drop_last());
        lemma_byte_range_step((bytes.len() - 1) as nat);
    }
}

/// Reading back the bytes of a number that fits in them gives the number.
pub proof fn lemma_be_value_of_be_bytes(value: nat, n: nat)
    requires
        value < byte_range(n),
    ensures
        be_value(be_bytes(value, n)) == value,
    decreases n,
{
    if n == 0 {
        lemma_byte_range_step(0);
    } else {
        lemma_byte_range_step((n - 1) as nat);
        lemma_be_value_of_be_bytes(value / 256, (n - 1) as nat);
        let body = be_bytes(value / 256, (n - 1) as nat);
        assert(body.push((value % 256) as u8).drop_last() =~= body);
    }
}

/// The fewest bytes, at least one, in which a number can be written.
pub open spec fn bytes_needed(value: nat) -> nat
    decreases value,
{
    if value < 256 {
        1
    } else {
        1 + bytes_needed(value / 256)
    }
}

/// A number fits in the bytes that it needs, and in no fewer.
pub proof fn lemma_bytes_needed(value: nat)
    ensures
        value < byte_range(bytes_needed(value)),
        bytes_needed(value) >= 1,
        bytes_needed(value) > 1 ==> value >= byte_range((bytes_needed(value) - 1) as nat),
    decreases value,
{
    lemma_byte_range_step(0);
    if value < 256 {
        lemma_byte_range_step(0);
        assert(byte_range(1) == 256);
    } else {
        lemma_bytes_needed(value / 256);
        let m = bytes_needed(value / 256);
        lemma_byte_range_step(m);
        lemma_byte_range_step((m - 1) as nat);
    }
}

/// The fewest bytes, at least one, in which `value` can be written.
pub(crate) fn count_bytes(value: u64) -> (n: usize)
    ensures
        n == bytes_needed(value as nat),
        1 <= n <= 8,
{
    let mut n: usize = 1;
    let mut rest: u64 = value;
    proof {
        lemma2_to64();
        vstd::arithmetic::power2::lemma2_to64_rest();
    }
    while rest >= 256
        invariant
            1 <= n <= 8,
            bytes_needed(value as nat) == (n - 1) + bytes_needed(rest as nat),
            rest < pow2((8 * (9 - n)) as nat),
        decreases rest,
    {
        proof {
            lemma2_to64();
            vstd::arithmetic::power2::lemma2_to64_rest();
            lemma_pow2_adds((8 * (8 - n)) as nat, 8);
            assert(8 * (9 - n) == 8 * (8 - n) + 8);
            if n == 8 {
                assert(rest < 256);
            }
            let p = pow2((8 * (8 - n)) as nat);
            assert(rest / 256 < p) by (nonlinear_arith)
                requires
                    rest < p * 256,
            ;
        }
        rest = rest / 256;
        n = n + 1;
    }
    n
}

/// Appends the `n` lowest base-256 digits of a number, the highest first.
pub(crate) fn push_be(out: &mut Vec<u8>, value: u64, n: usize)
    requires
        n <= 8,
    ensures
        final(out)@ == old(out)@ + be_bytes(value as nat, n as nat),
{
    let ghost start = out@;
    let mut i: usize = 0;
    proof {
        lemma2_to64();
        assert(be_bytes(top_bytes(value as nat, n as nat), 0) =~= Seq::<u8>::empty());
        assert(start + Seq::<u8>::empty() =~= start);
    }
    while i < n
        invariant
            i <= n <= 8,
            out@ == start + be_bytes(top_bytes(value as nat, (n - i) as nat), i as nat),
        decreases n - i,
    {
        let shift: u64 = (8 * (n - 1 - i)) as u64;
        let byte = ((value >> shift) & 0xFF) as u8;
        proof {
            let k = (n - 1 - i) as nat;
            vstd::bits::lemma_u64_shr_is_div(value, shift);
            let top = value >> shift;
            assert(top & 0xFF == top % 256) by (bit_vector);
            lemma_pow2_pos(8 * k);
            lemma_pow2_adds(8 * k, 8);
            lemma2_to64();
            assert(8 * (k + 1) == 8 * k + 8);
            vstd::arithmetic::div_mod::lemma_div_denominator(
                value as int,
                pow2(8 * k) as int,
                256,
            );
            assert(top_bytes(value as nat, k) / 256 == top_bytes(value as nat, k + 1));
            assert(be_bytes(top_bytes(value as nat, k), (i + 1) as nat) == be_bytes(
                top_bytes(value as nat, k + 1),
                i as nat,
            ).push(byte));
            assert(start + be_bytes(top_bytes(value as nat, k), (i + 1) as nat) =~= out@.push(
                byte,
            ));
        }
        out.push(byte);
        i = i + 1;
    }
    proof {
        lemma2_to64();
        assert(pow2(8 * 0nat) == 1);
        assert(top_bytes(value as nat, 0) == value as nat);
    }
}

/// A number without its `k` lowest base-256 digits.
pub open spec fn top_bytes(value: nat, k: nat) -> nat {
    value / pow2(8 * k)
}

/// The number that the `n` bytes from `pos` on stand for, the highest byte
/// first.
pub(crate) fn read_be(bytes: &[u8], pos: usize, n: usize) -> (v: u64)
    requires
        n <= 8,
        pos + n <= bytes@.len(),
    ensures
        v == be_value(bytes@.subrange(pos as int, pos + n)),
{
    let ghost part = bytes@.subrange(pos as int, pos + n);
    let _ = bytes.len();
    let mut acc: u64 = 0;
    let mut i: usize = 0;
    while i < n
        invariant
            i <= n <= 8,
            pos + n <= bytes@.len() <= usize::MAX,
            part == bytes@.subrange(pos as int, pos + n),
            acc == be_value(part.take(i as int)),
        decreases n - i,
    {
        proof {
            lemma_be_value_bound(part.take(i as int));
            lemma_be_value_bound(part.take(i + 1));
            lemma2_to64();
            vstd::arithmetic::power2::lemma2_to64_rest();
            if i + 1 < 8 {
                vstd::arithmetic::power2::lemma_pow2_strictly_increases((8 * (i + 1)) as nat, 64);
            }
            assert(part.take(i + 1).drop_last() =~= part.take(i as int));
            assert(part.take(i + 1).last() == bytes@[pos + i]);
        }
        acc = acc * 256 + bytes[pos + i] as u64;
        i = i + 1;
    }
    proof {
        assert(part.take(n as int) =~= part);
    }
    acc
}

/// The bytes of a bit string whose length is a multiple of eight, each byte
/// from eight bits with the most significant first.
pub open spec fn bits_to_bytes(bits: Seq<bool>) -> Seq<u8> {
    Seq::new(bits.len() / 8, |i: int| bits_uint(bits.subrange(8 * i, 8 * i + 8)) as u8)
}

/// The bits of the bytes of a bit string are the bit string.
pub proof fn lemma_bits_of_bytes_of_bits(bits: Seq<bool>)
    requires
        bits.len() % 8 == 0,
    ensures
        bytes_to_bits(bits_to_bytes(bits)) == bits,
{
    let bytes = bits_to_bytes(bits);
    let back = bytes_to_bits(bytes);
    assert(back.len() == bits.len());
    assert forall|i: int| 0 <= i < bits.len() implies back[i] == bits[i] by {
        let k = i / 8;
        let chunk = bits.subrange(8 * k, 8 * k + 8);
        lemma_bits_uint_bound(chunk);
        lemma2_to64();
        lemma_uint_bits_of_bits_uint(chunk);
        lemma_byte_digits(bytes[k]);
        assert(uint_bits(bytes[k] as nat, 8)[i % 8] == chunk[i % 8]);
    }
    assert(back =~= bits);
}

/// The bytes of the bits of a byte string are the byte string.
pub proof fn lemma_bytes_of_bits_of_bytes(bytes: Seq<u8>)
    ensures
        bits_to_bytes(bytes_to_bits(bytes)) == bytes,
{
    let bits = bytes_to_bits(bytes);
    let back = bits_to_bytes(bits);
    assert(back.len() == bytes.len());
    assert forall|k: int| 0 <= k < bytes.len() implies back[k] == bytes[k] by {
        let chunk = bits.subrange(8 * k, 8 * k + 8);
        lemma_byte_digits(bytes[k]);
        assert(chunk =~= uint_bits(bytes[k] as nat, 8)) by {
            assert forall|j: int| 0 <= j < 8 implies chunk[j] == uint_bits(bytes[k] as nat, 8)[j] by {
                assert((8 * k + j) / 8 == k);
                assert((8 * k + j) % 8 == j);
            }
        }
        lemma2_to64();
        lemma_bits_uint_of_uint_bits(bytes[k] as nat, 8);
    }
    assert(back =~= bytes);
}

/// A bit string made up to whole bytes: where its length is no multiple of
/// eight, a 1 follows it, and after that as many 0 as it takes.
pub open spec fn padded(bits: Seq<bool>) -> Seq<bool> {
    if bits.len() % 8 == 0 {
        bits
    } else {
        bits.push(true) + repeated((7 - bits.len() % 8) as nat, false)
    }
}

/// A bit string without the last 1 and the 0s after it; `None` where it
/// holds no 1.
pub open spec fn unpadded(bits: Seq<bool>) -> Option<Seq<bool>>
    decreases bits.len(),
{
    if bits.len() == 0 {
        None
    } else if bits.last() {
        Some(bits.drop_last())
    } else {
        unpadded(bits.drop_last())
    }
}

/// Taking the padding off a bit string that ends in a 1 and some 0s.
pub proof fn lemma_unpadded_of_tail(bits: Seq<bool>, zeros: nat)
    ensures
        unpadded(bits.push(true) + repeated(zeros, false)) == Some(bits),
    decreases zeros,
{
    let whole = bits.push(true) + repeated(zeros, false);
    if zeros == 0 {
        assert(whole =~= bits.push(true));
        assert(whole.drop_last() =~= bits);
    } else {
        assert(whole.drop_last() =~= bits.push(true) + repeated((zeros - 1) as nat, false));
        lemma_unpadded_of_tail(bits, (zeros - 1) as nat);
    }
}

} // verus!
