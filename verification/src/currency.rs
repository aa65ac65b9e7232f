//! Amounts of currency.

use crate::bytes::{
    be_bytes, be_value, bits_to_bytes, byte_range, bytes_needed, lemma_be_bytes_len,
    lemma_be_value_bound, lemma_be_value_of_be_bytes, lemma_byte_range_step, lemma_bytes_needed,
    lemma_bytes_of_bits_of_bytes,
};
use crate::codec::BitCodecAs;
use crate::de_as::BitUnpackAs;
use crate::error::{Error, ErrorKind, Failure};
use crate::integer::{
    bits_uint, lemma_bits_uint_of_uint_bits, lemma_uint_bits_len, read_uint, uint_bits, write_uint,
};
use crate::reader::BitReader;
use crate::sequence::write_bytes;
use crate::ser_as::BitPackAs;
use crate::storage::bytes_to_bits;
use crate::writer::{BitWriter, lemma_prefix_chain};
use vstd::arithmetic::power2::{lemma2_to64, lemma2_to64_rest, lemma_pow2_adds, pow2};
use vstd::prelude::*;

verus! {

/// The strategy that writes an amount as a number of variable length: four
/// bits that give the number of bytes, from 0 to 15, and then the amount in
/// as many bytes, the highest first.
pub struct Grams;

/// The number of bytes in which an amount is written: none for zero.
pub open spec fn amount_len(value: nat) -> nat {
    if value == 0 {
        0
    } else {
        bytes_needed(value)
    }
}

/// The bytes of an amount.
pub open spec fn amount_bytes(value: nat) -> Seq<u8> {
    be_bytes(value, amount_len(value))
}

/// 2^128 is one more than the largest 128-bit number.
pub proof fn lemma_pow2_128()
    ensures
        pow2(128) == 0x1_0000_0000_0000_0000_0000_0000_0000_0000,
        pow2(120) == 0x1_00_0000_0000_0000_0000_0000_0000_0000,
{
    lemma2_to64();
    lemma2_to64_rest();
    lemma_pow2_adds(64, 64);
    lemma_pow2_adds(64, 56);
}

/// The bytes of an amount, the highest first, and none for zero.
pub(crate) fn amount_to_bytes(value: u128) -> (out: Vec<u8>)
    ensures
        out@ == amount_bytes(value as nat),
        out@.len() <= 16,
        value < byte_range(15) ==> out@.len() <= 15,
{
    let mut digits: Vec<u8> = Vec::new();
    let mut rest: u128 = value;
    proof {
        assert(be_bytes(value as nat, 0) =~= Seq::<u8>::empty());
        lemma_pow2_128();
        assert forall|k: nat| #![trigger be_bytes(value as nat, digits@.len() + k)]
            be_bytes(value as nat, digits@.len() + k) == be_bytes(rest as nat, k)
                + digits@.reverse() by {
            assert(digits@.reverse() =~= Seq::<u8>::empty());
            assert(be_bytes(rest as nat, k) + Seq::<u8>::empty() =~= be_bytes(rest as nat, k));
        }
    }
    while rest > 0
        invariant
            digits@.len() <= 16,
            rest < pow2((8 * (16 - digits@.len())) as nat),
            digits@.len() < 16 || rest == 0,
            amount_len(value as nat) == digits@.len() + amount_len(rest as nat),
            forall|k: nat| #![trigger be_bytes(value as nat, digits@.len() + k)]
                be_bytes(value as nat, digits@.len() + k) == be_bytes(rest as nat, k)
                    + digits@.reverse(),
        decreases rest,
    {
        let ghost before = digits@;
        let ghost old_rest = rest;
        proof {
            let n = digits@.len();
            lemma_pow2_128();
            lemma2_to64();
            lemma_pow2_adds((8 * (15 - n)) as nat, 8);
            assert(8 * (16 - n) == 8 * (15 - n) + 8);
            let p = pow2((8 * (15 - n)) as nat);
            assert(rest / 256 < p) by (nonlinear_arith)
                requires
                    rest < p * 256,
            ;
        }
        digits.push((rest % 256) as u8);
        rest = rest / 256;
        proof {
            assert forall|k: nat| #![trigger be_bytes(value as nat, digits@.len() + k)]
                be_bytes(value as nat, digits@.len() + k) == be_bytes(rest as nat, k)
                    + digits@.reverse() by {
                assert(be_bytes(value as nat, before.len() + (k + 1)) == be_bytes(
                    old_rest as nat,
                    k + 1,
                ) + before.reverse());
                assert(digits@.len() + k == before.len() + (k + 1));
                assert(be_bytes(old_rest as nat, k + 1) == be_bytes(rest as nat, k).push(
                    (old_rest % 256) as u8,
                ));
                assert(digits@.reverse() =~= seq![(old_rest % 256) as u8] + before.reverse());
                assert(be_bytes(rest as nat, k).push((old_rest % 256) as u8) + before.reverse()
                    =~= be_bytes(rest as nat, k) + digits@.reverse());
            }
            if old_rest >= 256 {
                assert(bytes_needed(old_rest as nat) == 1 + bytes_needed(rest as nat));
            }
        }
    }
    proof {
        lemma_pow2_128();
    }
    let n = digits.len();
    let mut out: Vec<u8> = Vec::new();
    let mut i: usize = 0;
    while i < n
        invariant
            i <= n,
            n == digits@.len(),
            out@.len() == i,
            forall|j: int| 0 <= j < i ==> out@[j] == digits@[n - 1 - j],
        decreases n - i,
    {
        out.push(digits[n - 1 - i]);
        i = i + 1;
    }
    proof {
        assert(out@ =~= digits@.reverse());
        assert(be_bytes(value as nat, digits@.len() + 0) == be_bytes(0, 0) + digits@.reverse());
        assert(be_bytes(0, 0) + digits@.reverse() =~= digits@.reverse());
        if value < byte_range(15) && n > 15 {
            lemma_bytes_needed(value as nat);
        }
    }
    out
}

/// The amount that bytes stand for, the highest byte first.
pub(crate) fn amount_from_bytes(bytes: &Vec<u8>) -> (v: u128)
    requires
        bytes@.len() <= 15,
    ensures
        v == be_value(bytes@),
{
    let mut acc: u128 = 0;
    let n = bytes.len();
    let mut i: usize = 0;
    while i < n
        invariant
            i <= n <= 15,
            n == bytes@.len(),
            acc == be_value(bytes@.take(i as int)),
        decreases n - i,
    {
        proof {
            lemma_be_value_bound(bytes@.take(i as int));
            lemma_pow2_128();
            if i < 14 {
                vstd::arithmetic::power2::lemma_pow2_strictly_increases(
                    (8 * i) as nat,
                    112,
                );
            }
            lemma_pow2_adds(112, 8);
            lemma2_to64();
            assert(bytes@.take(i + 1).drop_last() =~= bytes@.take(i as int));
            assert(bytes@.take(i + 1).last() == bytes@[i as int]);
        }
        acc = acc * 256 + bytes[i] as u128;
        i = i + 1;
    }
    proof {
        assert(bytes@.take(n as int) =~= bytes@);
    }
    acc
}

impl BitPackAs<u128> for Grams {
    open spec fn packable_as(v: u128) -> bool {
        v < byte_range(15)
    }

    open spec fn encoding_as(v: u128) -> Seq<bool> {
        uint_bits(amount_len(v as nat), 4) + bytes_to_bits(amount_bytes(v as nat))
    }

    fn pack_as<W: BitWriter>(source: &u128, writer: &mut W) -> (r: Result<(), Error>) {
        let ghost _own = (
            <Self as BitPackAs<u128>>::packable_as(source.deep_view()),
            <Self as BitPackAs<u128>>::encoding_as(source.deep_view()),
            <Self as BitPackAs<u128>>::failure_as(source.deep_view(), writer.room()),
        );
        let ghost start = writer.written();
        let bytes = amount_to_bytes(*source);
        if bytes.len() > 15 {
            return Err(Error::new(ErrorKind::Custom));
        }
        proof {
            lemma_uint_bits_len(bytes@.len(), 4);
            lemma_be_bytes_len(*source as nat, amount_len(*source as nat));
            lemma_byte_range_step(0);
            if *source > 0 {
                lemma_bytes_needed(*source as nat);
                lemma_pow2_128();
                if bytes@.len() < 15 {
                    vstd::arithmetic::power2::lemma_pow2_strictly_increases(
                        (8 * bytes@.len()) as nat,
                        120,
                    );
                }
            } else {
                lemma_pow2_128();
            }
        }
        match write_uint(writer, bytes.len() as u64, 4) {
            Ok(()) => {},
            Err(e) => {
                return Err(e);
            },
        }
        let ghost mid = writer.written();
        match write_bytes(writer, bytes.as_slice()) {
            Ok(()) => {},
            Err(e) => {
                proof {
                    lemma_prefix_chain(start, mid, writer.written());
                }
                return Err(e);
            },
        }
        proof {
            let head = uint_bits(bytes@.len(), 4);
            let tail = bytes_to_bits(bytes@);
            assert(start + head + tail =~= start + (head + tail));
        }
        Ok(())
    }
}

impl BitUnpackAs<u128> for Grams {
    open spec fn decode_as(bits: Seq<bool>) -> Result<(u128, nat), Failure> {
        if bits.len() < 4 {
            Err(Failure::of(ErrorKind::Exhaustion))
        } else {
            let len = bits_uint(bits.take(4));
            if bits.len() < 4 + 8 * len {
                Err(Failure::of(ErrorKind::Exhaustion))
            } else {
                Ok(
                    (
                        be_value(bits_to_bytes(bits.subrange(4, 4 + 8 * len as int))) as u128,
                        4 + 8 * len,
                    ),
                )
            }
        }
    }

    proof fn lemma_decode_as_within(bits: Seq<bool>) {
        let _own = <Self as BitUnpackAs<u128>>::decode_as(bits);
    }

    fn unpack_as<R: BitReader>(reader: &mut R) -> (r: Result<u128, Error>) {
        let ghost _own = <Self as BitUnpackAs<u128>>::decode_as(reader.remaining());
        let ghost all = reader.remaining();
        let len = match read_uint(reader, 4) {
            Ok(v) => v as usize,
            Err(e) => {
                return Err(e);
            },
        };
        proof {
            crate::integer::lemma_bits_uint_bound(all.take(4));
            lemma2_to64();
        }
        if reader.bits_left() / 8 < len {
            return Err(Error::new(ErrorKind::Exhaustion));
        }
        let ghost body = all.subrange(4, 4 + 8 * len as int);
        let mut bytes: Vec<u8> = Vec::new();
        let mut i: usize = 0;
        while i < len
            invariant
                i <= len <= 15,
                reader.wf(),
                4 + 8 * len <= all.len(),
                body == all.subrange(4, 4 + 8 * len as int),
                reader.remaining() == all.skip(4 + 8 * i as int),
                bytes@.len() == i,
                forall|j: int| 0 <= j < i ==> bytes@[j] == #[trigger] bits_to_bytes(body)[j],
            decreases len - i,
        {
            let r = read_uint(reader, 8);
            proof {
                let chunk = all.skip(4 + 8 * i as int).take(8);
                assert(chunk =~= body.subrange(8 * i as int, 8 * i as int + 8));
                crate::integer::lemma_bits_uint_bound(chunk);
                lemma2_to64();
                assert(all.skip(4 + 8 * i as int).skip(8) =~= all.skip(4 + 8 * (i + 1) as int));
            }
            let v = match r {
                Ok(v) => v,
                Err(e) => {
                    return Err(e);
                },
            };
            bytes.push(v as u8);
            i = i + 1;
        }
        proof {
            assert(bytes@ =~= bits_to_bytes(body));
            lemma_be_value_bound(bytes@);
            lemma_pow2_128();
            if len < 15 {
                vstd::arithmetic::power2::lemma_pow2_strictly_increases((8 * len) as nat, 120);
            }
        }
        Ok(amount_from_bytes(&bytes))
    }
}

impl BitCodecAs<u128> for Grams {
    proof fn lemma_round_trip_as(v: u128, rest: Seq<bool>) {
        let _own = (
            <Self as BitPackAs<u128>>::packable_as(v),
            <Self as BitPackAs<u128>>::encoding_as(v),
            <Self as BitUnpackAs<u128>>::decode_as(rest),
        );
        let len = amount_len(v as nat);
        let bytes = amount_bytes(v as nat);
        lemma_be_bytes_len(v as nat, len);
        lemma_byte_range_step(0);
        if v > 0 {
            lemma_bytes_needed(v as nat);
            if len > 15 {
                lemma_byte_range_step((len - 1) as nat);
                lemma_pow2_128();
                if 8 * (len - 1) > 120 {
                    vstd::arithmetic::power2::lemma_pow2_strictly_increases(
                        120,
                        (8 * (len - 1)) as nat,
                    );
                }
            }
        }
        lemma_be_value_of_be_bytes(v as nat, len);
        let head = uint_bits(len, 4);
        let body = bytes_to_bits(bytes);
        let bits = head + body + rest;
        lemma_uint_bits_len(len, 4);
        lemma2_to64();
        lemma_bits_uint_of_uint_bits(len, 4);
        assert(bits.take(4) =~= head);
        assert(bits.subrange(4, 4 + 8 * len as int) =~= body);
        lemma_bytes_of_bits_of_bytes(bytes);
        lemma_pow2_128();
    }
}

/// An amount of the main currency; other currencies are not held.
#[derive(Debug, Clone, Copy, PartialEq, Eq)]
pub struct CurrencyCollection {
    pub grams: u128,
}

impl DeepView for CurrencyCollection {
    type V = CurrencyCollection;

    open spec fn deep_view(&self) -> CurrencyCollection {
        *self
    }
}

impl CurrencyCollection {
    /// No currency at all.
    pub fn zero() -> (c: CurrencyCollection)
        ensures
            c.grams == 0,
    {
        CurrencyCollection { grams: 0 }
    }
}

} // verus!
