//! Unsigned integers as bits, the most significant bit first.

use crate::codec::{BitCodec, BitCodecAs};
use crate::de::BitUnpack;
use crate::de_as::BitUnpackAs;
use crate::error::{Error, ErrorKind, Failure, reports};
use crate::reader::BitReader;
use crate::ser::BitPack;
use crate::ser_as::BitPackAs;
use crate::writer::{BitWriter, lemma_prefix_chain, pack_outcome};
use vstd::arithmetic::div_mod::lemma_div_denominator;
use vstd::arithmetic::power2::{lemma2_to64, lemma_pow2_pos, lemma_pow2_unfold, pow2};
use vstd::bits::lemma_u64_shr_is_div;
use vstd::prelude::*;

verus! {

/// The `width` lowest binary digits of a number, the highest of them first.
pub open spec fn uint_bits(value: nat, width: nat) -> Seq<bool>
    decreases width,
{
    if width == 0 {
        Seq::empty()
    } else {
        uint_bits(value / 2, (width - 1) as nat).push(value % 2 == 1)
    }
}

/// The number that binary digits stand for, the highest digit first.
pub open spec fn bits_uint(bits: Seq<bool>) -> nat
    decreases bits.len(),
{
    if bits.len() == 0 {
        0
    } else {
        2 * bits_uint(bits.drop_last()) + if bits.last() {
            1nat
        } else {
            0nat
        }
    }
}

/// A number written in `width` digits takes `width` bits.
pub proof fn lemma_uint_bits_len(value: nat, width: nat)
    ensures
        uint_bits(value, width).len() == width,
    decreases width,
{
    if width > 0 {
        lemma_uint_bits_len(value / 2, (width - 1) as nat);
    }
}

/// Binary digits stand for a number below two to the power of their count.
pub proof fn lemma_bits_uint_bound(bits: Seq<bool>)
    ensures
        bits_uint(bits) < pow2(bits.len()),
    decreases bits.len(),
{
    if bits.len() == 0 {
        lemma2_to64();
    } else {
        lemma_bits_uint_bound(bits.drop_last());
        lemma_pow2_unfold(bits.len());
    }
}

/// Reading back the digits of a number that fits in them gives the number.
pub proof fn lemma_bits_uint_of_uint_bits(value: nat, width: nat)
    requires
        value < pow2(width),
    ensures
        bits_uint(uint_bits(value, width)) == value,
    decreases width,
{
    if width == 0 {
        lemma2_to64();
    } else {
        lemma_pow2_unfold(width);
        lemma_bits_uint_of_uint_bits(value / 2, (width - 1) as nat);
        let body = uint_bits(value / 2, (width - 1) as nat);
        assert(body.push(value % 2 == 1).drop_last() =~= body);
    }
}

/// Writing the number that digits stand for gives the digits back.
pub proof fn lemma_uint_bits_of_bits_uint(bits: Seq<bool>)
    ensures
        uint_bits(bits_uint(bits), bits.len()) == bits,
    decreases bits.len(),
{
    if bits.len() > 0 {
        lemma_uint_bits_of_bits_uint(bits.drop_last());
        let high = bits_uint(bits.drop_last());
        assert(bits_uint(bits) / 2 == high);
        assert((bits_uint(bits) % 2 == 1) == bits.last());
        assert(bits.drop_last().push(bits.last()) =~= bits);
    } else {
        assert(uint_bits(bits_uint(bits), 0) =~= bits);
    }
}

/// A number without its `k` lowest binary digits.
pub open spec fn high_part(value: nat, k: nat) -> nat {
    value / pow2(k)
}

/// Whether a number can be written in `width` binary digits.
pub open spec fn fits(value: nat, width: nat) -> bool {
    value < pow2(width)
}

/// Whether `value` can be written in `width` binary digits.
pub fn fits_in(value: u64, width: usize) -> (b: bool)
    ensures
        b == fits(value as nat, width as nat),
{
    proof {
        lemma2_to64();
    }
    if width >= 64 {
        proof {
            if width > 64 {
                vstd::arithmetic::power2::lemma_pow2_strictly_increases(64, width as nat);
            }
        }
        true
    } else {
        proof {
            lemma_u64_shr_is_div(value, width as u64);
            lemma_pow2_pos(width as nat);
            let p = pow2(width as nat) as int;
            let v = value as int;
            assert((v / p == 0) == (v < p)) by (nonlinear_arith)
                requires
                    p > 0,
                    v >= 0,
            ;
        }
        (value >> (width as u64)) == 0
    }
}

/// Writes the `width` lowest binary digits of `value`, the highest first.
pub fn write_uint<W: BitWriter>(writer: &mut W, value: u64, width: usize) -> (r: Result<(), Error>)
    requires
        old(writer).wf(),
        width <= 64,
    ensures
        final(writer).wf(),
        final(writer).plain() == old(writer).plain(),
        r is Ok <==> width <= old(writer).room(),
        r is Ok ==> final(writer).written() == old(writer).written() + uint_bits(
            value as nat,
            width as nat,
        ),
        r is Ok ==> final(writer).room() == old(writer).room() - width,
        r matches Err(e) ==> reports(e, old(writer).plain(), Failure::of(ErrorKind::Capacity)),
        r is Err ==> old(writer).written().is_prefix_of(final(writer).written()),
{
    let ghost start = writer.written();
    let mut i: usize = 0;
    proof {
        assert(uint_bits(high_part(value as nat, width as nat), 0) == Seq::<bool>::empty());
        assert(start + Seq::<bool>::empty() =~= start);
    }
    while i < width
        invariant
            i <= width <= 64,
            writer.wf(),
            writer.plain() == old(writer).plain(),
            writer.written() == start + uint_bits(
                high_part(value as nat, (width - i) as nat),
                i as nat,
            ),
            writer.room() == old(writer).room() - i,
            old(writer).room() >= i,
            start == old(writer).written(),
        decreases width - i,
    {
        let shift: u64 = (width - 1 - i) as u64;
        let bit = (value >> shift) & 1 == 1;
        let ghost before = writer.written();
        proof {
            let k = (width - 1 - i) as nat;
            lemma_u64_shr_is_div(value, shift);
            let top = value >> shift;
            assert((top & 1 == 1) == (top % 2 == 1)) by (bit_vector);
            lemma_pow2_pos(k);
            lemma_pow2_unfold(k + 1);
            lemma_div_denominator(value as int, pow2(k) as int, 2);
            assert(high_part(value as nat, k) / 2 == high_part(value as nat, k + 1));
            assert(uint_bits(high_part(value as nat, k), (i + 1) as nat) == uint_bits(
                high_part(value as nat, k + 1),
                i as nat,
            ).push(bit));
            assert(start + uint_bits(high_part(value as nat, k), (i + 1) as nat) =~= before.push(
                bit,
            ));
        }
        match writer.write_bit(bit) {
            Ok(()) => {},
            Err(e) => {
                proof {
                    lemma_prefix_chain(start, before, writer.written());
                }
                return Err(e);
            },
        }
        i = i + 1;
    }
    proof {
        lemma2_to64();
        assert(high_part(value as nat, 0) == value as nat);
    }
    Ok(())
}

/// Reads `width` binary digits, the highest first, as a number.
pub fn read_uint<R: BitReader>(reader: &mut R, width: usize) -> (r: Result<u64, Error>)
    requires
        old(reader).wf(),
        width <= 64,
    ensures
        final(reader).wf(),
        r is Ok <==> width <= old(reader).remaining().len(),
        r matches Ok(v) ==> v == bits_uint(old(reader).remaining().take(width as int))
            && final(reader).remaining() == old(reader).remaining().skip(width as int),
        r matches Err(e) ==> e@ == Failure::of(ErrorKind::Exhaustion),
{
    let ghost all = reader.remaining();
    let mut acc: u64 = 0;
    let mut i: usize = 0;
    proof {
        assert(all.skip(0) =~= all);
    }
    while i < width
        invariant
            i <= width <= 64,
            reader.wf(),
            all == old(reader).remaining(),
            i <= all.len(),
            acc == bits_uint(all.take(i as int)),
            reader.remaining() == all.skip(i as int),
        decreases width - i,
    {
        let bit = reader.read_bit()?;
        proof {
            lemma_bits_uint_bound(all.take(i as int));
            lemma_bits_uint_bound(all.take(i + 1));
            lemma2_to64();
            if i + 1 < 64 {
                vstd::arithmetic::power2::lemma_pow2_strictly_increases((i + 1) as nat, 64);
            }
            assert(all.take(i + 1).drop_last() =~= all.take(i as int));
            assert(all.take(i + 1).last() == all[i as int]);
            assert(all.skip(i as int)[0] == all[i as int]);
            assert(all.skip(i as int).skip(1) =~= all.skip(i + 1));
        }
        acc = acc * 2 + if bit {
            1
        } else {
            0
        };
        i = i + 1;
    }
    Ok(acc)
}

/// An unsigned integer of 8 bits: its 8 binary digits, the highest first.
impl BitPack for u8 {
    open spec fn packable(v: u8) -> bool {
        true
    }

    open spec fn encoding(v: u8) -> Seq<bool> {
        uint_bits(v as nat, 8)
    }

    fn pack<W: BitWriter>(&self, writer: &mut W) -> (r: Result<(), Error>) {
        let ghost _own = (
            Self::packable(self.deep_view()),
            Self::encoding(self.deep_view()),
            Self::failure(self.deep_view(), writer.room()),
        );
        proof {
            lemma_uint_bits_len(*self as nat, 8);
        }
        write_uint(writer, *self as u64, 8)
    }
}

impl BitUnpack for u8 {
    open spec fn decode(bits: Seq<bool>) -> Result<(u8, nat), Failure> {
        if bits.len() < 8 {
            Err(Failure::of(ErrorKind::Exhaustion))
        } else {
            Ok((bits_uint(bits.take(8)) as u8, 8))
        }
    }

    proof fn lemma_decode_within(bits: Seq<bool>) {
        let _own = Self::decode(bits);
    }

    fn unpack<R: BitReader>(reader: &mut R) -> (r: Result<Self, Error>) {
        let ghost _own = Self::decode(reader.remaining());
        let ghost all = reader.remaining();
        let v = read_uint(reader, 8)?;
        proof {
            lemma_bits_uint_bound(all.take(8));
            lemma2_to64();
        }
        Ok(v as u8)
    }
}

impl BitCodec for u8 {
    proof fn lemma_round_trip(v: u8, rest: Seq<bool>) {
        let _own = (Self::packable(v), Self::encoding(v), Self::decode(rest));
        let bits = uint_bits(v as nat, 8);
        lemma_uint_bits_len(v as nat, 8);
        assert((bits + rest).take(8) =~= bits);
        lemma2_to64();
        lemma_bits_uint_of_uint_bits(v as nat, 8);
    }
}

/// An unsigned integer of 16 bits: its 16 binary digits, the highest first.
impl BitPack for u16 {
    open spec fn packable(v: u16) -> bool {
        true
    }

    open spec fn encoding(v: u16) -> Seq<bool> {
        uint_bits(v as nat, 16)
    }

    fn pack<W: BitWriter>(&self, writer: &mut W) -> (r: Result<(), Error>) {
        let ghost _own = (
            Self::packable(self.deep_view()),
            Self::encoding(self.deep_view()),
            Self::failure(self.deep_view(), writer.room()),
        );
        proof {
            lemma_uint_bits_len(*self as nat, 16);
        }
        write_uint(writer, *self as u64, 16)
    }
}

impl BitUnpack for u16 {
    open spec fn decode(bits: Seq<bool>) -> Result<(u16, nat), Failure> {
        if bits.len() < 16 {
            Err(Failure::of(ErrorKind::Exhaustion))
        } else {
            Ok((bits_uint(bits.take(16)) as u16, 16))
        }
    }

    proof fn lemma_decode_within(bits: Seq<bool>) {
        let _own = Self::decode(bits);
    }

    fn unpack<R: BitReader>(reader: &mut R) -> (r: Result<Self, Error>) {
        let ghost _own = Self::decode(reader.remaining());
        let ghost all = reader.remaining();
        let v = read_uint(reader, 16)?;
        proof {
            lemma_bits_uint_bound(all.take(16));
            lemma2_to64();
        }
        Ok(v as u16)
    }
}

impl BitCodec for u16 {
    proof fn lemma_round_trip(v: u16, rest: Seq<bool>) {
        let _own = (Self::packable(v), Self::encoding(v), Self::decode(rest));
        let bits = uint_bits(v as nat, 16);
        lemma_uint_bits_len(v as nat, 16);
        assert((bits + rest).take(16) =~= bits);
        lemma2_to64();
        lemma_bits_uint_of_uint_bits(v as nat, 16);
    }
}

/// An unsigned integer of 32 bits: its 32 binary digits, the highest first.
impl BitPack for u32 {
    open spec fn packable(v: u32) -> bool {
        true
    }

    open spec fn encoding(v: u32) -> Seq<bool> {
        uint_bits(v as nat, 32)
    }

    fn pack<W: BitWriter>(&self, writer: &mut W) -> (r: Result<(), Error>) {
        let ghost _own = (
            Self::packable(self.deep_view()),
            Self::encoding(self.deep_view()),
            Self::failure(self.deep_view(), writer.room()),
        );
        proof {
            lemma_uint_bits_len(*self as nat, 32);
        }
        write_uint(writer, *self as u64, 32)
    }
}

impl BitUnpack for u32 {
    open spec fn decode(bits: Seq<bool>) -> Result<(u32, nat), Failure> {
        if bits.len() < 32 {
            Err(Failure::of(ErrorKind::Exhaustion))
        } else {
            Ok((bits_uint(bits.take(32)) as u32, 32))
        }
    }

    proof fn lemma_decode_within(bits: Seq<bool>) {
        let _own = Self::decode(bits);
    }

    fn unpack<R: BitReader>(reader: &mut R) -> (r: Result<Self, Error>) {
        let ghost _own = Self::decode(reader.remaining());
        let ghost all = reader.remaining();
        let v = read_uint(reader, 32)?;
        proof {
            lemma_bits_uint_bound(all.take(32));
            lemma2_to64();
        }
        Ok(v as u32)
    }
}

impl BitCodec for u32 {
    proof fn lemma_round_trip(v: u32, rest: Seq<bool>) {
        let _own = (Self::packable(v), Self::encoding(v), Self::decode(rest));
        let bits = uint_bits(v as nat, 32);
        lemma_uint_bits_len(v as nat, 32);
        assert((bits + rest).take(32) =~= bits);
        lemma2_to64();
        lemma_bits_uint_of_uint_bits(v as nat, 32);
    }
}

/// An unsigned integer of 64 bits: its 64 binary digits, the highest first.
impl BitPack for u64 {
    open spec fn packable(v: u64) -> bool {
        true
    }

    open spec fn encoding(v: u64) -> Seq<bool> {
        uint_bits(v as nat, 64)
    }

    fn pack<W: BitWriter>(&self, writer: &mut W) -> (r: Result<(), Error>) {
        let ghost _own = (
            Self::packable(self.deep_view()),
            Self::encoding(self.deep_view()),
            Self::failure(self.deep_view(), writer.room()),
        );
        proof {
            lemma_uint_bits_len(*self as nat, 64);
        }
        write_uint(writer, *self as u64, 64)
    }
}

impl BitUnpack for u64 {
    open spec fn decode(bits: Seq<bool>) -> Result<(u64, nat), Failure> {
        if bits.len() < 64 {
            Err(Failure::of(ErrorKind::Exhaustion))
        } else {
            Ok((bits_uint(bits.take(64)) as u64, 64))
        }
    }

    proof fn lemma_decode_within(bits: Seq<bool>) {
        let _own = Self::decode(bits);
    }

    fn unpack<R: BitReader>(reader: &mut R) -> (r: Result<Self, Error>) {
        let ghost _own = Self::decode(reader.remaining());
        let ghost all = reader.remaining();
        let v = read_uint(reader, 64)?;
        proof {
            lemma_bits_uint_bound(all.take(64));
            lemma2_to64();
        }
        Ok(v as u64)
    }
}

impl BitCodec for u64 {
    proof fn lemma_round_trip(v: u64, rest: Seq<bool>) {
        let _own = (Self::packable(v), Self::encoding(v), Self::decode(rest));
        let bits = uint_bits(v as nat, 64);
        lemma_uint_bits_len(v as nat, 64);
        assert((bits + rest).take(64) =~= bits);
        lemma2_to64();
        lemma_bits_uint_of_uint_bits(v as nat, 64);
    }
}

/// The strategy that writes an unsigned integer in `BITS` binary digits, the
/// highest first. `BITS` is at most 64, and the integer has to fit.
pub struct NBits<const BITS: usize>;

/// What `width` binary digits at the front of a bit string stand for, as a
/// number that is at most `max`.
pub open spec fn decode_uint(bits: Seq<bool>, width: nat, max: nat) -> Result<(nat, nat), Failure> {
    if width > 64 {
        Err(Failure::of(ErrorKind::Custom))
    } else if bits.len() < width {
        Err(Failure::of(ErrorKind::Exhaustion))
    } else if bits_uint(bits.take(width as int)) > max {
        Err(Failure::of(ErrorKind::Custom))
    } else {
        Ok((bits_uint(bits.take(width as int)), width))
    }
}

/// Writes a number in `width` binary digits, if it fits in as many and
/// `width` is at most 64.
pub fn write_uint_checked<W: BitWriter>(writer: &mut W, value: u64, width: usize) -> (r: Result<
    (),
    Error,
>)
    requires
        old(writer).wf(),
    ensures
        pack_outcome(
            *old(writer),
            *final(writer),
            r,
            width <= 64 && fits(value as nat, width as nat),
            uint_bits(value as nat, width as nat),
        ),
        r matches Err(e) ==> reports(
            e,
            old(writer).plain(),
            if width <= 64 && fits(value as nat, width as nat) {
                Failure::of(ErrorKind::Capacity)
            } else {
                Failure::of(ErrorKind::Custom)
            },
        ),
{
    if width > 64 || !fits_in(value, width) {
        return Err(Error::new(ErrorKind::Custom));
    }
    proof {
        lemma_uint_bits_len(value as nat, width as nat);
    }
    write_uint(writer, value, width)
}

/// Reads a number of `width` binary digits that is at most `max`.
pub fn read_uint_checked<R: BitReader>(reader: &mut R, width: usize, max: u64) -> (r: Result<
    u64,
    Error,
>)
    requires
        old(reader).wf(),
    ensures
        final(reader).wf(),
        match decode_uint(old(reader).remaining(), width as nat, max as nat) {
            Ok((v, n)) => r matches Ok(x) && x == v && n <= old(reader).remaining().len() && final(reader).remaining() == old(reader).remaining().skip(n as int),
            Err(k) => r matches Err(e) && e@ == k,
        },
{
    if width > 64 {
        return Err(Error::new(ErrorKind::Custom));
    }
    let v = read_uint(reader, width)?;
    if v > max {
        return Err(Error::new(ErrorKind::Custom));
    }
    Ok(v)
}

/// Reading back a number that fits in its digits and is at most `max`.
pub proof fn lemma_decode_uint_round_trip(value: nat, width: nat, max: nat, rest: Seq<bool>)
    requires
        width <= 64,
        fits(value, width),
        value <= max,
    ensures
        decode_uint(uint_bits(value, width) + rest, width, max) == Ok::<(nat, nat), Failure>(
            (value, width),
        ),
{
    let bits = uint_bits(value, width);
    lemma_uint_bits_len(value, width);
    assert((bits + rest).take(width as int) =~= bits);
    lemma_bits_uint_of_uint_bits(value, width);
}

impl<const BITS: usize> BitPackAs<u8> for NBits<BITS> {
    open spec fn packable_as(v: u8) -> bool {
        BITS <= 64 && fits(v as nat, BITS as nat)
    }

    open spec fn encoding_as(v: u8) -> Seq<bool> {
        uint_bits(v as nat, BITS as nat)
    }

    fn pack_as<W: BitWriter>(source: &u8, writer: &mut W) -> (r: Result<(), Error>) {
        let ghost _own = (
            <Self as BitPackAs<u8>>::packable_as(source.deep_view()),
            <Self as BitPackAs<u8>>::encoding_as(source.deep_view()),
            <Self as BitPackAs<u8>>::failure_as(source.deep_view(), writer.room()),
        );
        write_uint_checked(writer, *source as u64, BITS)
    }
}

impl<const BITS: usize> BitUnpackAs<u8> for NBits<BITS> {
    open spec fn decode_as(bits: Seq<bool>) -> Result<(u8, nat), Failure> {
        match decode_uint(bits, BITS as nat, u8::MAX as nat) {
            Ok((v, n)) => Ok((v as u8, n)),
            Err(k) => Err(k),
        }
    }

    proof fn lemma_decode_as_within(bits: Seq<bool>) {
        let _own = <Self as BitUnpackAs<u8>>::decode_as(bits);
    }

    fn unpack_as<R: BitReader>(reader: &mut R) -> (r: Result<u8, Error>) {
        let ghost _own = <Self as BitUnpackAs<u8>>::decode_as(reader.remaining());
        let v = read_uint_checked(reader, BITS, u8::MAX as u64)?;
        Ok(v as u8)
    }
}

impl<const BITS: usize> BitCodecAs<u8> for NBits<BITS> {
    proof fn lemma_round_trip_as(v: u8, rest: Seq<bool>) {
        let _own = (
            <Self as BitPackAs<u8>>::packable_as(v),
            <Self as BitPackAs<u8>>::encoding_as(v),
            <Self as BitUnpackAs<u8>>::decode_as(rest),
        );
        lemma_decode_uint_round_trip(v as nat, BITS as nat, u8::MAX as nat, rest);
        lemma_uint_bits_len(v as nat, BITS as nat);
    }
}

impl<const BITS: usize> BitPackAs<u16> for NBits<BITS> {
    open spec fn packable_as(v: u16) -> bool {
        BITS <= 64 && fits(v as nat, BITS as nat)
    }

    open spec fn encoding_as(v: u16) -> Seq<bool> {
        uint_bits(v as nat, BITS as nat)
    }

    fn pack_as<W: BitWriter>(source: &u16, writer: &mut W) -> (r: Result<(), Error>) {
        let ghost _own = (
            <Self as BitPackAs<u16>>::packable_as(source.deep_view()),
            <Self as BitPackAs<u16>>::encoding_as(source.deep_view()),
            <Self as BitPackAs<u16>>::failure_as(source.deep_view(), writer.room()),
        );
        write_uint_checked(writer, *source as u64, BITS)
    }
}

impl<const BITS: usize> BitUnpackAs<u16> for NBits<BITS> {
    open spec fn decode_as(bits: Seq<bool>) -> Result<(u16, nat), Failure> {
        match decode_uint(bits, BITS as nat, u16::MAX as nat) {
            Ok((v, n)) => Ok((v as u16, n)),
            Err(k) => Err(k),
        }
    }

    proof fn lemma_decode_as_within(bits: Seq<bool>) {
        let _own = <Self as BitUnpackAs<u16>>::decode_as(bits);
    }

    fn unpack_as<R: BitReader>(reader: &mut R) -> (r: Result<u16, Error>) {
        let ghost _own = <Self as BitUnpackAs<u16>>::decode_as(reader.remaining());
        let v = read_uint_checked(reader, BITS, u16::MAX as u64)?;
        Ok(v as u16)
    }
}

impl<const BITS: usize> BitCodecAs<u16> for NBits<BITS> {
    proof fn lemma_round_trip_as(v: u16, rest: Seq<bool>) {
        let _own = (
            <Self as BitPackAs<u16>>::packable_as(v),
            <Self as BitPackAs<u16>>::encoding_as(v),
            <Self as BitUnpackAs<u16>>::decode_as(rest),
        );
        lemma_decode_uint_round_trip(v as nat, BITS as nat, u16::MAX as nat, rest);
        lemma_uint_bits_len(v as nat, BITS as nat);
    }
}

impl<const BITS: usize> BitPackAs<u32> for NBits<BITS> {
    open spec fn packable_as(v: u32) -> bool {
        BITS <= 64 && fits(v as nat, BITS as nat)
    }

    open spec fn encoding_as(v: u32) -> Seq<bool> {
        uint_bits(v as nat, BITS as nat)
    }

    fn pack_as<W: BitWriter>(source: &u32, writer: &mut W) -> (r: Result<(), Error>) {
        let ghost _own = (
            <Self as BitPackAs<u32>>::packable_as(source.deep_view()),
            <Self as BitPackAs<u32>>::encoding_as(source.deep_view()),
            <Self as BitPackAs<u32>>::failure_as(source.deep_view(), writer.room()),
        );
        write_uint_checked(writer, *source as u64, BITS)
    }
}

impl<const BITS: usize> BitUnpackAs<u32> for NBits<BITS> {
    open spec fn decode_as(bits: Seq<bool>) -> Result<(u32, nat), Failure> {
        match decode_uint(bits, BITS as nat, u32::MAX as nat) {
            Ok((v, n)) => Ok((v as u32, n)),
            Err(k) => Err(k),
        }
    }

    proof fn lemma_decode_as_within(bits: Seq<bool>) {
        let _own = <Self as BitUnpackAs<u32>>::decode_as(bits);
    }

    fn unpack_as<R: BitReader>(reader: &mut R) -> (r: Result<u32, Error>) {
        let ghost _own = <Self as BitUnpackAs<u32>>::decode_as(reader.remaining());
        let v = read_uint_checked(reader, BITS, u32::MAX as u64)?;
        Ok(v as u32)
    }
}

impl<const BITS: usize> BitCodecAs<u32> for NBits<BITS> {
    proof fn lemma_round_trip_as(v: u32, rest: Seq<bool>) {
        let _own = (
            <Self as BitPackAs<u32>>::packable_as(v),
            <Self as BitPackAs<u32>>::encoding_as(v),
            <Self as BitUnpackAs<u32>>::decode_as(rest),
        );
        lemma_decode_uint_round_trip(v as nat, BITS as nat, u32::MAX as nat, rest);
        lemma_uint_bits_len(v as nat, BITS as nat);
    }
}

impl<const BITS: usize> BitPackAs<u64> for NBits<BITS> {
    open spec fn packable_as(v: u64) -> bool {
        BITS <= 64 && fits(v as nat, BITS as nat)
    }

    open spec fn encoding_as(v: u64) -> Seq<bool> {
        uint_bits(v as nat, BITS as nat)
    }

    fn pack_as<W: BitWriter>(source: &u64, writer: &mut W) -> (r: Result<(), Error>) {
        let ghost _own = (
            <Self as BitPackAs<u64>>::packable_as(source.deep_view()),
            <Self as BitPackAs<u64>>::encoding_as(source.deep_view()),
            <Self as BitPackAs<u64>>::failure_as(source.deep_view(), writer.room()),
        );
        write_uint_checked(writer, *source as u64, BITS)
    }
}

impl<const BITS: usize> BitUnpackAs<u64> for NBits<BITS> {
    open spec fn decode_as(bits: Seq<bool>) -> Result<(u64, nat), Failure> {
        match decode_uint(bits, BITS as nat, u64::MAX as nat) {
            Ok((v, n)) => Ok((v as u64, n)),
            Err(k) => Err(k),
        }
    }

    proof fn lemma_decode_as_within(bits: Seq<bool>) {
        let _own = <Self as BitUnpackAs<u64>>::decode_as(bits);
    }

    fn unpack_as<R: BitReader>(reader: &mut R) -> (r: Result<u64, Error>) {
        let ghost _own = <Self as BitUnpackAs<u64>>::decode_as(reader.remaining());
        let v = read_uint_checked(reader, BITS, u64::MAX as u64)?;
        Ok(v as u64)
    }
}

impl<const BITS: usize> BitCodecAs<u64> for NBits<BITS> {
    proof fn lemma_round_trip_as(v: u64, rest: Seq<bool>) {
        let _own = (
            <Self as BitPackAs<u64>>::packable_as(v),
            <Self as BitPackAs<u64>>::encoding_as(v),
            <Self as BitUnpackAs<u64>>::decode_as(rest),
        );
        lemma_decode_uint_round_trip(v as nat, BITS as nat, u64::MAX as nat, rest);
        lemma_uint_bits_len(v as nat, BITS as nat);
    }
}

} // verus!
