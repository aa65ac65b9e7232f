//! Sequences of values, written one after the other.

use crate::codec::{BitCodec, BitCodecAs};
use crate::de::BitUnpack;
use crate::de_as::BitUnpackAs;
use crate::error::{Context, Error, ErrorKind, Failure, lemma_reports_at, reports};
use crate::integer::{lemma_uint_bits_len, uint_bits, write_uint};
use crate::reader::{BitReader, unpack_outcome};
use crate::ser::BitPack;
use crate::ser_as::{BitPackAs, BitPackAsWithArgs, Same};
use crate::storage::{Bits, byte_bit, bytes_to_bits};
use crate::writer::{BitWriter, lemma_prefix_chain, pack_outcome, writable};
use vstd::prelude::*;

verus! {

/// Bit strings put one after the other.
pub open spec fn concat(parts: Seq<Seq<bool>>) -> Seq<bool>
    decreases parts.len(),
{
    if parts.len() == 0 {
        Seq::empty()
    } else {
        concat(parts.drop_last()) + parts.last()
    }
}

/// The first parts of a concatenation are no longer than the whole.
pub proof fn lemma_concat_take(parts: Seq<Seq<bool>>, k: int)
    requires
        0 <= k <= parts.len(),
    ensures
        concat(parts.take(k)).len() <= concat(parts).len(),
    decreases parts.len(),
{
    if k == parts.len() {
        assert(parts.take(k) =~= parts);
    } else {
        lemma_concat_take(parts.drop_last(), k);
        assert(parts.drop_last().take(k) =~= parts.take(k));
    }
}

/// One part more.
pub proof fn lemma_concat_step(parts: Seq<Seq<bool>>, k: int)
    requires
        0 <= k < parts.len(),
    ensures
        concat(parts.take(k + 1)) == concat(parts.take(k)) + parts[k],
{
    assert(parts.take(k + 1).drop_last() =~= parts.take(k));
}

/// The encodings of the values of a sequence under a strategy.
pub open spec fn encodings_as<T: DeepView, As: BitPackAs<T>>(vs: Seq<T::V>) -> Seq<Seq<bool>> {
    Seq::new(vs.len(), |i: int| As::encoding_as(vs[i]))
}

/// Whether a strategy can write every value of a sequence.
pub open spec fn all_packable_as<T: DeepView, As: BitPackAs<T>>(vs: Seq<T::V>) -> bool {
    forall|i: int| 0 <= i < vs.len() ==> As::packable_as(#[trigger] vs[i])
}

/// The encodings of the values of a sequence.
pub open spec fn encodings<T: BitPack>(vs: Seq<T::V>) -> Seq<Seq<bool>> {
    Seq::new(vs.len(), |i: int| T::encoding(vs[i]))
}

/// Whether every value of a sequence can be written.
pub open spec fn all_packable<T: BitPack>(vs: Seq<T::V>) -> bool {
    forall|i: int| 0 <= i < vs.len() ==> T::packable(#[trigger] vs[i])
}

/// The encodings of the values of a sequence under a strategy with
/// arguments.
pub open spec fn encodings_as_with<T: DeepView, As: BitPackAsWithArgs<T>>(
    vs: Seq<T::V>,
    args: As::Args,
) -> Seq<Seq<bool>> {
    Seq::new(vs.len(), |i: int| As::encoding_as_with(vs[i], args))
}

/// Whether a strategy with arguments can write every value of a sequence.
pub open spec fn all_packable_as_with<T: DeepView, As: BitPackAsWithArgs<T>>(
    vs: Seq<T::V>,
    args: As::Args,
) -> bool {
    forall|i: int| 0 <= i < vs.len() ==> As::packable_as_with(#[trigger] vs[i], args)
}

/// The failure of writing the values of a sequence from position `i` on
/// where the writer has room for `room` bits: that of the first value that
/// cannot be written or does not fit, with the position of that value on
/// its trail.
pub open spec fn first_failure<T: DeepView, As: BitPackAs<T>>(
    vs: Seq<T::V>,
    room: nat,
    i: nat,
) -> Failure
    decreases vs.len() - i,
{
    if i >= vs.len() {
        Failure::of(ErrorKind::Capacity)
    } else if !writable(As::packable_as(vs[i as int]), As::encoding_as(vs[i as int]), room) {
        As::failure_as(vs[i as int], room).at(Context::Index(i as usize))
    } else {
        first_failure::<T, As>(vs, (room - As::encoding_as(vs[i as int]).len()) as nat, i + 1)
    }
}

/// The failure of writing the values of a sequence from position `i` on,
/// all with the same arguments, where the writer has room for `room` bits:
/// that of the first value that cannot be written or does not fit, with the
/// position of that value on its trail.
pub open spec fn first_failure_with<T: DeepView, As: BitPackAsWithArgs<T>>(
    vs: Seq<T::V>,
    args: As::Args,
    room: nat,
    i: nat,
) -> Failure
    decreases vs.len() - i,
{
    if i >= vs.len() {
        Failure::of(ErrorKind::Capacity)
    } else if !writable(
        As::packable_as_with(vs[i as int], args),
        As::encoding_as_with(vs[i as int], args),
        room,
    ) {
        As::failure_as_with(vs[i as int], args, room).at(Context::Index(i as usize))
    } else {
        first_failure_with::<T, As>(
            vs,
            args,
            (room - As::encoding_as_with(vs[i as int], args).len()) as nat,
            i + 1,
        )
    }
}

/// Writes the values of a slice one after the other, each by the strategy
/// `As`; an error carries the position of the value that could not be
/// written.
pub fn pack_many_as<T: DeepView, As: BitPackAs<T>, W: BitWriter>(
    writer: &mut W,
    values: &[T],
) -> (r: Result<(), Error>)
    requires
        old(writer).wf(),
    ensures
        pack_outcome(
            *old(writer),
            *final(writer),
            r,
            all_packable_as::<T, As>(values.deep_view()),
            concat(encodings_as::<T, As>(values.deep_view())),
        ),
        r matches Err(e) ==> reports(
            e,
            old(writer).plain(),
            first_failure::<T, As>(
                values.deep_view(),
                old(writer).room(),
                0,
            ),
        ),
{
    let ghost start = writer.written();
    let ghost vs = values.deep_view();
    let ghost parts = encodings_as::<T, As>(vs);
    let n = values.len();
    let mut i: usize = 0;
    proof {
        assert(parts.take(0) =~= Seq::<Seq<bool>>::empty());
        assert(start + concat(parts.take(0)) =~= start);
    }
    while i < n
        invariant
            i <= n,
            n == values@.len(),
            vs == values.deep_view(),
            parts == encodings_as::<T, As>(vs),
            start == old(writer).written(),
            writer.wf(),
            writer.plain() == old(writer).plain(),
            writer.written() == start + concat(parts.take(i as int)),
            concat(parts.take(i as int)).len() <= old(writer).room(),
            writer.room() == old(writer).room() - concat(parts.take(i as int)).len(),
            forall|j: int| 0 <= j < i ==> As::packable_as(#[trigger] vs[j]),
            first_failure::<T, As>(vs, old(writer).room(), 0) == first_failure::<T, As>(
                vs,
                writer.room(),
                i as nat,
            ),
        decreases n - i,
    {
        let ghost before = writer.written();
        proof {
            lemma_concat_step(parts, i as int);
            lemma_concat_take(parts, i + 1);
            assert(vs[i as int] == values@[i as int].deep_view());
        }
        let ghost room = writer.room();
        match As::pack_as(&values[i], writer) {
            Ok(()) => {},
            Err(e) => {
                let out = e.context(Context::Index(i));
                proof {
                    lemma_prefix_chain(start, before, writer.written());
                    lemma_reports_at(
                        e,
                        out,
                        old(writer).plain(),
                        As::failure_as(vs[i as int], room),
                        Context::Index(i),
                    );
                }
                return Err(out);
            },
        }
        proof {
            assert(start + concat(parts.take(i + 1)) =~= before + parts[i as int]);
        }
        i = i + 1;
    }
    proof {
        assert(parts.take(n as int) =~= parts);
    }
    Ok(())
}

/// Writes the values of a slice one after the other, each by the strategy
/// `As` with the same arguments; an error carries the position of the value
/// that could not be written.
pub fn pack_many_as_with<T: DeepView, As: BitPackAsWithArgs<T>, W: BitWriter>(
    writer: &mut W,
    values: &[T],
    args: As::Args,
) -> (r: Result<(), Error>) where As::Args: Copy
    requires
        old(writer).wf(),
    ensures
        pack_outcome(
            *old(writer),
            *final(writer),
            r,
            all_packable_as_with::<T, As>(values.deep_view(), args),
            concat(encodings_as_with::<T, As>(values.deep_view(), args)),
        ),
        r matches Err(e) ==> reports(
            e,
            old(writer).plain(),
            first_failure_with::<T, As>(
                values.deep_view(),
                args,
                old(writer).room(),
                0,
            ),
        ),
{
    let ghost start = writer.written();
    let ghost vs = values.deep_view();
    let ghost parts = encodings_as_with::<T, As>(vs, args);
    let n = values.len();
    let mut i: usize = 0;
    proof {
        assert(parts.take(0) =~= Seq::<Seq<bool>>::empty());
        assert(start + concat(parts.take(0)) =~= start);
    }
    while i < n
        invariant
            i <= n,
            n == values@.len(),
            vs == values.deep_view(),
            parts == encodings_as_with::<T, As>(vs, args),
            start == old(writer).written(),
            writer.wf(),
            writer.plain() == old(writer).plain(),
            writer.written() == start + concat(parts.take(i as int)),
            concat(parts.take(i as int)).len() <= old(writer).room(),
            writer.room() == old(writer).room() - concat(parts.take(i as int)).len(),
            forall|j: int| 0 <= j < i ==> As::packable_as_with(#[trigger] vs[j], args),
            first_failure_with::<T, As>(vs, args, old(writer).room(), 0) == first_failure_with::<
                T,
                As,
            >(vs, args, writer.room(), i as nat),
        decreases n - i,
    {
        let ghost before = writer.written();
        proof {
            lemma_concat_step(parts, i as int);
            lemma_concat_take(parts, i + 1);
            assert(vs[i as int] == values@[i as int].deep_view());
        }
        let ghost room = writer.room();
        match As::pack_as_with(&values[i], writer, args) {
            Ok(()) => {},
            Err(e) => {
                let out = e.context(Context::Index(i));
                proof {
                    lemma_prefix_chain(start, before, writer.written());
                    lemma_reports_at(
                        e,
                        out,
                        old(writer).plain(),
                        As::failure_as_with(vs[i as int], args, room),
                        Context::Index(i),
                    );
                }
                return Err(out);
            },
        }
        proof {
            assert(start + concat(parts.take(i + 1)) =~= before + parts[i as int]);
        }
        i = i + 1;
    }
    proof {
        assert(parts.take(n as int) =~= parts);
    }
    Ok(())
}

/// A vector under a strategy for its elements: the elements one after the
/// other.
impl<T: DeepView, As: BitPackAs<T>> BitPackAs<Vec<T>> for Vec<As> {
    open spec fn packable_as(v: Seq<T::V>) -> bool {
        all_packable_as::<T, As>(v)
    }

    open spec fn encoding_as(v: Seq<T::V>) -> Seq<bool> {
        concat(encodings_as::<T, As>(v))
    }

    open spec fn failure_as(v: Seq<T::V>, room: nat) -> Failure {
        first_failure::<T, As>(v, room, 0)
    }

    fn pack_as<W: BitWriter>(source: &Vec<T>, writer: &mut W) -> (r: Result<(), Error>) {
        let ghost _own = (
            <Self as BitPackAs<Vec<T>>>::packable_as(source.deep_view()),
            <Self as BitPackAs<Vec<T>>>::encoding_as(source.deep_view()),
            <Self as BitPackAs<Vec<T>>>::failure_as(source.deep_view(), writer.room()),
        );
        let items = source.as_slice();
        assert(items.deep_view() =~= source.deep_view());
        pack_many_as::<T, As, W>(writer, items)
    }
}

/// An array under a strategy for its elements: the elements one after the
/// other.
impl<T: DeepView, As: BitPackAs<T>, const N: usize> BitPackAs<[T; N]> for [As; N] {
    open spec fn packable_as(v: Seq<T::V>) -> bool {
        v.len() == N && all_packable_as::<T, As>(v)
    }

    open spec fn encoding_as(v: Seq<T::V>) -> Seq<bool> {
        concat(encodings_as::<T, As>(v))
    }

    open spec fn failure_as(v: Seq<T::V>, room: nat) -> Failure {
        first_failure::<T, As>(v, room, 0)
    }

    fn pack_as<W: BitWriter>(source: &[T; N], writer: &mut W) -> (r: Result<(), Error>) {
        let ghost _own = (
            <Self as BitPackAs<[T; N]>>::packable_as(source.deep_view()),
            <Self as BitPackAs<[T; N]>>::encoding_as(source.deep_view()),
            <Self as BitPackAs<[T; N]>>::failure_as(source.deep_view(), writer.room()),
        );
        let items = source.as_slice();
        assert(items.deep_view() =~= source.deep_view());
        pack_many_as::<T, As, W>(writer, items)
    }
}

/// A vector: its elements one after the other.
impl<T: BitPack> BitPack for Vec<T> {
    open spec fn packable(v: Seq<T::V>) -> bool {
        all_packable::<T>(v)
    }

    open spec fn encoding(v: Seq<T::V>) -> Seq<bool> {
        concat(encodings::<T>(v))
    }

    open spec fn failure(v: Seq<T::V>, room: nat) -> Failure {
        first_failure::<T, Same>(v, room, 0)
    }

    fn pack<W: BitWriter>(&self, writer: &mut W) -> (r: Result<(), Error>) {
        let ghost _own = (
            Self::packable(self.deep_view()),
            Self::encoding(self.deep_view()),
            Self::failure(self.deep_view(), writer.room()),
        );
        let items = self.as_slice();
        assert(items.deep_view() =~= self.deep_view());
        assert(encodings::<T>(self.deep_view()) =~= encodings_as::<T, Same>(self.deep_view()));
        pack_many_as::<T, Same, W>(writer, items)
    }
}

/// An array: its elements one after the other.
impl<T: BitPack, const N: usize> BitPack for [T; N] {
    open spec fn packable(v: Seq<T::V>) -> bool {
        v.len() == N && all_packable::<T>(v)
    }

    open spec fn encoding(v: Seq<T::V>) -> Seq<bool> {
        concat(encodings::<T>(v))
    }

    open spec fn failure(v: Seq<T::V>, room: nat) -> Failure {
        first_failure::<T, Same>(v, room, 0)
    }

    fn pack<W: BitWriter>(&self, writer: &mut W) -> (r: Result<(), Error>) {
        let ghost _own = (
            Self::packable(self.deep_view()),
            Self::encoding(self.deep_view()),
            Self::failure(self.deep_view(), writer.room()),
        );
        let items = self.as_slice();
        assert(items.deep_view() =~= self.deep_view());
        assert(encodings::<T>(self.deep_view()) =~= encodings_as::<T, Same>(self.deep_view()));
        pack_many_as::<T, Same, W>(writer, items)
    }
}

/// The eight binary digits of a byte are its bits, the most significant
/// first.
pub proof fn lemma_byte_digits(byte: u8)
    ensures
        uint_bits(byte as nat, 8) == Seq::new(8, |j: int| byte_bit(byte, j)),
{
    reveal_with_fuel(uint_bits, 9);
    let b = byte as nat;
    assert(uint_bits(b, 8) =~= Seq::new(8, |j: int| byte_bit(byte, j)));
}

/// The bits of a byte string that is one byte longer.
pub proof fn lemma_bytes_to_bits_push(bytes: Seq<u8>, byte: u8)
    ensures
        bytes_to_bits(bytes.push(byte)) == bytes_to_bits(bytes) + uint_bits(byte as nat, 8),
{
    lemma_byte_digits(byte);
    let whole = bytes_to_bits(bytes.push(byte));
    let parts = bytes_to_bits(bytes) + uint_bits(byte as nat, 8);
    assert(whole.len() == parts.len());
    assert forall|i: int| 0 <= i < whole.len() implies whole[i] == parts[i] by {
        if i < 8 * bytes.len() {
            assert(bytes.push(byte)[i / 8] == bytes[i / 8]);
        } else {
            assert(i / 8 == bytes.len());
            assert(i % 8 == i - 8 * bytes.len());
        }
    }
    assert(whole =~= parts);
}

/// Writes the bits of a byte string byte by byte.
fn write_each_byte<W: BitWriter>(writer: &mut W, bytes: &[u8]) -> (r: Result<(), Error>)
    requires
        old(writer).wf(),
    ensures
        pack_outcome(*old(writer), *final(writer), r, true, bytes_to_bits(bytes@)),
        r matches Err(e) ==> reports(e, old(writer).plain(), Failure::of(ErrorKind::Capacity)),
{
    let ghost start = writer.written();
    let n = bytes.len();
    let mut i: usize = 0;
    proof {
        assert(bytes_to_bits(bytes@.take(0)) =~= Seq::<bool>::empty());
        assert(start + bytes_to_bits(bytes@.take(0)) =~= start);
    }
    while i < n
        invariant
            i <= n,
            n == bytes@.len(),
            start == old(writer).written(),
            writer.wf(),
            writer.plain() == old(writer).plain(),
            writer.written() == start + bytes_to_bits(bytes@.take(i as int)),
            8 * i <= old(writer).room(),
            writer.room() == old(writer).room() - 8 * i,
        decreases n - i,
    {
        let ghost before = writer.written();
        proof {
            lemma_bytes_to_bits_push(bytes@.take(i as int), bytes@[i as int]);
            assert(bytes@.take(i as int).push(bytes@[i as int]) =~= bytes@.take(i + 1));
            lemma_uint_bits_len(bytes@[i as int] as nat, 8);
        }
        match write_uint(writer, bytes[i] as u64, 8) {
            Ok(()) => {},
            Err(e) => {
                proof {
                    lemma_prefix_chain(start, before, writer.written());
                }
                return Err(e);
            },
        }
        proof {
            assert(start + bytes_to_bits(bytes@.take(i + 1)) =~= before + uint_bits(
                bytes@[i as int] as nat,
                8,
            ));
        }
        i = i + 1;
    }
    proof {
        assert(bytes@.take(n as int) =~= bytes@);
    }
    Ok(())
}

/// Writes the bits of a byte string, the most significant bit of each byte
/// first.
pub fn write_bytes<W: BitWriter>(writer: &mut W, bytes: &[u8]) -> (r: Result<(), Error>)
    requires
        old(writer).wf(),
    ensures
        pack_outcome(*old(writer), *final(writer), r, true, bytes_to_bits(bytes@)),
        r matches Err(e) ==> reports(e, old(writer).plain(), Failure::of(ErrorKind::Capacity)),
{
    match Bits::from_bytes(bytes) {
        Some(bits) => writer.write_bitslice(&bits),
        None => write_each_byte(writer, bytes),
    }
}

/// The first `n` values at the front of a bit string under a strategy, one
/// after the other, and the number of bits that stand for them.
pub open spec fn decode_many_as<T: DeepView, As: BitUnpackAs<T>>(bits: Seq<bool>, n: nat) -> Result<
    (Seq<T::V>, nat),
    Failure,
>
    decreases n,
{
    if n == 0 {
        Ok((Seq::empty(), 0))
    } else {
        match decode_many_as::<T, As>(bits, (n - 1) as nat) {
            Err(e) => Err(e),
            Ok((front, used)) => match As::decode_as(bits.skip(used as int)) {
                Err(e) => Err(e.at(Context::Index((n - 1) as usize))),
                Ok((v, m)) => Ok((front.push(v), used + m)),
            },
        }
    }
}

/// Once a value cannot be read, the sequence cannot be read.
pub proof fn lemma_decode_many_fails<T: DeepView, As: BitUnpackAs<T>>(
    bits: Seq<bool>,
    k: nat,
    n: nat,
)
    requires
        k <= n,
        decode_many_as::<T, As>(bits, k) is Err,
    ensures
        decode_many_as::<T, As>(bits, n) == decode_many_as::<T, As>(bits, k),
    decreases n - k,
{
    if k < n {
        lemma_decode_many_fails::<T, As>(bits, k, (n - 1) as nat);
    }
}

/// Values take no more bits than there are, and as many values are read as
/// were asked for.
pub proof fn lemma_decode_many_within<T: DeepView, As: BitUnpackAs<T>>(bits: Seq<bool>, n: nat)
    ensures
        decode_many_as::<T, As>(bits, n) matches Ok((vs, used)) ==> used <= bits.len() && vs.len()
            == n,
    decreases n,
{
    if n > 0 {
        lemma_decode_many_within::<T, As>(bits, (n - 1) as nat);
        if let Ok((front, used)) = decode_many_as::<T, As>(bits, (n - 1) as nat) {
            As::lemma_decode_as_within(bits.skip(used as int));
        }
    }
}

/// Reads `n` values one after the other, each by the strategy `As`; an
/// error carries the position of the value that could not be read.
pub fn unpack_many_as<T: DeepView, As: BitUnpackAs<T>, R: BitReader>(reader: &mut R, n: usize) -> (r:
    Result<Vec<T>, Error>)
    requires
        old(reader).wf(),
    ensures
        unpack_outcome(
            *old(reader),
            *final(reader),
            r,
            decode_many_as::<T, As>(old(reader).remaining(), n as nat),
        ),
{
    let ghost all = reader.remaining();
    let mut out: Vec<T> = Vec::new();
    let mut i: usize = 0;
    let ghost mut used: nat = 0;
    proof {
        assert(all.skip(0) =~= all);
        assert(out.deep_view() =~= Seq::<T::V>::empty());
    }
    while i < n
        invariant
            i <= n,
            reader.wf(),
            all == old(reader).remaining(),
            used <= all.len(),
            decode_many_as::<T, As>(all, i as nat) == Ok::<(Seq<T::V>, nat), Failure>(
                (out.deep_view(), used),
            ),
            reader.remaining() == all.skip(used as int),
        decreases n - i,
    {
        let v = match As::unpack_as(reader) {
            Ok(v) => v,
            Err(e) => {
                proof {
                    lemma_decode_many_fails::<T, As>(all, (i + 1) as nat, n as nat);
                }
                return Err(e.context(Context::Index(i)));
            },
        };
        proof {
            let m = As::decode_as(all.skip(used as int))->Ok_0.1;
            assert(all.skip(used as int).skip(m as int) =~= all.skip((used + m) as int));
            used = used + m;
        }
        let ghost before = out.deep_view();
        out.push(v);
        proof {
            assert(out.deep_view() =~= before.push(v.deep_view()));
        }
        i = i + 1;
    }
    Ok(out)
}

/// What stands for the values of a sequence, whatever follows it, is read
/// back as the sequence.
pub proof fn lemma_decode_many_round_trip<T: DeepView, As: BitCodecAs<T>>(
    vs: Seq<T::V>,
    k: nat,
    rest: Seq<bool>,
)
    requires
        all_packable_as::<T, As>(vs),
        k <= vs.len(),
    ensures
        decode_many_as::<T, As>(concat(encodings_as::<T, As>(vs)) + rest, k) == Ok::<
            (Seq<T::V>, nat),
            Failure,
        >((vs.take(k as int), concat(encodings_as::<T, As>(vs).take(k as int)).len())),
    decreases k,
{
    let parts = encodings_as::<T, As>(vs);
    let whole = concat(parts) + rest;
    if k == 0 {
        assert(vs.take(0) =~= Seq::<T::V>::empty());
        assert(parts.take(0) =~= Seq::<Seq<bool>>::empty());
    } else {
        lemma_decode_many_round_trip::<T, As>(vs, (k - 1) as nat, rest);
        let before = concat(parts.take(k - 1));
        let one = parts[k - 1];
        lemma_concat_step(parts, k - 1);
        lemma_concat_tail(parts, k as int);
        let after = concat(parts.skip(k as int)) + rest;
        assert(whole =~= before + one + after);
        assert(whole.skip(before.len() as int) =~= one + after);
        As::lemma_round_trip_as(vs[k - 1], after);
        assert(vs.take(k - 1).push(vs[k - 1]) =~= vs.take(k as int));
    }
}

/// A concatenation is that of its first parts followed by that of the
/// others.
pub proof fn lemma_concat_tail(parts: Seq<Seq<bool>>, k: int)
    requires
        0 <= k <= parts.len(),
    ensures
        concat(parts) == concat(parts.take(k)) + concat(parts.skip(k)),
    decreases parts.len(),
{
    if k == parts.len() {
        assert(parts.take(k) =~= parts);
        assert(parts.skip(k) =~= Seq::<Seq<bool>>::empty());
        assert(concat(parts) + Seq::<bool>::empty() =~= concat(parts));
    } else {
        let front = parts.drop_last();
        lemma_concat_tail(front, k);
        assert(front.take(k) =~= parts.take(k));
        assert(front.skip(k) =~= parts.skip(k).drop_last());
        assert(parts.skip(k).last() == parts.last());
        assert(concat(parts.take(k)) + concat(front.skip(k)) + parts.last() =~= concat(
            parts.take(k),
        ) + (concat(front.skip(k)) + parts.last()));
    }
}

/// `<[T; N]>::try_from` on a vector of `N` elements: the elements as an
/// array, in their order.
#[verifier::external_body]
fn vec_into_array<T, const N: usize>(v: Vec<T>) -> (a: [T; N])
    requires
        v@.len() == N,
    ensures
        a@ == v@,
{
    <[T; N]>::try_from(v).ok().unwrap()
}

/// An array under a strategy for its elements: the elements one after the
/// other.
impl<T: DeepView, As: BitUnpackAs<T>, const N: usize> BitUnpackAs<[T; N]> for [As; N] {
    open spec fn decode_as(bits: Seq<bool>) -> Result<(Seq<T::V>, nat), Failure> {
        decode_many_as::<T, As>(bits, N as nat)
    }

    proof fn lemma_decode_as_within(bits: Seq<bool>) {
        let _own = <Self as BitUnpackAs<[T; N]>>::decode_as(bits);
        lemma_decode_many_within::<T, As>(bits, N as nat);
    }

    fn unpack_as<R: BitReader>(reader: &mut R) -> (r: Result<[T; N], Error>) {
        let ghost _own = <Self as BitUnpackAs<[T; N]>>::decode_as(reader.remaining());
        let ghost all = reader.remaining();
        let v = match unpack_many_as::<T, As, R>(reader, N) {
            Ok(v) => v,
            Err(e) => {
                return Err(e);
            },
        };
        proof {
            lemma_decode_many_within::<T, As>(all, N as nat);
        }
        let ghost view = v.deep_view();
        let a = vec_into_array::<T, N>(v);
        assert(a.deep_view() =~= view);
        Ok(a)
    }
}

impl<T: DeepView, As: BitCodecAs<T>, const N: usize> BitCodecAs<[T; N]> for [As; N] {
    proof fn lemma_round_trip_as(v: Seq<T::V>, rest: Seq<bool>) {
        let _own = (
            <Self as BitPackAs<[T; N]>>::packable_as(v),
            <Self as BitPackAs<[T; N]>>::encoding_as(v),
            <Self as BitUnpackAs<[T; N]>>::decode_as(rest),
        );
        lemma_decode_many_round_trip::<T, As>(v, N as nat, rest);
        assert(v.take(N as int) =~= v);
        assert(encodings_as::<T, As>(v).take(N as int) =~= encodings_as::<T, As>(v));
    }
}

/// The first `n` values at the front of a bit string, one after the other,
/// and the number of bits that stand for them.
pub open spec fn decode_many<T: BitUnpack>(bits: Seq<bool>, n: nat) -> Result<
    (Seq<T::V>, nat),
    Failure,
>
    decreases n,
{
    if n == 0 {
        Ok((Seq::empty(), 0))
    } else {
        match decode_many::<T>(bits, (n - 1) as nat) {
            Err(e) => Err(e),
            Ok((front, used)) => match T::decode(bits.skip(used as int)) {
                Err(e) => Err(e.at(Context::Index((n - 1) as usize))),
                Ok((v, m)) => Ok((front.push(v), used + m)),
            },
        }
    }
}

/// Reading values one after the other is reading them by the strategy that
/// reads each as its own type does.
pub proof fn lemma_decode_many_same<T: BitUnpack>(bits: Seq<bool>, n: nat)
    ensures
        decode_many::<T>(bits, n) == decode_many_as::<T, Same>(bits, n),
    decreases n,
{
    if n > 0 {
        lemma_decode_many_same::<T>(bits, (n - 1) as nat);
    }
}

/// An array: its elements one after the other.
impl<T: BitUnpack, const N: usize> BitUnpack for [T; N] {
    open spec fn decode(bits: Seq<bool>) -> Result<(Seq<T::V>, nat), Failure> {
        decode_many::<T>(bits, N as nat)
    }

    proof fn lemma_decode_within(bits: Seq<bool>) {
        let _own = Self::decode(bits);
        lemma_decode_many_same::<T>(bits, N as nat);
        lemma_decode_many_within::<T, Same>(bits, N as nat);
    }

    fn unpack<R: BitReader>(reader: &mut R) -> (r: Result<Self, Error>) {
        let ghost _own = Self::decode(reader.remaining());
        proof {
            lemma_decode_many_same::<T>(reader.remaining(), N as nat);
        }
        <[Same; N] as BitUnpackAs<[T; N]>>::unpack_as(reader)
    }
}

impl<T: BitCodec, const N: usize> BitCodec for [T; N] {
    proof fn lemma_round_trip(v: Seq<T::V>, rest: Seq<bool>) {
        let _own = (Self::packable(v), Self::encoding(v), Self::decode(rest));
        assert(encodings::<T>(v) =~= encodings_as::<T, Same>(v));
        lemma_decode_many_same::<T>(concat(encodings::<T>(v)) + rest, N as nat);
        <[Same; N] as BitCodecAs<[T; N]>>::lemma_round_trip_as(v, rest);
    }
}

/// A text: the bytes of its UTF-8 form, the most significant bit of each
/// byte first.
impl BitPack for str {
    open spec fn packable(v: Seq<char>) -> bool {
        true
    }

    open spec fn encoding(v: Seq<char>) -> Seq<bool> {
        bytes_to_bits(vstd::utf8::encode_utf8(v))
    }

    fn pack<W: BitWriter>(&self, writer: &mut W) -> (r: Result<(), Error>) {
        let ghost _own = (
            Self::packable(self.deep_view()),
            Self::encoding(self.deep_view()),
            Self::failure(self.deep_view(), writer.room()),
        );
        write_bytes(writer, self.as_bytes())
    }
}

} // verus!
