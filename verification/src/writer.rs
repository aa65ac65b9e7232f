//! Writers of bits, and the decorators that count, limit and duplicate
//! what is written.

use crate::error::{Context, Error, ErrorKind, Failure, reports};
use crate::storage::{Bits, max_bits};
use vstd::prelude::*;

verus! {

/// `n` copies of one bit.
pub open spec fn repeated(n: nat, bit: bool) -> Seq<bool> {
    Seq::new(n, |i: int| bit)
}

/// A sink of bits.
///
/// `written` is what the sink has taken so far and `room` the number of bits
/// that it can still take. A write succeeds if and only if there is room for
/// all of it; a failed write may have passed on the first of the bits, never
/// others.
pub trait BitWriter {
    /// Whether the writer is in a state that its methods can work on.
    spec fn wf(&self) -> bool;

    /// The bits taken so far, in the order in which they were written.
    spec fn written(&self) -> Seq<bool>;

    /// The number of bits that can still be written.
    spec fn room(&self) -> nat;

    /// Whether the errors of this writer come with an empty trail. A writer
    /// that hands bits on to another and marks the errors of the other is
    /// not plain.
    spec fn plain(&self) -> bool;

    /// Writes one bit.
    fn write_bit(&mut self, bit: bool) -> (r: Result<(), Error>)
        requires
            old(self).wf(),
        ensures
            final(self).wf(),
            final(self).plain() == old(self).plain(),
            r is Ok <==> old(self).room() >= 1,
            r is Ok ==> final(self).written() == old(self).written().push(bit),
            r is Ok ==> final(self).room() == old(self).room() - 1,
            r matches Err(e) ==> reports(e, old(self).plain(), Failure::of(ErrorKind::Capacity)),
            r is Err ==> partly_written(old(self).written(), final(self).written(), seq![bit]),
    ;

    /// Writes the bits of a bit string, in their order.
    fn write_bitslice(&mut self, bits: &Bits) -> (r: Result<(), Error>)
        requires
            old(self).wf(),
        ensures
            final(self).wf(),
            final(self).plain() == old(self).plain(),
            r is Ok <==> old(self).room() >= bits@.len(),
            r is Ok ==> final(self).written() == old(self).written() + bits@,
            r is Ok ==> final(self).room() == old(self).room() - bits@.len(),
            r matches Err(e) ==> reports(e, old(self).plain(), Failure::of(ErrorKind::Capacity)),
            r is Err ==> partly_written(old(self).written(), final(self).written(), bits@),
    {
        let n = bits.len();
        let mut i: usize = 0;
        while i < n
            invariant
                i <= n,
                n == bits@.len(),
                self.wf(),
                self.written() == old(self).written() + bits@.take(i as int),
                self.room() == old(self).room() - i,
                old(self).room() >= i,
                self.plain() == old(self).plain(),
            decreases n - i,
        {
            let bit = match bits.get(i) {
                Some(b) => b,
                None => false,
            };
            let ghost before = self.written();
            match self.write_bit(bit) {
                Ok(()) => {},
                Err(e) => {
                    proof {
                        lemma_partly_one_more(old(self).written(), self.written(), bits@, i as int);
                    }
                    return Err(e);
                },
            }
            proof {
                assert(bits@.take(i as int).push(bits@[i as int]) =~= bits@.take(i + 1));
                assert(old(self).written() + bits@.take(i + 1) =~= (old(self).written()
                    + bits@.take(i as int)).push(bit));
            }
            i = i + 1;
        }
        proof {
            assert(bits@.take(n as int) =~= bits@);
        }
        Ok(())
    }

    /// Writes `n` copies of one bit.
    fn repeat_bit(&mut self, n: usize, bit: bool) -> (r: Result<(), Error>)
        requires
            old(self).wf(),
        ensures
            final(self).wf(),
            final(self).plain() == old(self).plain(),
            r is Ok <==> old(self).room() >= n,
            r is Ok ==> final(self).written() == old(self).written() + repeated(n as nat, bit),
            r is Ok ==> final(self).room() == old(self).room() - n,
            r matches Err(e) ==> reports(e, old(self).plain(), Failure::of(ErrorKind::Capacity)),
            r is Err ==> partly_written(
                old(self).written(),
                final(self).written(),
                repeated(n as nat, bit),
            ),
    {
        let mut i: usize = 0;
        while i < n
            invariant
                i <= n,
                self.wf(),
                self.written() == old(self).written() + repeated(i as nat, bit),
                self.room() == old(self).room() - i,
                old(self).room() >= i,
                self.plain() == old(self).plain(),
            decreases n - i,
        {
            let ghost before = self.written();
            match self.write_bit(bit) {
                Ok(()) => {},
                Err(e) => {
                    proof {
                        assert(repeated(n as nat, bit).take(i as int) =~= repeated(i as nat, bit));
                        lemma_partly_one_more(
                            old(self).written(),
                            self.written(),
                            repeated(n as nat, bit),
                            i as int,
                        );
                    }
                    return Err(e);
                },
            }
            proof {
                assert(old(self).written() + repeated((i + 1) as nat, bit) =~= (old(self).written()
                    + repeated(i as nat, bit)).push(bit));
            }
            i = i + 1;
        }
        Ok(())
    }
}

/// Whether what a writer holds after a failed write of `bits` is what it
/// held before and some of the first of these bits, in their order.
pub open spec fn partly_written(before: Seq<bool>, after: Seq<bool>, bits: Seq<bool>) -> bool {
    &&& before.len() <= after.len() <= before.len() + bits.len()
    &&& after == before + bits.take(after.len() - before.len())
}

/// A write that stops at bit `i` of a bit string, with or without having
/// passed that bit on, has written some of the first bits of the string.
pub proof fn lemma_partly_one_more(start: Seq<bool>, after: Seq<bool>, bits: Seq<bool>, i: int)
    requires
        0 <= i < bits.len(),
        partly_written(start + bits.take(i), after, seq![bits[i]]),
    ensures
        partly_written(start, after, bits),
{
    let before = start + bits.take(i);
    if after.len() == before.len() {
        assert(seq![bits[i]].take(0) =~= Seq::<bool>::empty());
        assert(after =~= start + bits.take(i));
    } else {
        assert(seq![bits[i]].take(1) =~= seq![bits[i]]);
        assert(after =~= start + bits.take(i + 1));
    }
}

/// A failed write may have passed on all of the bits.
pub proof fn lemma_partly_all(before: Seq<bool>, bits: Seq<bool>)
    ensures
        partly_written(before, before + bits, bits),
        partly_written(before, before.push(bits[0]), seq![bits[0]]),
{
    assert(bits.take(bits.len() as int) =~= bits);
    assert(seq![bits[0]].take(1) =~= seq![bits[0]]);
    assert(before.push(bits[0]) =~= before + seq![bits[0]]);
}

/// Whether a value can be written where there is room for `room` bits: it
/// has an encoding, and the encoding fits.
pub open spec fn writable(packable: bool, bits: Seq<bool>, room: nat) -> bool {
    packable && bits.len() <= room
}

/// What a write that stands for `bits` does to a writer: it succeeds if and
/// only if the value can be written and the writer has room for all of its
/// bits, and then appends exactly these; a failed write may have passed on
/// some bits and leaves what was written before in place.
pub open spec fn pack_outcome<W: BitWriter>(
    before: W,
    after: W,
    r: Result<(), Error>,
    packable: bool,
    bits: Seq<bool>,
) -> bool {
    &&& after.wf()
    &&& after.plain() == before.plain()
    &&& (r is Ok <==> packable && bits.len() <= before.room())
    &&& (r is Ok ==> after.written() == before.written() + bits)
    &&& (r is Ok ==> after.room() == before.room() - bits.len())
    &&& (r matches Err(e) ==> e.kind == ErrorKind::Capacity || (e.kind == ErrorKind::Custom
        && !packable))
    &&& (r is Err ==> before.written().is_prefix_of(after.written()))
}

/// What extends an extension of a bit string extends the bit string.
pub proof fn lemma_prefix_chain(a: Seq<bool>, b: Seq<bool>, c: Seq<bool>)
    requires
        a.is_prefix_of(b),
        b.is_prefix_of(c),
    ensures
        a.is_prefix_of(c),
{
    assert(a =~= c.subrange(0, a.len() as int)) by {
        assert(a =~= b.subrange(0, a.len() as int));
        assert(b =~= c.subrange(0, b.len() as int));
    }
}

impl BitWriter for Bits {
    open spec fn wf(&self) -> bool {
        self@.len() <= max_bits()
    }

    open spec fn written(&self) -> Seq<bool> {
        self@
    }

    open spec fn room(&self) -> nat {
        (max_bits() - self@.len()) as nat
    }

    open spec fn plain(&self) -> bool {
        true
    }

    fn write_bit(&mut self, bit: bool) -> (r: Result<(), Error>)
        ensures
            r is Err ==> *final(self) == *old(self),
    {
        let ghost _own = (self.wf(), self.written(), self.room(), self.plain());
        if self.push(bit) {
            Ok(())
        } else {
            Err(Error::new(ErrorKind::Capacity))
        }
    }

    fn write_bitslice(&mut self, bits: &Bits) -> (r: Result<(), Error>)
        ensures
            r is Err ==> *final(self) == *old(self),
    {
        let ghost _own = (self.wf(), self.written(), self.room(), self.plain());
        if self.extend(bits) {
            Ok(())
        } else {
            Err(Error::new(ErrorKind::Capacity))
        }
    }

    fn repeat_bit(&mut self, n: usize, bit: bool) -> (r: Result<(), Error>)
        ensures
            r is Err ==> *final(self) == *old(self),
    {
        let ghost _own = (self.wf(), self.written(), self.room(), self.plain());
        if self.extend_repeat(n, bit) {
            Ok(())
        } else {
            Err(Error::new(ErrorKind::Capacity))
        }
    }
}

/// The smaller of two numbers.
pub open spec fn least(a: nat, b: nat) -> nat {
    if a <= b {
        a
    } else {
        b
    }
}

/// A writer that counts the bits that it has passed on.
pub struct BitCounter<W> {
    inner: W,
    counter: usize,
}

impl<W: BitWriter> BitCounter<W> {
    /// The writer that is counted.
    pub closed spec fn target(&self) -> W {
        self.inner
    }

    /// The number of bits passed on so far.
    pub closed spec fn count(&self) -> nat {
        self.counter as nat
    }

    /// Counts what is written to `writer` from now on.
    pub fn new(writer: W) -> (c: Self)
        ensures
            c.target() == writer,
            c.count() == 0,
    {
        BitCounter { inner: writer, counter: 0 }
    }

    /// The number of bits passed on so far.
    pub fn bit_count(&self) -> (n: usize)
        ensures
            n == self.count(),
    {
        self.counter
    }

    /// Gives the counted writer back.
    pub fn into_inner(self) -> (w: W)
        ensures
            w == self.target(),
    {
        self.inner
    }
}

impl<W: BitWriter> BitWriter for BitCounter<W> {
    open spec fn wf(&self) -> bool {
        self.target().wf()
    }

    open spec fn written(&self) -> Seq<bool> {
        self.target().written()
    }

    open spec fn room(&self) -> nat {
        least(self.target().room(), (usize::MAX - self.count()) as nat)
    }

    open spec fn plain(&self) -> bool {
        self.target().plain()
    }

    fn write_bit(&mut self, bit: bool) -> (r: Result<(), Error>)
        ensures
            r is Ok ==> final(self).count() == old(self).count() + 1,
            r is Err ==> final(self).count() == old(self).count(),
            usize::MAX - old(self).count() < 1 ==> *final(self) == *old(self),
    {
        let ghost _own = (self.wf(), self.written(), self.room(), self.plain());
        if self.counter == usize::MAX {
            return Err(Error::new(ErrorKind::Capacity));
        }
        self.inner.write_bit(bit)?;
        self.counter = self.counter + 1;
        Ok(())
    }

    fn write_bitslice(&mut self, bits: &Bits) -> (r: Result<(), Error>)
        ensures
            r is Ok ==> final(self).count() == old(self).count() + bits@.len(),
            r is Err ==> final(self).count() == old(self).count(),
            usize::MAX - old(self).count() < bits@.len() ==> *final(self) == *old(self),
    {
        let ghost _own = (self.wf(), self.written(), self.room(), self.plain());
        let n = bits.len();
        if n > usize::MAX - self.counter {
            return Err(Error::new(ErrorKind::Capacity));
        }
        self.inner.write_bitslice(bits)?;
        self.counter = self.counter + n;
        Ok(())
    }

    fn repeat_bit(&mut self, n: usize, bit: bool) -> (r: Result<(), Error>)
        ensures
            r is Ok ==> final(self).count() == old(self).count() + n,
            r is Err ==> final(self).count() == old(self).count(),
            usize::MAX - old(self).count() < n ==> *final(self) == *old(self),
    {
        let ghost _own = (self.wf(), self.written(), self.room(), self.plain());
        if n > usize::MAX - self.counter {
            return Err(Error::new(ErrorKind::Capacity));
        }
        self.inner.repeat_bit(n, bit)?;
        self.counter = self.counter + n;
        Ok(())
    }
}

/// A writer that takes no more than a fixed number of bits.
pub struct LimitWriter<W> {
    inner: BitCounter<W>,
    limit: usize,
}

impl<W: BitWriter> LimitWriter<W> {
    /// The writer that is limited.
    pub closed spec fn target(&self) -> W {
        self.inner.target()
    }

    /// The number of bits passed on so far.
    pub closed spec fn count(&self) -> nat {
        self.inner.count()
    }

    /// The number of bits that may be passed on in all.
    pub closed spec fn max_count(&self) -> nat {
        self.limit as nat
    }

    /// Passes on to `writer` up to `limit` bits.
    pub fn new(writer: W, limit: usize) -> (w: Self)
        ensures
            w.target() == writer,
            w.count() == 0,
            w.max_count() == limit,
    {
        LimitWriter { inner: BitCounter::new(writer), limit }
    }

    /// Whether `n` more bits stay within the limit: an error of kind
    /// `Capacity` where they do not.
    pub fn ensure_more(&self, n: usize) -> (r: Result<(), Error>)
        ensures
            r is Ok <==> self.count() + n <= self.max_count(),
            r matches Err(e) ==> e@ == Failure::of(ErrorKind::Capacity),
    {
        let count = self.inner.bit_count();
        if count > self.limit || n > self.limit - count {
            return Err(Error::new(ErrorKind::Capacity));
        }
        Ok(())
    }

    /// The number of bits passed on so far.
    pub fn bit_count(&self) -> (n: usize)
        ensures
            n == self.count(),
    {
        self.inner.bit_count()
    }

    /// Gives the limited writer back.
    pub fn into_inner(self) -> (w: W)
        ensures
            w == self.target(),
    {
        self.inner.into_inner()
    }
}

impl<W: BitWriter> BitWriter for LimitWriter<W> {
    open spec fn wf(&self) -> bool {
        self.target().wf() && self.count() <= self.max_count()
    }

    open spec fn written(&self) -> Seq<bool> {
        self.target().written()
    }

    open spec fn room(&self) -> nat {
        least(self.target().room(), (self.max_count() - self.count()) as nat)
    }

    open spec fn plain(&self) -> bool {
        self.target().plain()
    }

    fn write_bit(&mut self, bit: bool) -> (r: Result<(), Error>)
        ensures
            final(self).max_count() == old(self).max_count(),
            r is Ok ==> final(self).count() == old(self).count() + 1,
            r is Err ==> final(self).count() == old(self).count(),
            old(self).count() + 1 > old(self).max_count() ==> *final(self) == *old(self),
    {
        let ghost _own = (self.wf(), self.written(), self.room(), self.plain());
        self.ensure_more(1)?;
        self.inner.write_bit(bit)
    }

    fn write_bitslice(&mut self, bits: &Bits) -> (r: Result<(), Error>)
        ensures
            final(self).max_count() == old(self).max_count(),
            r is Ok ==> final(self).count() == old(self).count() + bits@.len(),
            r is Err ==> final(self).count() == old(self).count(),
            old(self).count() + bits@.len() > old(self).max_count() ==> *final(self) == *old(self),
    {
        let ghost _own = (self.wf(), self.written(), self.room(), self.plain());
        self.ensure_more(bits.len())?;
        self.inner.write_bitslice(bits)
    }

    fn repeat_bit(&mut self, n: usize, bit: bool) -> (r: Result<(), Error>)
        ensures
            final(self).max_count() == old(self).max_count(),
            r is Ok ==> final(self).count() == old(self).count() + n,
            r is Err ==> final(self).count() == old(self).count(),
            old(self).count() + n > old(self).max_count() ==> *final(self) == *old(self),
    {
        let ghost _own = (self.wf(), self.written(), self.room(), self.plain());
        self.ensure_more(n)?;
        self.inner.repeat_bit(n, bit)
    }
}

/// A writer that hands every bit to a second writer as well.
pub struct Tee<T, W> {
    inner: T,
    writer: W,
}

impl<T: BitWriter, W: BitWriter> Tee<T, W> {
    /// The first writer.
    pub closed spec fn first(&self) -> T {
        self.inner
    }

    /// The second writer.
    pub closed spec fn second(&self) -> W {
        self.writer
    }

    /// Writes to `inner` and to `writer`.
    pub fn new(inner: T, writer: W) -> (t: Self)
        ensures
            t.first() == inner,
            t.second() == writer,
    {
        Tee { inner, writer }
    }

    /// Gives both writers back.
    pub fn into_inner(self) -> (both: (T, W))
        ensures
            both.0 == self.first(),
            both.1 == self.second(),
    {
        (self.inner, self.writer)
    }
}

/// The error of the second writer of a pair, marked as such.
fn second_failed(e: Error) -> (out: Error)
    ensures
        out@ == e@.at(Context::Field("writer")),
{
    e.context(Context::Field("writer"))
}

impl<T: BitWriter, W: BitWriter> BitWriter for Tee<T, W> {
    open spec fn wf(&self) -> bool {
        self.first().wf() && self.second().wf()
    }

    open spec fn written(&self) -> Seq<bool> {
        self.first().written()
    }

    open spec fn room(&self) -> nat {
        least(self.first().room(), self.second().room())
    }

    open spec fn plain(&self) -> bool {
        false
    }

    fn write_bit(&mut self, bit: bool) -> (r: Result<(), Error>)
        ensures
            r is Ok ==> final(self).second().written() == old(self).second().written().push(bit),
            old(self).first().room() < 1 ==> final(self).second() == old(self).second(),
            old(self).first().room() >= 1 ==> final(self).first().written() == old(self).first().written().push(bit),
            old(self).first().room() >= 1 ==> (r matches Err(e) ==> e.trail@.len() > 0
                && e.trail@.last() == Context::Field("writer")),
            old(self).first().room() < 1 ==> (r matches Err(e) ==> reports(
                e,
                old(self).first().plain(),
                Failure::of(ErrorKind::Capacity),
            )),
    {
        let ghost _own = (self.wf(), self.written(), self.room(), self.plain());
        self.inner.write_bit(bit)?;
        proof {
            lemma_partly_all(old(self).first().written(), seq![bit]);
        }
        match self.writer.write_bit(bit) {
            Ok(()) => Ok(()),
            Err(e) => Err(second_failed(e)),
        }
    }

    fn write_bitslice(&mut self, bits: &Bits) -> (r: Result<(), Error>)
        ensures
            r is Ok ==> final(self).second().written() == old(self).second().written() + bits@,
            old(self).first().room() < bits@.len() ==> final(self).second() == old(self).second(),
            old(self).first().room() >= bits@.len() ==> final(self).first().written() == old(self).first().written() + bits@,
            old(self).first().room() >= bits@.len() ==> (r matches Err(e) ==> e.trail@.len() > 0
                && e.trail@.last() == Context::Field("writer")),
            old(self).first().room() < bits@.len() ==> (r matches Err(e) ==> reports(
                e,
                old(self).first().plain(),
                Failure::of(ErrorKind::Capacity),
            )),
    {
        let ghost _own = (self.wf(), self.written(), self.room(), self.plain());
        self.inner.write_bitslice(bits)?;
        proof {
            lemma_partly_all(old(self).first().written(), bits@);
        }
        match self.writer.write_bitslice(bits) {
            Ok(()) => Ok(()),
            Err(e) => Err(second_failed(e)),
        }
    }

    fn repeat_bit(&mut self, n: usize, bit: bool) -> (r: Result<(), Error>)
        ensures
            r is Ok ==> final(self).second().written() == old(self).second().written() + repeated(
                n as nat,
                bit,
            ),
            old(self).first().room() < n ==> final(self).second() == old(self).second(),
            old(self).first().room() >= n ==> final(self).first().written() == old(self).first().written() + repeated(n as nat, bit),
            old(self).first().room() >= n ==> (r matches Err(e) ==> e.trail@.len() > 0
                && e.trail@.last() == Context::Field("writer")),
            old(self).first().room() < n ==> (r matches Err(e) ==> reports(
                e,
                old(self).first().plain(),
                Failure::of(ErrorKind::Capacity),
            )),
    {
        let ghost _own = (self.wf(), self.written(), self.room(), self.plain());
        self.inner.repeat_bit(n, bit)?;
        proof {
            lemma_partly_all(old(self).first().written(), repeated(n as nat, bit));
        }
        match self.writer.repeat_bit(n, bit) {
            Ok(()) => Ok(()),
            Err(e) => Err(second_failed(e)),
        }
    }
}

} // verus!
