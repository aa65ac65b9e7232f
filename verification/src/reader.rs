//! Readers of bits.

use crate::error::{Error, ErrorKind, Failure};
use crate::storage::{Bits, max_bits};
use vstd::prelude::*;

verus! {

/// A source of bits.
///
/// `remaining` is what the source still holds. A read succeeds if and only
/// if the source holds as many bits as are asked for, and takes them from
/// the front.
pub trait BitReader {
    /// Whether the reader is in a state that its methods can work on.
    spec fn wf(&self) -> bool;

    /// The bits not read yet, the next one first.
    spec fn remaining(&self) -> Seq<bool>;

    /// The number of bits not read yet.
    fn bits_left(&self) -> (n: usize)
        requires
            self.wf(),
        ensures
            n == self.remaining().len(),
    ;

    /// Reads one bit.
    fn read_bit(&mut self) -> (r: Result<bool, Error>)
        requires
            old(self).wf(),
        ensures
            final(self).wf(),
            r is Ok <==> old(self).remaining().len() >= 1,
            r matches Ok(bit) ==> bit == old(self).remaining()[0] && final(self).remaining() == old(self).remaining().skip(1),
            r matches Err(e) ==> e@ == Failure::of(ErrorKind::Exhaustion),
    ;

    /// Reads `n` bits.
    fn read_bits(&mut self, n: usize) -> (r: Result<Bits, Error>)
        requires
            old(self).wf(),
        ensures
            final(self).wf(),
            r is Ok <==> old(self).remaining().len() >= n && n <= max_bits(),
            r matches Ok(bits) ==> bits@ == old(self).remaining().take(n as int) && final(self).remaining() == old(self).remaining().skip(n as int),
            r matches Err(e) ==> e@ == (if old(self).remaining().len() < n {
                Failure::of(ErrorKind::Exhaustion)
            } else {
                Failure::of(ErrorKind::Capacity)
            }),
    {
        if n > self.bits_left() {
            return Err(Error::new(ErrorKind::Exhaustion));
        }
        if n > Bits::max_len() {
            return Err(Error::new(ErrorKind::Capacity));
        }
        let mut out = Bits::new();
        let mut i: usize = 0;
        while i < n
            invariant
                i <= n,
                self.wf(),
                n <= old(self).remaining().len(),
                n <= max_bits(),
                out@ == old(self).remaining().take(i as int),
                self.remaining() == old(self).remaining().skip(i as int),
            decreases n - i,
        {
            let bit = match self.read_bit() {
                Ok(b) => b,
                Err(e) => {
                    return Err(e);
                },
            };
            let _ = out.push(bit);
            proof {
                let all = old(self).remaining();
                assert(all.skip(i as int)[0] == all[i as int]);
                assert(all.take(i as int).push(all[i as int]) =~= all.take(i + 1));
                assert(all.skip(i as int).skip(1) =~= all.skip(i + 1));
            }
            i = i + 1;
        }
        Ok(out)
    }

    /// Passes over `n` bits.
    fn skip(&mut self, n: usize) -> (r: Result<(), Error>)
        requires
            old(self).wf(),
        ensures
            final(self).wf(),
            r is Ok <==> old(self).remaining().len() >= n,
            r is Ok ==> final(self).remaining() == old(self).remaining().skip(n as int),
            r matches Err(e) ==> e@ == Failure::of(ErrorKind::Exhaustion),
    {
        let mut i: usize = 0;
        while i < n
            invariant
                i <= n,
                self.wf(),
                i <= old(self).remaining().len(),
                self.remaining() == old(self).remaining().skip(i as int),
            decreases n - i,
        {
            let _ = self.read_bit()?;
            proof {
                let all = old(self).remaining();
                assert(all.skip(i as int).skip(1) =~= all.skip(i + 1));
            }
            i = i + 1;
        }
        Ok(())
    }
}

/// What a read that is to give `want` does to a reader: where `want` is a
/// value and the number of bits that stand for it, the read gives a value
/// with that deep view and takes these bits from the front; where it is a
/// failure, the read fails with an error of that kind and with that trail.
pub open spec fn unpack_outcome<R: BitReader, T: DeepView>(
    before: R,
    after: R,
    r: Result<T, Error>,
    want: Result<(T::V, nat), Failure>,
) -> bool {
    &&& after.wf()
    &&& match want {
        Ok((v, n)) => r matches Ok(x) && x.deep_view() == v && n <= before.remaining().len()
            && after.remaining() == before.remaining().skip(n as int),
        Err(k) => r matches Err(e) && e@ == k,
    }
}

/// A reader over a bit string, from a position on.
pub struct BitCursor<'a> {
    bits: &'a Bits,
    pos: usize,
}

impl<'a> BitCursor<'a> {
    /// The bit string that is read.
    pub closed spec fn source(&self) -> Seq<bool> {
        self.bits@
    }

    /// The number of bits read so far.
    pub closed spec fn position(&self) -> nat {
        self.pos as nat
    }

    /// A reader at the start of a bit string.
    pub fn new(bits: &'a Bits) -> (c: Self)
        ensures
            c.wf(),
            c.source() == bits@,
            c.position() == 0,
            c.remaining() == bits@,
    {
        let c = BitCursor { bits, pos: 0 };
        assert(bits@.skip(0) =~= bits@);
        c
    }

    /// A reader of a bit string from a position on.
    pub(crate) fn new_at(bits: &'a Bits, pos: usize) -> (c: Self)
        requires
            pos <= bits@.len(),
        ensures
            c.wf(),
            c.source() == bits@,
            c.position() == pos,
            c.remaining() == bits@.skip(pos as int),
    {
        BitCursor { bits, pos }
    }

    /// The number of bits read so far.
    pub fn consumed(&self) -> (n: usize)
        ensures
            n == self.position(),
    {
        self.pos
    }
}

impl<'a> BitReader for BitCursor<'a> {
    open spec fn wf(&self) -> bool {
        self.position() <= self.source().len()
    }

    open spec fn remaining(&self) -> Seq<bool> {
        self.source().skip(self.position() as int)
    }

    fn bits_left(&self) -> (n: usize) {
        let ghost _own = (self.wf(), self.remaining());
        self.bits.len() - self.pos
    }

    fn read_bit(&mut self) -> (r: Result<bool, Error>)
        ensures
            final(self).source() == old(self).source(),
            r is Ok ==> final(self).position() == old(self).position() + 1,
            r is Err ==> *final(self) == *old(self),
    {
        let ghost _own = (self.wf(), self.remaining());
        let _ = self.bits.len();
        match self.bits.get(self.pos) {
            Some(bit) => {
                proof {
                    let all = self.source();
                    assert(all.skip(self.pos as int).skip(1) =~= all.skip(self.pos + 1));
                }
                self.pos = self.pos + 1;
                Ok(bit)
            },
            None => Err(Error::new(ErrorKind::Exhaustion)),
        }
    }

    fn read_bits(&mut self, n: usize) -> (r: Result<Bits, Error>)
        ensures
            final(self).source() == old(self).source(),
            r is Ok ==> final(self).position() == old(self).position() + n,
            r is Err ==> *final(self) == *old(self),
    {
        let ghost _own = (self.wf(), self.remaining());
        let len = self.bits.len();
        if n > len - self.pos {
            return Err(Error::new(ErrorKind::Exhaustion));
        }
        let part = self.bits.part(self.pos, self.pos + n);
        proof {
            let all = self.source();
            assert(all.subrange(self.pos as int, self.pos + n) =~= all.skip(self.pos as int).take(
                n as int,
            ));
            assert(all.skip(self.pos as int).skip(n as int) =~= all.skip(self.pos + n));
        }
        self.pos = self.pos + n;
        Ok(part)
    }

    fn skip(&mut self, n: usize) -> (r: Result<(), Error>)
        ensures
            final(self).source() == old(self).source(),
            r is Ok ==> final(self).position() == old(self).position() + n,
            r is Err ==> *final(self) == *old(self),
    {
        let ghost _own = (self.wf(), self.remaining());
        let len = self.bits.len();
        if n > len - self.pos {
            return Err(Error::new(ErrorKind::Exhaustion));
        }
        proof {
            let all = self.source();
            assert(all.skip(self.pos as int).skip(n as int) =~= all.skip(self.pos + n));
        }
        self.pos = self.pos + n;
        Ok(())
    }
}

} // verus!
