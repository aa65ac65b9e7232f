//! Reading a cell: bits and references are taken from the front until the
//! reader is done.

use crate::cell::{Cell, CellView, cell_view, share};
use crate::de::BitUnpack;
use crate::de_as::BitUnpackAs;
use crate::error::{Error, ErrorKind, Failure};
use crate::reader::{BitCursor, BitReader};
use crate::ser_as::Same;
use crate::storage::Bits;
use std::sync::Arc;
use vstd::prelude::*;

verus! {

impl CellView {
    /// What is left after the first `n` bits and the first `k` references.
    pub open spec fn skip(self, n: nat, k: nat) -> CellView {
        CellView { data: self.data.skip(n as int), references: self.references.skip(k as int) }
    }
}

/// A reader of one cell. It never reads past the cell's bits or past its
/// references.
pub struct CellParser<'a> {
    cell: &'a Cell,
    pos: usize,
    ref_pos: usize,
}

impl<'a> DeepView for CellParser<'a> {
    type V = CellView;

    /// What is left to read.
    closed spec fn deep_view(&self) -> CellView {
        cell_view(*self.cell).skip(self.pos as nat, self.ref_pos as nat)
    }
}

/// What a read that is to give `want` does to a parser: where `want` is a
/// value with the numbers of bits and references that stand for it, the
/// read gives a value with that deep view and takes these from the front;
/// where it is a failure, the read fails with an error of that kind and
/// with that trail.
pub open spec fn parse_outcome<T: DeepView>(
    before: CellParser,
    after: CellParser,
    r: Result<T, Error>,
    want: Result<(T::V, nat, nat), Failure>,
) -> bool {
    &&& after.wf()
    &&& match want {
        Ok((v, n, k)) => {
            &&& r matches Ok(x) && x.deep_view() == v
            &&& n <= before.deep_view().data.len()
            &&& k <= before.deep_view().references.len()
            &&& after.deep_view() == before.deep_view().skip(n, k)
        },
        Err(f) => r matches Err(e) && e@ == f,
    }
}

/// The value of a read without the numbers of bits and references.
pub open spec fn bits_taken<V>(want: Result<(V, nat), Failure>) -> Result<
    (V, nat, nat),
    Failure,
> {
    match want {
        Ok((v, n)) => Ok((v, n, 0)),
        Err(k) => Err(k),
    }
}

impl Cell {
    /// A reader at the start of this cell.
    pub fn parser(&self) -> (p: CellParser<'_>)
        ensures
            p.wf(),
            p.deep_view() == self.deep_view(),
    {
        let p = CellParser { cell: self, pos: 0, ref_pos: 0 };
        proof {
            let v = cell_view(*self);
            assert(v.data.skip(0) =~= v.data);
            assert(v.references.skip(0) =~= v.references);
        }
        p
    }
}

impl<'a> CellParser<'a> {
    /// Whether the positions lie within the cell.
    pub closed spec fn inv(&self) -> bool {
        &&& self.pos <= self.cell.data@.len()
        &&& self.ref_pos <= self.cell.references@.len()
    }

    /// The number of references not read yet.
    pub fn references_left(&self) -> (n: usize)
        requires
            self.wf(),
        ensures
            n == self.deep_view().references.len(),
    {
        self.cell.references.len() - self.ref_pos
    }

    /// Whether neither bits nor references are left.
    pub fn is_empty(&self) -> (b: bool)
        requires
            self.wf(),
        ensures
            b == (self.deep_view().data.len() == 0 && self.deep_view().references.len() == 0),
    {
        self.cell.data.len() - self.pos == 0 && self.cell.references.len() - self.ref_pos == 0
    }

    /// Succeeds if nothing is left; an error of kind `TrailingData`
    /// otherwise.
    pub fn ensure_empty(&self) -> (r: Result<(), Error>)
        requires
            self.wf(),
        ensures
            r is Ok <==> self.deep_view().data.len() == 0 && self.deep_view().references.len()
                == 0,
            r matches Err(e) ==> e@ == Failure::of(ErrorKind::TrailingData),
    {
        if self.is_empty() {
            Ok(())
        } else {
            Err(Error::new(ErrorKind::TrailingData))
        }
    }

    /// Takes the next reference; an error of kind `Exhaustion` if none is
    /// left.
    pub fn next_reference(&mut self) -> (r: Result<Arc<Cell>, Error>)
        requires
            old(self).wf(),
        ensures
            parse_outcome(
                *old(self),
                *final(self),
                r,
                if old(self).deep_view().references.len() == 0 {
                    Err(Failure::of(ErrorKind::Exhaustion))
                } else {
                    Ok((old(self).deep_view().references[0], 0, 1))
                },
            ),
            r is Err ==> *final(self) == *old(self),
    {
        if self.ref_pos >= self.cell.references.len() {
            return Err(Error::new(ErrorKind::Exhaustion));
        }
        let child = share(&self.cell.references[self.ref_pos]);
        proof {
            let v = cell_view(*self.cell);
            assert(v.references.skip(self.ref_pos as int).skip(1) =~= v.references.skip(
                self.ref_pos + 1,
            ));
            assert(v.data.skip(self.pos as int).skip(0) =~= v.data.skip(self.pos as int));
        }
        self.ref_pos = self.ref_pos + 1;
        Ok(child)
    }

    /// Reads a value from the bits by the strategy `As`.
    pub fn unpack_as<T: DeepView, As: BitUnpackAs<T>>(&mut self) -> (r: Result<T, Error>)
        requires
            old(self).wf(),
        ensures
            parse_outcome(
                *old(self),
                *final(self),
                r,
                bits_taken(As::decode_as(old(self).deep_view().data)),
            ),
            r is Err ==> *final(self) == *old(self),
    {
        let len = self.cell.data.len();
        let mut cursor = BitCursor::new_at(&self.cell.data, self.pos);
        let ghost before = cursor.remaining();
        let v = As::unpack_as(&mut cursor)?;
        let left = cursor.bits_left();
        proof {
            let n = As::decode_as(before)->Ok_0.1;
            let all = cell_view(*self.cell);
            assert(all.data.skip(self.pos as int).skip(n as int) =~= all.data.skip(self.pos + n));
            assert(all.references.skip(self.ref_pos as int).skip(0) =~= all.references.skip(
                self.ref_pos as int,
            ));
        }
        self.pos = len - left;
        Ok(v)
    }

    /// Reads a value from the bits as its type encodes it.
    pub fn unpack<T: BitUnpack>(&mut self) -> (r: Result<T, Error>)
        requires
            old(self).wf(),
        ensures
            parse_outcome(
                *old(self),
                *final(self),
                r,
                bits_taken(T::decode(old(self).deep_view().data)),
            ),
            r is Err ==> *final(self) == *old(self),
    {
        self.unpack_as::<T, Same>()
    }

    /// Takes all bits that are left.
    pub fn take_bits(&mut self) -> (bits: Bits)
        requires
            old(self).wf(),
        ensures
            final(self).wf(),
            bits@ == old(self).deep_view().data,
            final(self).deep_view() == old(self).deep_view().skip(
                old(self).deep_view().data.len(),
                0,
            ),
    {
        let len = self.cell.data.len();
        let bits = self.cell.data.part(self.pos, len);
        proof {
            let all = cell_view(*self.cell);
            assert(all.data.subrange(self.pos as int, len as int) =~= all.data.skip(
                self.pos as int,
            ));
            assert(all.data.skip(self.pos as int).skip(len - self.pos) =~= all.data.skip(
                len as int,
            ));
            assert(all.references.skip(self.ref_pos as int).skip(0) =~= all.references.skip(
                self.ref_pos as int,
            ));
        }
        self.pos = len;
        bits
    }
}

impl<'a> BitReader for CellParser<'a> {
    open spec fn wf(&self) -> bool {
        self.inv()
    }

    open spec fn remaining(&self) -> Seq<bool> {
        self.deep_view().data
    }

    fn bits_left(&self) -> (n: usize) {
        let ghost _own = (self.wf(), self.remaining());
        self.cell.data.len() - self.pos
    }

    fn read_bit(&mut self) -> (r: Result<bool, Error>)
        ensures
            final(self).deep_view().references == old(self).deep_view().references,
            r is Err ==> *final(self) == *old(self),
    {
        let ghost _own = (self.wf(), self.remaining());
        let len = self.cell.data.len();
        match self.cell.data.get(self.pos) {
            Some(bit) => {
                proof {
                    let all = cell_view(*self.cell).data;
                    assert(all.skip(self.pos as int).skip(1) =~= all.skip(self.pos + 1));
                }
                self.pos = self.pos + 1;
                Ok(bit)
            },
            None => Err(Error::new(ErrorKind::Exhaustion)),
        }
    }
}

} // verus!
