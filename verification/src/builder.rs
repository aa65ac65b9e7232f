//! Building a cell: bits and references are appended until the cell is
//! finished.

use crate::cell::{Cell, CellView, MAX_BITS_LEN, MAX_REFS_COUNT, cell_view, share};
use crate::error::{Error, ErrorKind, Failure};
use crate::sequence::{all_packable_as, concat, encodings_as, first_failure, pack_many_as};
use crate::ser::{BitPack, BitPackWithArgs};
use crate::ser_as::{BitPackAs, BitPackAsWithArgs, Same};
use crate::storage::Bits;
use crate::writer::{BitWriter, LimitWriter};
use std::sync::Arc;
use vstd::prelude::*;

verus! {

/// A cell in the making.
///
/// It never holds more than 1023 bits or more than four references: what
/// would take it over a limit fails and changes nothing.
pub struct CellBuilder {
    data: Bits,
    references: Vec<Arc<Cell>>,
}

impl DeepView for CellBuilder {
    type V = CellView;

    closed spec fn deep_view(&self) -> CellView {
        CellView {
            data: self.data@,
            references: Seq::new(
                self.references@.len(),
                |i: int| cell_view(*self.references@[i]),
            ),
        }
    }
}

/// The bits of a value as a piece of a cell: no references.
pub open spec fn bits_only(bits: Seq<bool>) -> CellView {
    CellView { data: bits, references: Seq::empty() }
}

/// One reference as a piece of a cell: no bits.
pub open spec fn reference_only(cell: CellView) -> CellView {
    CellView { data: Seq::empty(), references: seq![cell] }
}

/// Whether a piece fits into what is left of a cell.
pub open spec fn fits_after(before: CellView, piece: CellView) -> bool {
    &&& before.data.len() + piece.data.len() <= MAX_BITS_LEN
    &&& before.references.len() + piece.references.len() <= MAX_REFS_COUNT
}

/// The room for bits that is left after what a builder holds.
pub open spec fn bits_room(before: CellView) -> nat {
    (MAX_BITS_LEN - before.data.len()) as nat
}

/// Whether a value can be stored after what a builder holds: it has a
/// piece, and the piece fits.
pub open spec fn storable_after(storable: bool, before: CellView, piece: CellView) -> bool {
    storable && fits_after(before, piece)
}

/// What storing a value that stands for `piece` does to a builder: it
/// succeeds if and only if the value can be stored and the piece fits, and
/// then appends exactly the piece; a failed store leaves the builder as it
/// was.
pub open spec fn store_outcome(
    before: CellBuilder,
    after: CellBuilder,
    r: Result<(), Error>,
    storable: bool,
    piece: CellView,
) -> bool {
    &&& after.wf()
    &&& (r is Ok <==> storable && fits_after(before.deep_view(), piece))
    &&& (r is Ok ==> after.deep_view() == before.deep_view().append(piece))
    &&& (r matches Err(e) ==> e.kind == ErrorKind::Capacity || (e.kind == ErrorKind::Custom
        && !storable))
    &&& (r is Err ==> after == before)
}

impl CellBuilder {
    /// Whether the builder keeps to the limits of a cell.
    pub open spec fn inv(&self) -> bool {
        &&& self.deep_view().data.len() <= MAX_BITS_LEN
        &&& self.deep_view().references.len() <= MAX_REFS_COUNT
    }

    /// A builder that holds nothing yet.
    pub fn new() -> (b: CellBuilder)
        ensures
            b.wf(),
            b.deep_view() == CellView::empty(),
    {
        let b = CellBuilder { data: Bits::new(), references: Vec::new() };
        assert(b.deep_view().references =~= Seq::<CellView>::empty());
        b
    }

    /// A builder of its own that holds what this one holds.
    pub(crate) fn snapshot(&self) -> (b: CellBuilder)
        ensures
            b.deep_view() == self.deep_view(),
    {
        let mut references: Vec<Arc<Cell>> = Vec::new();
        let n = self.references.len();
        let mut i: usize = 0;
        while i < n
            invariant
                i <= n,
                n == self.references@.len(),
                references@ == self.references@.take(i as int),
            decreases n - i,
        {
            references.push(share(&self.references[i]));
            proof {
                assert(self.references@.take(i as int).push(self.references@[i as int])
                    =~= self.references@.take(i + 1));
            }
            i = i + 1;
        }
        proof {
            assert(self.references@.take(n as int) =~= self.references@);
        }
        let b = CellBuilder { data: self.data.copy(), references };
        assert(b.deep_view().references =~= self.deep_view().references);
        b
    }

    /// The number of bits held.
    pub fn bits_len(&self) -> (n: usize)
        ensures
            n == self.deep_view().data.len(),
    {
        self.data.len()
    }

    /// The number of references held.
    pub fn references_len(&self) -> (n: usize)
        ensures
            n == self.deep_view().references.len(),
    {
        self.references.len()
    }

    /// Appends bits that were written somewhere else.
    fn append_bits(&mut self, bits: &Bits) -> (r: Result<(), Error>)
        requires
            old(self).wf(),
        ensures
            store_outcome(*old(self), *final(self), r, true, bits_only(bits@)),
            r is Err ==> *final(self) == *old(self),
            r matches Err(e) ==> e@ == Failure::of(ErrorKind::Capacity),
    {
        let n = self.data.len();
        let m = bits.len();
        if n > MAX_BITS_LEN || m > MAX_BITS_LEN - n {
            return Err(Error::new(ErrorKind::Capacity));
        }
        let ghost before = self.deep_view();
        let done = self.data.extend(bits);
        proof {
            assert(done);
            assert(self.deep_view().references =~= before.references + Seq::<CellView>::empty());
            assert(self.deep_view() == before.append(bits_only(bits@)));
        }
        Ok(())
    }

    /// Appends a reference to a finished cell.
    pub fn store_reference(&mut self, cell: Arc<Cell>) -> (r: Result<(), Error>)
        requires
            old(self).wf(),
        ensures
            store_outcome(*old(self), *final(self), r, true, reference_only(cell.deep_view())),
            r is Err ==> *final(self) == *old(self),
    {
        if self.references.len() >= MAX_REFS_COUNT {
            return Err(Error::new(ErrorKind::Capacity));
        }
        let ghost before = self.deep_view();
        self.references.push(cell);
        proof {
            assert(self.deep_view().references =~= before.references + seq![cell.deep_view()]);
            assert(self.deep_view().data =~= before.data + Seq::<bool>::empty());
            assert(self.deep_view() == before.append(reference_only(cell.deep_view())));
        }
        Ok(())
    }

    /// Appends the bits of a value as its type encodes it.
    pub fn pack<T: BitPack>(&mut self, value: T) -> (r: Result<(), Error>)
        requires
            old(self).wf(),
        ensures
            store_outcome(
                *old(self),
                *final(self),
                r,
                T::packable(value.deep_view()),
                bits_only(T::encoding(value.deep_view())),
            ),
            r is Err ==> *final(self) == *old(self),
            r matches Err(e) ==> e@ == T::failure(
                value.deep_view(),
                bits_room(old(self).deep_view()),
            ),
    {
        self.pack_as::<T, Same>(value)
    }

    /// Appends the bits of a value as the strategy `As` encodes it.
    pub fn pack_as<T: DeepView, As: BitPackAs<T> + ?Sized>(&mut self, value: T) -> (r: Result<
        (),
        Error,
    >)
        requires
            old(self).wf(),
        ensures
            store_outcome(
                *old(self),
                *final(self),
                r,
                As::packable_as(value.deep_view()),
                bits_only(As::encoding_as(value.deep_view())),
            ),
            r is Err ==> *final(self) == *old(self),
            r matches Err(e) ==> e@ == As::failure_as(
                value.deep_view(),
                bits_room(old(self).deep_view()),
            ),
    {
        let mut scratch = self.scratch();
        As::pack_as(&value, &mut scratch)?;
        let bits = scratch.into_inner();
        self.append_bits(&bits)
    }

    /// Appends the bits of a value as its type encodes it with the given
    /// arguments.
    pub fn pack_with<T: BitPackWithArgs>(&mut self, value: T, args: T::Args) -> (r: Result<
        (),
        Error,
    >)
        requires
            old(self).wf(),
        ensures
            store_outcome(
                *old(self),
                *final(self),
                r,
                T::packable_with(value.deep_view(), args),
                bits_only(T::encoding_with(value.deep_view(), args)),
            ),
            r is Err ==> *final(self) == *old(self),
            r matches Err(e) ==> e@ == T::failure_with(
                value.deep_view(),
                args,
                bits_room(old(self).deep_view()),
            ),
    {
        let mut scratch = self.scratch();
        value.pack_with(&mut scratch, args)?;
        let bits = scratch.into_inner();
        self.append_bits(&bits)
    }

    /// Appends the bits of a value as the strategy `As` encodes it with the
    /// given arguments.
    pub fn pack_as_with<T: DeepView, As: BitPackAsWithArgs<T> + ?Sized>(
        &mut self,
        value: T,
        args: As::Args,
    ) -> (r: Result<(), Error>)
        requires
            old(self).wf(),
        ensures
            store_outcome(
                *old(self),
                *final(self),
                r,
                As::packable_as_with(value.deep_view(), args),
                bits_only(As::encoding_as_with(value.deep_view(), args)),
            ),
            r is Err ==> *final(self) == *old(self),
            r matches Err(e) ==> e@ == As::failure_as_with(
                value.deep_view(),
                args,
                bits_room(old(self).deep_view()),
            ),
    {
        let mut scratch = self.scratch();
        As::pack_as_with(&value, &mut scratch, args)?;
        let bits = scratch.into_inner();
        self.append_bits(&bits)
    }

    /// Appends the bits of the values of a slice, each as the strategy `As`
    /// encodes it.
    pub fn pack_many_as<T: DeepView, As: BitPackAs<T>>(&mut self, values: &[T]) -> (r: Result<
        (),
        Error,
    >)
        requires
            old(self).wf(),
        ensures
            store_outcome(
                *old(self),
                *final(self),
                r,
                all_packable_as::<T, As>(values.deep_view()),
                bits_only(concat(encodings_as::<T, As>(values.deep_view()))),
            ),
            r is Err ==> *final(self) == *old(self),
            r matches Err(e) ==> e@ == first_failure::<T, As>(
                values.deep_view(),
                bits_room(old(self).deep_view()),
                0,
            ),
    {
        let mut scratch = self.scratch();
        pack_many_as::<T, As, LimitWriter<Bits>>(&mut scratch, values)?;
        let bits = scratch.into_inner();
        self.append_bits(&bits)
    }

    /// An empty writer with as much room as this builder has left for bits.
    fn scratch(&self) -> (w: LimitWriter<Bits>)
        requires
            self.wf(),
        ensures
            w.wf(),
            w.written() == Seq::<bool>::empty(),
            w.room() == MAX_BITS_LEN - self.deep_view().data.len(),
    {
        let left = MAX_BITS_LEN - self.data.len();
        LimitWriter::new(Bits::new(), left)
    }

    /// The finished cell.
    pub fn into_cell(self) -> (c: Cell)
        requires
            self.wf(),
        ensures
            c.deep_view() == self.deep_view(),
            c.deep_view().data.len() <= MAX_BITS_LEN,
            c.deep_view().references.len() <= MAX_REFS_COUNT,
    {
        let c = Cell { data: self.data, references: self.references };
        assert(c.deep_view().references =~= self.deep_view().references);
        c
    }
}

impl BitWriter for CellBuilder {
    open spec fn wf(&self) -> bool {
        self.inv()
    }

    open spec fn written(&self) -> Seq<bool> {
        self.deep_view().data
    }

    open spec fn room(&self) -> nat {
        (MAX_BITS_LEN - self.deep_view().data.len()) as nat
    }

    open spec fn plain(&self) -> bool {
        true
    }

    fn write_bit(&mut self, bit: bool) -> (r: Result<(), Error>)
        ensures
            final(self).deep_view().references == old(self).deep_view().references,
            r is Err ==> *final(self) == *old(self),
    {
        let ghost _own = (self.wf(), self.written(), self.room(), self.plain());
        if self.data.len() >= MAX_BITS_LEN {
            return Err(Error::new(ErrorKind::Capacity));
        }
        let _ = self.data.push(bit);
        Ok(())
    }

    fn write_bitslice(&mut self, bits: &Bits) -> (r: Result<(), Error>)
        ensures
            final(self).deep_view().references == old(self).deep_view().references,
            r is Err ==> *final(self) == *old(self),
    {
        let ghost _own = (self.wf(), self.written(), self.room(), self.plain());
        let n = self.data.len();
        if n > MAX_BITS_LEN || bits.len() > MAX_BITS_LEN - n {
            return Err(Error::new(ErrorKind::Capacity));
        }
        let _ = self.data.extend(bits);
        Ok(())
    }

    fn repeat_bit(&mut self, n: usize, bit: bool) -> (r: Result<(), Error>)
        ensures
            final(self).deep_view().references == old(self).deep_view().references,
            r is Err ==> *final(self) == *old(self),
    {
        let ghost _own = (self.wf(), self.written(), self.room(), self.plain());
        let len = self.data.len();
        if len > MAX_BITS_LEN || n > MAX_BITS_LEN - len {
            return Err(Error::new(ErrorKind::Capacity));
        }
        let _ = self.data.extend_repeat(n, bit);
        Ok(())
    }
}

} // verus!
