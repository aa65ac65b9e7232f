//! Cells: up to 1023 bits of data and up to four references to other cells.

use crate::storage::Bits;
use std::sync::Arc;
use vstd::prelude::*;

verus! {

/// `Arc::clone`: one more pointer to the same cell.
#[verifier::external_body]
pub(crate) fn share(cell: &Arc<Cell>) -> (res: Arc<Cell>)
    ensures
        res == *cell,
{
    Arc::clone(cell)
}

/// The most bits of data that a cell holds.
pub const MAX_BITS_LEN: usize = 1023;

/// The most references that a cell holds.
pub const MAX_REFS_COUNT: usize = 4;

/// A cell. Once built it is not changed; several cells may refer to the same
/// one.
#[derive(Debug, PartialEq, Eq)]
pub struct Cell {
    pub data: Bits,
    pub references: Vec<Arc<Cell>>,
}

/// What a cell holds: its bits, and what the cells hold that it refers to.
pub ghost struct CellView {
    pub data: Seq<bool>,
    pub references: Seq<CellView>,
}

/// What a cell holds.
pub open spec fn cell_view(cell: Cell) -> CellView
    decreases cell,
{
    CellView {
        data: cell.data@,
        references: Seq::new(
            cell.references@.len(),
            |i: int|
                if 0 <= i < cell.references@.len() {
                    cell_view(*cell.references@[i])
                } else {
                    arbitrary()
                },
        ),
    }
}

impl DeepView for Cell {
    type V = CellView;

    open spec fn deep_view(&self) -> CellView {
        cell_view(*self)
    }
}

impl CellView {
    /// A cell without bits and without references.
    pub open spec fn empty() -> CellView {
        CellView { data: Seq::empty(), references: Seq::empty() }
    }

    /// Whether this cell and all cells below it keep to the limits.
    pub open spec fn wf(self) -> bool
        decreases self,
    {
        &&& self.data.len() <= MAX_BITS_LEN
        &&& self.references.len() <= MAX_REFS_COUNT
        &&& forall|i: int|
            0 <= i < self.references.len() ==> (#[trigger] self.references[i]).wf()
    }

    /// The bits and references of this cell followed by those of another.
    pub open spec fn append(self, other: CellView) -> CellView {
        CellView {
            data: self.data + other.data,
            references: self.references + other.references,
        }
    }
}

/// `Arc::ptr_eq`: whether two pointers lead to the same allocation. If they
/// do, they lead to the same cell; if they do not, the cells may still be
/// equal.
#[verifier::external_body]
pub(crate) fn same_allocation(a: &Arc<Cell>, b: &Arc<Cell>) -> (same: bool)
    ensures
        same ==> *a == *b,
{
    Arc::ptr_eq(a, b)
}

impl Clone for Cell {
    fn clone(&self) -> (c: Cell)
        ensures
            c.deep_view() == self.deep_view(),
    {
        let mut references: Vec<Arc<Cell>> = Vec::new();
        let n = self.references.len();
        let mut i: usize = 0;
        while i < n
            invariant
                i <= n,
                n == self.references@.len(),
                references@ == self.references@.take(i as int),
            decreases n - i,
        {
            references.push(share(&self.references[i]));
            proof {
                assert(self.references@.take(i as int).push(self.references@[i as int])
                    =~= self.references@.take(i + 1));
            }
            i = i + 1;
        }
        proof {
            assert(self.references@.take(n as int) =~= self.references@);
        }
        let c = Cell { data: self.data.copy(), references };
        assert(c.deep_view().references =~= self.deep_view().references);
        c
    }
}

impl Cell {
    /// A cell without bits and without references.
    pub fn new() -> (c: Cell)
        ensures
            c.deep_view() == CellView::empty(),
    {
        let c = Cell { data: Bits::new(), references: Vec::new() };
        assert(c.deep_view().references =~= Seq::<CellView>::empty());
        c
    }

    /// Whether the cell has neither bits nor references.
    pub fn is_empty(&self) -> (b: bool)
        ensures
            b == (self.deep_view() == CellView::empty()),
    {
        let b = self.data.is_empty() && self.references.len() == 0;
        proof {
            let v = self.deep_view();
            if b {
                assert(v.references =~= Seq::<CellView>::empty());
                assert(v.data =~= Seq::<bool>::empty());
            } else {
                assert(v.data.len() > 0 || v.references.len() > 0);
            }
        }
        b
    }

    /// The number of bits of data.
    pub fn bits_len(&self) -> (n: usize)
        ensures
            n == self.deep_view().data.len(),
    {
        self.data.len()
    }

    /// The cell that the reference at a position leads to, if there is one.
    pub fn reference(&self, i: usize) -> (r: Option<&Arc<Cell>>)
        ensures
            r is Some <==> i < self.deep_view().references.len(),
            r matches Some(c) ==> c.deep_view() == self.deep_view().references[i as int],
    {
        if i < self.references.len() {
            Some(&self.references[i])
        } else {
            None
        }
    }
}

} // verus!
