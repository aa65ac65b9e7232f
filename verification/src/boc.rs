//! Bags of cells: graphs of cells with their roots, and their layout as
//! bytes.

use crate::boc_de::{cells_view, matches_spec, numbers_view, read_bag};
use crate::boc_graph::{
    arena_ok, in_range, intern_all, lemma_intern_all, link, mirror, mirror_bag, number_all,
    resolve,
};
use crate::boc_ser::{RawBag, serialize_bag};
use crate::boc_wire::{
    BagOfCellsArgs, RawBagView, bag_bytes, bag_ok, cell_ok, lemma_parse_bag_ok, parse_bag,
    refs_forward,
};
use crate::bytes::{byte_range, lemma_byte_range_step};
use crate::cell::{Cell, CellView};
use crate::error::{Error, ErrorKind, Failure};
use std::sync::Arc;
use vstd::arithmetic::power2::{lemma2_to64, lemma2_to64_rest};
use vstd::prelude::*;

verus! {

/// A graph of cells, given by its roots in their order.
#[derive(Debug)]
pub struct BagOfCells {
    roots: Vec<Arc<Cell>>,
}

/// A graph of cells, given by its roots in their order.
pub type BoC = BagOfCells;

impl DeepView for BagOfCells {
    type V = Seq<CellView>;

    /// What the roots hold, in their order.
    closed spec fn deep_view(&self) -> Seq<CellView> {
        self.roots.deep_view()
    }
}

/// The numbered list of the cells of a graph, each cell after those that it
/// refers to, and the numbers of the roots.
pub open spec fn flatten(roots: Seq<CellView>) -> RawBagView {
    let (cells, numbers) = intern_all(Seq::empty(), roots, roots.len());
    RawBagView { cells, roots: numbers }
}

/// Whether a graph can be laid out as bytes: it has a root, all of its cells
/// keep to the limits of a cell, and it has no more roots than cells and
/// fewer than 2^32 cells.
pub open spec fn encodable(roots: Seq<CellView>) -> bool {
    &&& roots.len() >= 1
    &&& forall|j: int| 0 <= j < roots.len() ==> (#[trigger] roots[j]).wf()
    &&& roots.len() <= flatten(roots).cells.len()
    &&& flatten(roots).cells.len() < byte_range(4)
}

/// The bytes of a graph.
pub open spec fn boc_bytes(roots: Seq<CellView>, args: BagOfCellsArgs) -> Seq<u8> {
    bag_bytes(mirror(flatten(roots)), args)
}

/// The roots of a bag that was laid out.
pub open spec fn linked(wire: RawBagView) -> Seq<CellView> {
    let arena = mirror(wire);
    Seq::new(arena.roots.len(), |j: int| resolve(arena.cells, arena.roots[j]))
}

/// The graph that a byte string lays out from its first byte to its last.
pub open spec fn boc_parse(bytes: Seq<u8>) -> Result<Seq<CellView>, Failure> {
    match parse_bag(bytes) {
        Err(e) => Err(e),
        Ok(wire) => Ok(linked(wire)),
    }
}

/// The numbered list of a graph is in order, and its numbers stand for the
/// cells of the graph.
pub proof fn lemma_flatten(roots: Seq<CellView>)
    requires
        forall|j: int| 0 <= j < roots.len() ==> (#[trigger] roots[j]).wf(),
    ensures
        arena_ok(flatten(roots).cells),
        in_range(flatten(roots)),
        flatten(roots).roots.len() == roots.len(),
        forall|j: int|
            0 <= j < roots.len() ==> resolve(flatten(roots).cells, #[trigger] flatten(roots).roots[j])
                == roots[j],
{
    lemma_intern_all(Seq::empty(), roots, roots.len());
    let bag = flatten(roots);
    assert forall|i: int, j: int|
        0 <= i < bag.cells.len() && 0 <= j < bag.cells[i].refs.len() implies (
    #[trigger] bag.cells[i].refs[j]) < bag.cells.len() by {
        assert(bag.cells[i].refs[j] < i);
    }
}

/// A list in order, turned around, can be laid out.
pub proof fn lemma_mirror_ok(bag: RawBagView)
    requires
        arena_ok(bag.cells),
        in_range(bag),
        1 <= bag.roots.len() <= bag.cells.len(),
        bag.cells.len() < byte_range(4),
    ensures
        bag_ok(mirror(bag)),
{
    let n = bag.cells.len();
    let wire = mirror(bag);
    assert forall|i: int| 0 <= i < wire.cells.len() implies cell_ok(
        #[trigger] wire.cells[i],
        i as nat,
        wire.cells.len(),
    ) by {
        let from = bag.cells[n - 1 - i];
        assert forall|j: int| 0 <= j < wire.cells[i].refs.len() implies i < (
        #[trigger] wire.cells[i].refs[j]) < n by {
            assert(bag.cells[n - 1 - i].refs[j] < n - 1 - i);
        }
    }
    assert forall|j: int| 0 <= j < wire.roots.len() implies (#[trigger] wire.roots[j]) < n by {
        assert(bag.roots[j] < n);
    }
}

/// A bag whose cells refer to later cells only, turned around, has cells
/// that refer to earlier cells only.
pub proof fn lemma_mirror_backward(wire: RawBagView)
    requires
        refs_forward(wire.cells, wire.cells.len()),
        forall|j: int| 0 <= j < wire.roots.len() ==> (#[trigger] wire.roots[j]) < wire.cells.len(),
    ensures
        in_range(wire),
        forall|i: int, j: int|
            0 <= i < mirror(wire).cells.len() && 0 <= j < mirror(wire).cells[i].refs.len() ==> (
            #[trigger] mirror(wire).cells[i].refs[j]) < i,
        forall|j: int|
            0 <= j < mirror(wire).roots.len() ==> (#[trigger] mirror(wire).roots[j]) < mirror(
                wire,
            ).cells.len(),
{
    let n = wire.cells.len();
    let arena = mirror(wire);
    assert forall|i: int, j: int|
        0 <= i < wire.cells.len() && 0 <= j < wire.cells[i].refs.len() implies (
    #[trigger] wire.cells[i].refs[j]) < wire.cells.len() by {
        assert(wire.cells[i].refs.len() <= 4);
    }
    assert forall|i: int, j: int|
        0 <= i < arena.cells.len() && 0 <= j < arena.cells[i].refs.len() implies (
    #[trigger] arena.cells[i].refs[j]) < i by {
        let from = wire.cells[n - 1 - i];
        assert(from.refs.len() <= 4);
        assert(n - 1 - i < from.refs[j]);
    }
    assert forall|j: int| 0 <= j < arena.roots.len() implies (#[trigger] arena.roots[j]) < n by {
        assert(wire.roots[j] < n);
    }
}

impl BagOfCells {
    /// A bag without roots.
    pub fn new() -> (b: BagOfCells)
        ensures
            b.deep_view() == Seq::<CellView>::empty(),
    {
        let b = BagOfCells { roots: Vec::new() };
        assert(b.deep_view() =~= Seq::<CellView>::empty());
        b
    }

    /// The bag with one root.
    pub fn from_root(root: Arc<Cell>) -> (b: BagOfCells)
        ensures
            b.deep_view() == seq![root.deep_view()],
    {
        let mut roots: Vec<Arc<Cell>> = Vec::new();
        roots.push(root);
        let b = BagOfCells { roots };
        assert(b.deep_view() =~= seq![root.deep_view()]);
        b
    }

    /// Adds a root after those that the bag has.
    pub fn add_root(&mut self, root: Arc<Cell>)
        ensures
            final(self).deep_view() == old(self).deep_view().push(root.deep_view()),
    {
        self.roots.push(root);
        assert(self.deep_view() =~= old(self).deep_view().push(root.deep_view()));
    }

    /// The number of roots.
    pub fn roots_len(&self) -> (n: usize)
        ensures
            n == self.deep_view().len(),
    {
        self.roots.len()
    }

    /// The root at a position, if there is one.
    pub fn root(&self, i: usize) -> (r: Option<&Arc<Cell>>)
        ensures
            r is Some <==> i < self.deep_view().len(),
            r matches Some(c) ==> c.deep_view() == self.deep_view()[i as int],
    {
        if i < self.roots.len() {
            Some(&self.roots[i])
        } else {
            None
        }
    }

    /// The root of a bag that has exactly one; `None` for every other bag.
    pub fn single_root(&self) -> (r: Option<&Arc<Cell>>)
        ensures
            r is Some <==> self.deep_view().len() == 1,
            r matches Some(c) ==> c.deep_view() == self.deep_view()[0],
    {
        if self.roots.len() == 1 {
            Some(&self.roots[0])
        } else {
            None
        }
    }

    /// Lays the bag out as bytes; an error of kind `Custom` where it cannot
    /// be laid out.
    pub fn serialize(&self, args: BagOfCellsArgs) -> (r: Result<Vec<u8>, Error>)
        ensures
            r is Ok <==> encodable(self.deep_view()),
            r matches Ok(bytes) ==> bytes@ == boc_bytes(self.deep_view(), args),
            r matches Err(e) ==> e@ == Failure::of(ErrorKind::Custom),
    {
        let ghost view = self.deep_view();
        proof {
            assert forall|j: int| 0 <= j < view.len() implies (#[trigger] view[j])
                == self.roots@[j].deep_view() by {}
        }
        let (cells, roots) = match number_all(&self.roots) {
            Ok(found) => found,
            Err(e) => {
                proof {
                    if encodable(view) {
                        assert forall|j: int| 0 <= j < self.roots@.len() implies (
                        #[trigger] self.roots@[j]).deep_view().wf() by {
                            assert(view[j].wf());
                        }
                    }
                }
                return Err(e);
            },
        };
        let arena = RawBag { cells, roots };
        proof {
            assert(arena.deep_view().cells =~= cells_view(arena.cells@));
            assert(arena.deep_view().roots =~= numbers_view(arena.roots@));
            assert(arena.deep_view() == flatten(view));
            assert forall|j: int| 0 <= j < view.len() implies (#[trigger] view[j]).wf() by {
                assert(self.roots@[j].deep_view().wf());
            }
            lemma_flatten(view);
            lemma_byte_range_step(0);
            lemma_byte_range_step(1);
            lemma_byte_range_step(2);
            lemma_byte_range_step(3);
            lemma2_to64();
            lemma2_to64_rest();
        }
        let n = arena.cells.len();
        if arena.roots.len() < 1 || arena.roots.len() > n || n as u64 >= 0x1_0000_0000 {
            return Err(Error::new(ErrorKind::Custom));
        }
        proof {
            lemma_mirror_ok(arena.deep_view());
        }
        let wire = mirror_bag(&arena);
        Ok(serialize_bag(&wire, args))
    }

    /// Reads the bag that a byte string lays out from its first byte to its
    /// last.
    pub fn parse(bytes: &[u8]) -> (r: Result<BagOfCells, Error>)
        ensures
            matches_spec(r, boc_parse(bytes@)),
    {
        let wire = read_bag(bytes)?;
        proof {
            lemma_parse_bag_ok(bytes@);
            lemma_mirror_backward(wire.deep_view());
        }
        let arena = mirror_bag(&wire);
        proof {
            let view = arena.deep_view();
            assert forall|i: int, j: int|
                0 <= i < arena.cells@.len() && 0 <= j < arena.cells@[i].refs@.len() implies (
            #[trigger] arena.cells@[i].refs@[j]) < i by {
                assert(view.cells[i].refs[j] < i);
            }
            assert forall|j: int| 0 <= j < arena.roots@.len() implies (#[trigger] arena.roots@[j])
                < arena.cells@.len() by {
                assert(view.roots[j] < view.cells.len());
            }
        }
        let roots = link(&arena.cells, &arena.roots);
        let bag = BagOfCells { roots };
        proof {
            let view = arena.deep_view();
            assert(view.cells =~= cells_view(arena.cells@));
            assert(bag.deep_view() =~= linked(wire.deep_view())) by {
                assert forall|j: int| 0 <= j < bag.roots@.len() implies bag.deep_view()[j]
                    == linked(wire.deep_view())[j] by {
                    assert(bag.roots@[j].deep_view() == resolve(
                        cells_view(arena.cells@),
                        arena.roots@[j] as nat,
                    ));
                    assert(view.roots[j] == arena.roots@[j] as nat);
                }
            }
        }
        Ok(bag)
    }
}

} // verus!
