//! From a graph of cells to a numbered list of cells, and back.
//!
//! Cells are numbered depth first: a cell gets its number once all cells
//! that it refers to have theirs, the references taken in their order, and
//! a cell that is equal to a numbered one shares its number. So every cell
//! of the list refers to cells before it, and no two cells of the list are
//! equal.

use crate::boc_de::{cells_view, numbers_view};
use crate::boc_ser::{RawBag, RawCell};
use crate::boc_wire::{RawBagView, RawCellView};
use crate::cell::{Cell, CellView, MAX_BITS_LEN, MAX_REFS_COUNT, same_allocation, share};
use crate::error::{Error, ErrorKind, Failure};
use std::sync::Arc;
use vstd::prelude::*;

verus! {

/// The first place from `from` on at which a list holds a cell.
pub open spec fn find_from(arena: Seq<RawCellView>, entry: RawCellView, from: nat) -> Option<nat>
    decreases arena.len() - from,
{
    if from >= arena.len() {
        None
    } else if arena[from as int] == entry {
        Some(from)
    } else {
        find_from(arena, entry, from + 1)
    }
}

/// The list with a cell and all cells below it numbered, and the number of
/// the cell.
pub open spec fn intern(arena: Seq<RawCellView>, cell: CellView) -> (Seq<RawCellView>, nat)
    decreases cell, 1nat, 0nat,
{
    let (grown, refs) = intern_refs(arena, cell, cell.references.len());
    let entry = RawCellView { data: cell.data, refs };
    match find_from(grown, entry, 0) {
        Some(i) => (grown, i),
        None => (grown.push(entry), grown.len()),
    }
}

/// The list with the cells numbered that the first `k` references of a
/// cell lead to, and their numbers.
pub open spec fn intern_refs(arena: Seq<RawCellView>, cell: CellView, k: nat) -> (
    Seq<RawCellView>,
    Seq<nat>,
)
    decreases cell, 0nat, k,
{
    if k == 0 || k > cell.references.len() {
        (arena, Seq::empty())
    } else {
        let (grown, front) = intern_refs(arena, cell, (k - 1) as nat);
        let (more, i) = intern(grown, cell.references[k - 1]);
        (more, front.push(i))
    }
}

/// The list with the first `k` cells of a sequence numbered, and their
/// numbers.
pub open spec fn intern_all(arena: Seq<RawCellView>, cells: Seq<CellView>, k: nat) -> (
    Seq<RawCellView>,
    Seq<nat>,
)
    decreases k,
{
    if k == 0 || k > cells.len() {
        (arena, Seq::empty())
    } else {
        let (grown, front) = intern_all(arena, cells, (k - 1) as nat);
        let (more, i) = intern(grown, cells[k - 1]);
        (more, front.push(i))
    }
}

/// Whether every cell of a list keeps to the limits of a cell, refers only
/// to cells before it, and differs from every other cell of the list.
pub open spec fn arena_ok(arena: Seq<RawCellView>) -> bool {
    &&& forall|i: int|
        0 <= i < arena.len() ==> (#[trigger] arena[i]).data.len() <= MAX_BITS_LEN && arena[i].refs.len()
            <= MAX_REFS_COUNT
    &&& forall|i: int, j: int|
        0 <= i < arena.len() && 0 <= j < arena[i].refs.len() ==> (#[trigger] arena[i].refs[j]) < i
    &&& forall|i: int, j: int|
        0 <= i < arena.len() && 0 <= j < arena.len() && i != j ==> #[trigger] arena[i]
            != #[trigger] arena[j]
}

/// The cell that a number stands for.
pub open spec fn resolve(arena: Seq<RawCellView>, i: nat) -> CellView
    decreases i,
{
    if i >= arena.len() {
        CellView::empty()
    } else {
        CellView {
            data: arena[i as int].data,
            references: Seq::new(
                arena[i as int].refs.len(),
                |j: int|
                    if 0 <= j < arena[i as int].refs.len() && arena[i as int].refs[j] < i {
                        resolve(arena, arena[i as int].refs[j])
                    } else {
                        CellView::empty()
                    },
            ),
        }
    }
}

/// Where nothing is found, the cell is nowhere in the list; where a place
/// is found, the cell is there.
pub proof fn lemma_find_from(arena: Seq<RawCellView>, entry: RawCellView, from: nat)
    ensures
        match find_from(arena, entry, from) {
            Some(i) => from <= i < arena.len() && arena[i as int] == entry,
            None => forall|i: int| from <= i < arena.len() ==> arena[i] != entry,
        },
    decreases arena.len() - from,
{
    if from < arena.len() && arena[from as int] != entry {
        lemma_find_from(arena, entry, from + 1);
    }
}

/// A number stands for the same cell in every list that starts with the
/// list in which the number was given.
pub proof fn lemma_resolve_stable(arena: Seq<RawCellView>, longer: Seq<RawCellView>, i: nat)
    requires
        arena.len() <= longer.len(),
        longer.take(arena.len() as int) == arena,
        i < arena.len(),
    ensures
        resolve(longer, i) == resolve(arena, i),
    decreases i,
{
    assert(longer[i as int] == arena[i as int]) by {
        assert(longer.take(arena.len() as int)[i as int] == longer[i as int]);
    }
    let entry = arena[i as int];
    assert forall|j: int| 0 <= j < entry.refs.len() && entry.refs[j] < i implies resolve(
        longer,
        entry.refs[j],
    ) == resolve(arena, entry.refs[j]) by {
        lemma_resolve_stable(arena, longer, entry.refs[j]);
    }
    assert(resolve(longer, i).references =~= resolve(arena, i).references);
}

/// A list that starts with a list that starts with another starts with
/// that one.
pub proof fn lemma_prefix_trans(a: Seq<RawCellView>, b: Seq<RawCellView>, c: Seq<RawCellView>)
    requires
        a.len() <= b.len() <= c.len(),
        b.take(a.len() as int) == a,
        c.take(b.len() as int) == b,
    ensures
        c.take(a.len() as int) == a,
{
    assert(c.take(a.len() as int) =~= a) by {
        assert forall|i: int| 0 <= i < a.len() implies c[i] == a[i] by {
            assert(b.take(a.len() as int)[i] == b[i]);
            assert(c.take(b.len() as int)[i] == c[i]);
        }
    }
}

/// Numbering a cell keeps the list in order and gives the cell a number
/// that stands for it.
pub proof fn lemma_intern(arena: Seq<RawCellView>, cell: CellView)
    requires
        arena_ok(arena),
        cell.wf(),
    ensures
        ({
            let (grown, i) = intern(arena, cell);
            &&& arena_ok(grown)
            &&& arena.len() <= grown.len()
            &&& grown.take(arena.len() as int) == arena
            &&& i < grown.len()
            &&& resolve(grown, i) == cell
        }),
    decreases cell, 1nat, 0nat,
{
    let n = cell.references.len();
    lemma_intern_refs(arena, cell, n);
    let (grown, refs) = intern_refs(arena, cell, n);
    let entry = RawCellView { data: cell.data, refs };
    lemma_find_from(grown, entry, 0);
    match find_from(grown, entry, 0) {
        Some(i) => {
            assert(resolve(grown, i).references =~= cell.references);
        },
        None => {
            let more = grown.push(entry);
            let at = grown.len();
            assert(more.take(grown.len() as int) =~= grown);
            lemma_prefix_trans(arena, grown, more);
            assert(arena_ok(more)) by {
                assert forall|i: int, j: int|
                    0 <= i < more.len() && 0 <= j < more[i].refs.len() implies (
                #[trigger] more[i].refs[j]) < i by {
                    if i < grown.len() {
                        assert(more[i] == grown[i]);
                    }
                }
                assert forall|i: int, j: int|
                    0 <= i < more.len() && 0 <= j < more.len() && i != j implies #[trigger] more[i]
                    != #[trigger] more[j] by {
                    if i < grown.len() {
                        assert(more[i] == grown[i]);
                    }
                    if j < grown.len() {
                        assert(more[j] == grown[j]);
                    }
                }
                assert forall|i: int| 0 <= i < more.len() implies (#[trigger] more[i]).data.len()
                    <= MAX_BITS_LEN && more[i].refs.len() <= MAX_REFS_COUNT by {
                    if i < grown.len() {
                        assert(more[i] == grown[i]);
                    }
                }
            }
            assert forall|j: int| 0 <= j < n implies resolve(more, refs[j]) == cell.references[j] by {
                lemma_resolve_stable(grown, more, refs[j]);
            }
            assert(resolve(more, at).references =~= cell.references);
        },
    }
}

/// Numbering the cells that a cell refers to keeps the list in order and
/// gives each of them a number that stands for it.
pub proof fn lemma_intern_refs(arena: Seq<RawCellView>, cell: CellView, k: nat)
    requires
        arena_ok(arena),
        cell.wf(),
        k <= cell.references.len(),
    ensures
        ({
            let (grown, refs) = intern_refs(arena, cell, k);
            &&& arena_ok(grown)
            &&& arena.len() <= grown.len()
            &&& grown.take(arena.len() as int) == arena
            &&& refs.len() == k
            &&& forall|j: int|
                0 <= j < k ==> (#[trigger] refs[j]) < grown.len() && resolve(grown, refs[j])
                    == cell.references[j]
        }),
    decreases cell, 0nat, k,
{
    if k == 0 {
        assert(arena.take(arena.len() as int) =~= arena);
    } else {
        lemma_intern_refs(arena, cell, (k - 1) as nat);
        let (grown, front) = intern_refs(arena, cell, (k - 1) as nat);
        assert(cell.references[k - 1].wf());
        lemma_intern(grown, cell.references[k - 1]);
        let (more, i) = intern(grown, cell.references[k - 1]);
        lemma_prefix_trans(arena, grown, more);
        let refs = front.push(i);
        assert forall|j: int| 0 <= j < k implies (#[trigger] refs[j]) < more.len() && resolve(
            more,
            refs[j],
        ) == cell.references[j] by {
            if j < k - 1 {
                assert(refs[j] == front[j]);
                lemma_resolve_stable(grown, more, front[j]);
            }
        }
    }
}

/// Numbering the cells of a sequence keeps the list in order and gives each
/// of them a number that stands for it.
pub proof fn lemma_intern_all(arena: Seq<RawCellView>, cells: Seq<CellView>, k: nat)
    requires
        arena_ok(arena),
        forall|j: int| 0 <= j < cells.len() ==> (#[trigger] cells[j]).wf(),
        k <= cells.len(),
    ensures
        ({
            let (grown, numbers) = intern_all(arena, cells, k);
            &&& arena_ok(grown)
            &&& arena.len() <= grown.len()
            &&& grown.take(arena.len() as int) == arena
            &&& numbers.len() == k
            &&& forall|j: int|
                0 <= j < k ==> (#[trigger] numbers[j]) < grown.len() && resolve(grown, numbers[j])
                    == cells[j]
        }),
    decreases k,
{
    if k == 0 {
        assert(arena.take(arena.len() as int) =~= arena);
    } else {
        lemma_intern_all(arena, cells, (k - 1) as nat);
        let (grown, front) = intern_all(arena, cells, (k - 1) as nat);
        lemma_intern(grown, cells[k - 1]);
        let (more, i) = intern(grown, cells[k - 1]);
        lemma_prefix_trans(arena, grown, more);
        let numbers = front.push(i);
        assert forall|j: int| 0 <= j < k implies (#[trigger] numbers[j]) < more.len() && resolve(
            more,
            numbers[j],
        ) == cells[j] by {
            if j < k - 1 {
                assert(numbers[j] == front[j]);
                lemma_resolve_stable(grown, more, front[j]);
            }
        }
    }
}

/// Numbering a cell that is numbered already changes nothing and gives the
/// number that the cell has.
pub proof fn lemma_intern_again(arena: Seq<RawCellView>, cell: CellView, i: nat)
    requires
        arena_ok(arena),
        i < arena.len(),
        resolve(arena, i) == cell,
    ensures
        intern(arena, cell) == (arena, i),
    decreases cell, 1nat, 0nat,
{
    let entry = arena[i as int];
    lemma_intern_refs_again(arena, cell, i, cell.references.len());
    assert(entry.refs.take(entry.refs.len() as int) =~= entry.refs);
    let want = RawCellView { data: cell.data, refs: entry.refs };
    assert(want == entry);
    lemma_find_from(arena, want, 0);
}

/// Numbering the cells that a numbered cell refers to changes nothing and
/// gives the numbers that these cells have.
pub proof fn lemma_intern_refs_again(arena: Seq<RawCellView>, cell: CellView, i: nat, k: nat)
    requires
        arena_ok(arena),
        i < arena.len(),
        resolve(arena, i) == cell,
        k <= cell.references.len(),
    ensures
        cell.references.len() == arena[i as int].refs.len(),
        intern_refs(arena, cell, k) == (arena, arena[i as int].refs.take(k as int)),
    decreases cell, 0nat, k,
{
    let entry = arena[i as int];
    if k == 0 {
        assert(entry.refs.take(0) =~= Seq::<nat>::empty());
    } else {
        lemma_intern_refs_again(arena, cell, i, (k - 1) as nat);
        let to = entry.refs[k - 1];
        assert(to < i);
        assert(cell.references[k - 1] == resolve(arena, to));
        lemma_intern_again(arena, cell.references[k - 1], to);
        assert(entry.refs.take(k - 1).push(to) =~= entry.refs.take(k as int));
    }
}

/// In a list in order, two numbers that stand for equal cells are the same
/// number.
pub proof fn lemma_resolve_injective(arena: Seq<RawCellView>, i: nat, j: nat)
    requires
        arena_ok(arena),
        i < arena.len(),
        j < arena.len(),
        resolve(arena, i) == resolve(arena, j),
    ensures
        i == j,
    decreases i + j,
{
    let a = arena[i as int];
    let b = arena[j as int];
    let ra = resolve(arena, i);
    let rb = resolve(arena, j);
    assert(a.refs.len() == ra.references.len());
    assert(b.refs.len() == rb.references.len());
    assert forall|k: int| 0 <= k < a.refs.len() implies a.refs[k] == b.refs[k] by {
        assert(ra.references[k] == resolve(arena, a.refs[k]));
        assert(rb.references[k] == resolve(arena, b.refs[k]));
        lemma_resolve_injective(arena, a.refs[k], b.refs[k]);
    }
    assert(a.refs =~= b.refs);
    assert(a.data == ra.data);
    assert(b.data == rb.data);
    assert(a == b);
}

/// Whether a cell is a given cell or lies below it.
pub open spec fn within(top: CellView, cell: CellView) -> bool
    decreases top,
{
    top == cell || exists|k: int|
        0 <= k < top.references.len() && within(#[trigger] top.references[k], cell)
}

/// Whether a cell is in a graph: it is one of the roots or lies below one.
pub open spec fn reachable(roots: Seq<CellView>, cell: CellView) -> bool {
    exists|k: int| 0 <= k < roots.len() && within(#[trigger] roots[k], cell)
}

/// What lies below a cell that a cell refers to lies below that cell.
pub proof fn lemma_within_reference(top: CellView, k: int, cell: CellView)
    requires
        0 <= k < top.references.len(),
        within(top.references[k], cell),
    ensures
        within(top, cell),
{
}

/// Numbering a cell adds to the list only the cell and cells below it.
pub proof fn lemma_intern_adds(arena: Seq<RawCellView>, cell: CellView)
    requires
        arena_ok(arena),
        cell.wf(),
    ensures
        forall|p: nat|
            arena.len() <= p < intern(arena, cell).0.len() ==> within(
                cell,
                #[trigger] resolve(intern(arena, cell).0, p),
            ),
    decreases cell, 1nat, 0nat,
{
    let n = cell.references.len();
    lemma_intern(arena, cell);
    lemma_intern_refs(arena, cell, n);
    lemma_intern_refs_adds(arena, cell, n);
    let (grown, refs) = intern_refs(arena, cell, n);
    let entry = RawCellView { data: cell.data, refs };
    let more = intern(arena, cell).0;
    lemma_find_from(grown, entry, 0);
    assert forall|p: nat| arena.len() <= p < more.len() implies within(
        cell,
        #[trigger] resolve(more, p),
    ) by {
        if p < grown.len() {
            if find_from(grown, entry, 0) is None {
                assert(more.take(grown.len() as int) =~= grown);
                lemma_resolve_stable(grown, more, p);
            }
            assert(within(cell, resolve(grown, p)));
        }
    }
}

/// Numbering the cells that a cell refers to adds to the list only cells
/// below that cell.
pub proof fn lemma_intern_refs_adds(arena: Seq<RawCellView>, cell: CellView, k: nat)
    requires
        arena_ok(arena),
        cell.wf(),
        k <= cell.references.len(),
    ensures
        forall|p: nat|
            arena.len() <= p < intern_refs(arena, cell, k).0.len() ==> within(
                cell,
                #[trigger] resolve(intern_refs(arena, cell, k).0, p),
            ),
    decreases cell, 0nat, k,
{
    if k > 0 {
        lemma_intern_refs(arena, cell, (k - 1) as nat);
        lemma_intern_refs_adds(arena, cell, (k - 1) as nat);
        let (grown, front) = intern_refs(arena, cell, (k - 1) as nat);
        let child = cell.references[k - 1];
        assert(child.wf());
        lemma_intern(grown, child);
        lemma_intern_adds(grown, child);
        let more = intern(grown, child).0;
        assert forall|p: nat| arena.len() <= p < more.len() implies within(
            cell,
            #[trigger] resolve(more, p),
        ) by {
            if p < grown.len() {
                lemma_resolve_stable(grown, more, p);
                assert(within(cell, resolve(grown, p)));
            } else {
                lemma_within_reference(cell, k - 1, resolve(more, p));
            }
        }
    }
}

/// Numbering the cells of a sequence adds to the list only these cells and
/// cells below them.
pub proof fn lemma_intern_all_adds(arena: Seq<RawCellView>, cells: Seq<CellView>, k: nat)
    requires
        arena_ok(arena),
        forall|j: int| 0 <= j < cells.len() ==> (#[trigger] cells[j]).wf(),
        k <= cells.len(),
    ensures
        forall|p: nat|
            arena.len() <= p < intern_all(arena, cells, k).0.len() ==> reachable(
                cells,
                #[trigger] resolve(intern_all(arena, cells, k).0, p),
            ),
    decreases k,
{
    if k > 0 {
        lemma_intern_all(arena, cells, (k - 1) as nat);
        lemma_intern_all_adds(arena, cells, (k - 1) as nat);
        let (grown, front) = intern_all(arena, cells, (k - 1) as nat);
        lemma_intern(grown, cells[k - 1]);
        lemma_intern_adds(grown, cells[k - 1]);
        let more = intern(grown, cells[k - 1]).0;
        assert forall|p: nat| arena.len() <= p < more.len() implies reachable(
            cells,
            #[trigger] resolve(more, p),
        ) by {
            if p < grown.len() {
                lemma_resolve_stable(grown, more, p);
                assert(reachable(cells, resolve(grown, p)));
            } else {
                assert(within(cells[k - 1], resolve(more, p)));
            }
        }
    }
}

/// What lies below a numbered cell has a number.
pub proof fn lemma_within_numbered(arena: Seq<RawCellView>, i: nat, cell: CellView) -> (j: nat)
    requires
        arena_ok(arena),
        i < arena.len(),
        within(resolve(arena, i), cell),
    ensures
        j <= i,
        resolve(arena, j) == cell,
    decreases i,
{
    let top = resolve(arena, i);
    if top == cell {
        i
    } else {
        let k = choose|k: int|
            0 <= k < top.references.len() && within(#[trigger] top.references[k], cell);
        let to = arena[i as int].refs[k];
        assert(to < i);
        assert(top.references[k] == resolve(arena, to));
        lemma_within_numbered(arena, to, cell)
    }
}

/// Whether two cells of a list are equal.
fn same_entry(a: &RawCell, data: &crate::storage::Bits, refs: &Vec<usize>) -> (b: bool)
    ensures
        b == (a.deep_view() == RawCellView { data: data@, refs: numbers_view(refs@) }),
{
    let ghost want = RawCellView { data: data@, refs: numbers_view(refs@) };
    if !a.data.same(data) {
        return false;
    }
    if a.refs.len() != refs.len() {
        assert(a.deep_view().refs.len() != want.refs.len());
        return false;
    }
    let n = refs.len();
    let mut i: usize = 0;
    while i < n
        invariant
            i <= n,
            n == refs@.len(),
            n == a.refs@.len(),
            want == (RawCellView { data: data@, refs: numbers_view(refs@) }),
            forall|j: int| 0 <= j < i ==> a.refs@[j] == refs@[j],
        decreases n - i,
    {
        if a.refs[i] != refs[i] {
            assert(a.deep_view().refs[i as int] != want.refs[i as int]);
            return false;
        }
        i = i + 1;
    }
    assert(a.deep_view().refs =~= want.refs);
    true
}

/// The first place at which a list holds a cell.
fn find(arena: &Vec<RawCell>, data: &crate::storage::Bits, refs: &Vec<usize>) -> (r: Option<usize>)
    ensures
        match find_from(
            cells_view(arena@),
            RawCellView { data: data@, refs: numbers_view(refs@) },
            0,
        ) {
            Some(i) => r == Some(i as usize) && i < arena@.len() <= usize::MAX,
            None => r is None,
        },
{
    let ghost view = cells_view(arena@);
    let ghost want = RawCellView { data: data@, refs: numbers_view(refs@) };
    let n = arena.len();
    let mut i: usize = 0;
    while i < n
        invariant
            i <= n,
            n == arena@.len(),
            view == cells_view(arena@),
            want == (RawCellView { data: data@, refs: numbers_view(refs@) }),
            find_from(view, want, 0) == find_from(view, want, i as nat),
        decreases n - i,
    {
        if same_entry(&arena[i], data, refs) {
            return Some(i);
        }
        i = i + 1;
    }
    None
}

/// A cell that has been numbered, and its number.
pub struct Numbered {
    pub cell: Arc<Cell>,
    pub number: usize,
}

/// Whether the cells that have been noted have the numbers that are noted
/// for them.
pub open spec fn seen_ok(arena: Seq<RawCellView>, seen: Seq<Numbered>) -> bool {
    forall|j: int|
        0 <= j < seen.len() ==> {
            &&& (#[trigger] seen[j]).number < arena.len()
            &&& resolve(arena, seen[j].number as nat) == seen[j].cell.deep_view()
        }
}

/// What was noted of a list holds of every list that starts with it.
pub proof fn lemma_seen_stable(arena: Seq<RawCellView>, longer: Seq<RawCellView>, seen: Seq<Numbered>)
    requires
        seen_ok(arena, seen),
        arena.len() <= longer.len(),
        longer.take(arena.len() as int) == arena,
    ensures
        seen_ok(longer, seen),
{
    assert forall|j: int| 0 <= j < seen.len() implies (#[trigger] seen[j]).number < longer.len()
        && resolve(longer, seen[j].number as nat) == seen[j].cell.deep_view() by {
        lemma_resolve_stable(arena, longer, seen[j].number as nat);
    }
}

/// Numbers the cell behind a pointer: a cell that was reached through the
/// same pointer before keeps its number and is not walked again.
fn number_shared(arena: &mut Vec<RawCell>, seen: &mut Vec<Numbered>, cell: &Arc<Cell>) -> (r: Result<
    usize,
    Error,
>)
    requires
        arena_ok(cells_view(old(arena)@)),
        seen_ok(cells_view(old(arena)@), old(seen)@),
    ensures
        r is Ok <==> cell.deep_view().wf(),
        r matches Ok(i) ==> {
            &&& (cells_view(final(arena)@), i as nat) == intern(
                cells_view(old(arena)@),
                cell.deep_view(),
            )
            &&& arena_ok(cells_view(final(arena)@))
            &&& seen_ok(cells_view(final(arena)@), final(seen)@)
        },
        r matches Err(e) ==> e@ == Failure::of(ErrorKind::Custom),
    decreases *cell, 1nat,
{
    let ghost start = cells_view(arena@);
    let ghost whole = cell.deep_view();
    let m = seen.len();
    let mut j: usize = 0;
    while j < m
        invariant
            j <= m,
            m == seen@.len(),
            start == cells_view(arena@),
            whole == cell.deep_view(),
            arena_ok(start),
            seen_ok(start, seen@),
        decreases m - j,
    {
        if same_allocation(&seen[j].cell, cell) {
            let i = seen[j].number;
            proof {
                assert(seen@[j as int].number < start.len());
                lemma_intern_again(start, whole, i as nat);
                lemma_resolve_wf(start, i as nat);
            }
            return Ok(i);
        }
        j = j + 1;
    }
    let i = number_cell(arena, seen, cell)?;
    let ghost grown = cells_view(arena@);
    let ghost before = seen@;
    let noted = Numbered { cell: share(cell), number: i };
    seen.push(noted);
    proof {
        lemma_intern(start, whole);
        assert forall|k: int| 0 <= k < seen@.len() implies (#[trigger] seen@[k]).number
            < grown.len() && resolve(grown, seen@[k].number as nat) == seen@[k].cell.deep_view() by {
            if k < before.len() {
                assert(seen@[k] == before[k]);
            }
        }
    }
    Ok(i)
}

/// A number of a list in order stands for a cell that keeps to the limits
/// of a cell, as do all cells below it.
pub proof fn lemma_resolve_wf(arena: Seq<RawCellView>, i: nat)
    requires
        arena_ok(arena),
        i < arena.len(),
    ensures
        resolve(arena, i).wf(),
    decreases i,
{
    let entry = arena[i as int];
    let cell = resolve(arena, i);
    assert forall|j: int| 0 <= j < cell.references.len() implies (#[trigger] cell.references[j]).wf() by {
        assert(entry.refs[j] < i);
        lemma_resolve_wf(arena, entry.refs[j]);
    }
}

/// Numbers a cell and all cells below it; an error of kind `Custom` where
/// one of them does not keep to the limits of a cell.
fn number_cell(arena: &mut Vec<RawCell>, seen: &mut Vec<Numbered>, cell: &Cell) -> (r: Result<
    usize,
    Error,
>)
    requires
        arena_ok(cells_view(old(arena)@)),
        seen_ok(cells_view(old(arena)@), old(seen)@),
    ensures
        r is Ok <==> cell.deep_view().wf(),
        r matches Ok(i) ==> {
            &&& (cells_view(final(arena)@), i as nat) == intern(
                cells_view(old(arena)@),
                cell.deep_view(),
            )
            &&& arena_ok(cells_view(final(arena)@))
            &&& seen_ok(cells_view(final(arena)@), final(seen)@)
        },
        r matches Err(e) ==> e@ == Failure::of(ErrorKind::Custom),
    decreases *cell, 0nat,
{
    let ghost start = cells_view(arena@);
    let ghost whole = cell.deep_view();
    let n = cell.references.len();
    if cell.data.len() > MAX_BITS_LEN || n > MAX_REFS_COUNT {
        return Err(Error::new(ErrorKind::Custom));
    }
    let mut refs: Vec<usize> = Vec::new();
    let mut k: usize = 0;
    proof {
        assert(numbers_view(refs@) =~= Seq::<nat>::empty());
    }
    while k < n
        invariant
            k <= n,
            n == cell.references@.len(),
            whole == cell.deep_view(),
            whole.data.len() <= MAX_BITS_LEN,
            n <= MAX_REFS_COUNT,
            (cells_view(arena@), numbers_view(refs@)) == intern_refs(start, whole, k as nat),
            forall|j: int| 0 <= j < k ==> (#[trigger] whole.references[j]).wf(),
            arena_ok(cells_view(arena@)),
            seen_ok(cells_view(arena@), seen@),
        decreases n - k,
    {
        let child: &Arc<Cell> = &cell.references[k];
        proof {
            assert(whole.references[k as int] == child.deep_view());
        }
        let i = match number_shared(arena, seen, child) {
            Ok(i) => i,
            Err(e) => {
                return Err(e);
            },
        };
        proof {
            assert(numbers_view(refs@.push(i)) =~= numbers_view(refs@).push(i as nat));
        }
        refs.push(i);
        k = k + 1;
    }
    let data = cell.data.copy();
    let ghost grown = cells_view(arena@);
    let ghost want = RawCellView { data: whole.data, refs: numbers_view(refs@) };
    proof {
        assert(intern_refs(start, whole, whole.references.len()) == (grown, numbers_view(refs@)));
        assert(intern(start, whole) == match find_from(grown, want, 0) {
            Some(i) => (grown, i),
            None => (grown.push(want), grown.len()),
        });
        assert(whole.wf());
        lemma_intern(start, whole);
    }
    let found = find(arena, &data, &refs);
    match found {
        Some(i) => {
            assert((cells_view(arena@), i as nat) == intern(start, whole));
            Ok(i)
        },
        None => {
            let at = arena.len();
            let entry = RawCell { data, refs };
            proof {
                assert(entry.deep_view().refs =~= numbers_view(entry.refs@));
                assert(entry.deep_view() == want);
                assert(cells_view(arena@.push(entry)) =~= cells_view(arena@).push(
                    entry.deep_view(),
                ));
                assert(grown.push(want).take(grown.len() as int) =~= grown);
                lemma_seen_stable(grown, grown.push(want), seen@);
            }
            arena.push(entry);
            assert(cells_view(arena@) == grown.push(want));
            assert((cells_view(arena@), at as nat) == intern(start, whole));
            Ok(at)
        },
    }
}

/// Numbers the cells of a sequence and all cells below them; an error of
/// kind `Custom` where one of them does not keep to the limits of a cell.
pub(crate) fn number_all(cells: &Vec<Arc<Cell>>) -> (r: Result<(Vec<RawCell>, Vec<usize>), Error>)
    ensures
        r is Ok <==> forall|j: int| 0 <= j < cells@.len() ==> (#[trigger] cells@[j]).deep_view().wf(),
        r matches Ok((arena, roots)) ==> (cells_view(arena@), numbers_view(roots@)) == intern_all(
            Seq::empty(),
            cells.deep_view(),
            cells@.len(),
        ),
        r matches Err(e) ==> e@ == Failure::of(ErrorKind::Custom),
{
    let mut arena: Vec<RawCell> = Vec::new();
    let mut seen: Vec<Numbered> = Vec::new();
    let mut roots: Vec<usize> = Vec::new();
    let ghost views = cells.deep_view();
    let n = cells.len();
    let mut k: usize = 0;
    proof {
        assert(numbers_view(roots@) =~= Seq::<nat>::empty());
        assert(cells_view(arena@) =~= Seq::<RawCellView>::empty());
    }
    while k < n
        invariant
            k <= n,
            n == cells@.len(),
            views == cells.deep_view(),
            (cells_view(arena@), numbers_view(roots@)) == intern_all(
                Seq::empty(),
                views,
                k as nat,
            ),
            forall|j: int| 0 <= j < k ==> (#[trigger] cells@[j]).deep_view().wf(),
            arena_ok(cells_view(arena@)),
            seen_ok(cells_view(arena@), seen@),
        decreases n - k,
    {
        let cell: &Arc<Cell> = &cells[k];
        proof {
            assert(views[k as int] == cell.deep_view());
        }
        let i = match number_shared(&mut arena, &mut seen, cell) {
            Ok(i) => i,
            Err(e) => {
                return Err(e);
            },
        };
        proof {
            assert(numbers_view(roots@.push(i)) =~= numbers_view(roots@).push(i as nat));
        }
        roots.push(i);
        k = k + 1;
    }
    Ok((arena, roots))
}

/// Builds the cells that the numbers of a list stand for, and gives those
/// that the roots name.
pub(crate) fn link(arena: &Vec<RawCell>, roots: &Vec<usize>) -> (out: Vec<Arc<Cell>>)
    requires
        forall|i: int, j: int|
            0 <= i < arena@.len() && 0 <= j < arena@[i].refs@.len() ==> (
            #[trigger] arena@[i].refs@[j]) < i,
        forall|j: int| 0 <= j < roots@.len() ==> (#[trigger] roots@[j]) < arena@.len(),
    ensures
        out@.len() == roots@.len(),
        forall|j: int|
            0 <= j < roots@.len() ==> (#[trigger] out@[j]).deep_view() == resolve(
                cells_view(arena@),
                roots@[j] as nat,
            ),
{
    let ghost view = cells_view(arena@);
    let mut built: Vec<Arc<Cell>> = Vec::new();
    let n = arena.len();
    let mut i: usize = 0;
    while i < n
        invariant
            i <= n,
            n == arena@.len(),
            view == cells_view(arena@),
            built@.len() == i,
            forall|a: int, b: int|
                0 <= a < arena@.len() && 0 <= b < arena@[a].refs@.len() ==> (
                #[trigger] arena@[a].refs@[b]) < a,
            forall|j: int| 0 <= j < i ==> (#[trigger] built@[j]).deep_view() == resolve(view, j as nat),
        decreases n - i,
    {
        let entry = &arena[i];
        let m = entry.refs.len();
        let mut references: Vec<Arc<Cell>> = Vec::new();
        let mut k: usize = 0;
        while k < m
            invariant
                k <= m,
                m == entry.refs@.len(),
                i < n,
                built@.len() == i,
                entry == arena@[i as int],
                view == cells_view(arena@),
                forall|b: int| 0 <= b < entry.refs@.len() ==> (#[trigger] entry.refs@[b]) < i,
                forall|j: int|
                    0 <= j < i ==> (#[trigger] built@[j]).deep_view() == resolve(view, j as nat),
                references@.len() == k,
                forall|b: int|
                    0 <= b < k ==> (#[trigger] references@[b]).deep_view() == resolve(
                        view,
                        entry.refs@[b] as nat,
                    ),
            decreases m - k,
        {
            let to = entry.refs[k];
            references.push(share(&built[to]));
            k = k + 1;
        }
        let cell = Cell { data: entry.data.copy(), references };
        proof {
            assert(view[i as int] == entry.deep_view());
            assert(cell.deep_view().references =~= resolve(view, i as nat).references);
        }
        built.push(Arc::new(cell));
        i = i + 1;
    }
    let mut out: Vec<Arc<Cell>> = Vec::new();
    let r = roots.len();
    let mut j: usize = 0;
    while j < r
        invariant
            j <= r,
            r == roots@.len(),
            built@.len() == arena@.len(),
            out@.len() == j,
            forall|a: int| 0 <= a < roots@.len() ==> (#[trigger] roots@[a]) < arena@.len(),
            forall|a: int|
                0 <= a < built@.len() ==> (#[trigger] built@[a]).deep_view() == resolve(
                    view,
                    a as nat,
                ),
            forall|a: int|
                0 <= a < j ==> (#[trigger] out@[a]).deep_view() == resolve(view, roots@[a] as nat),
        decreases r - j,
    {
        out.push(share(&built[roots[j]]));
        j = j + 1;
    }
    out
}

/// A cell with its references counted from the other end of a list of `n`
/// cells.
pub open spec fn mirror_cell(c: RawCellView, n: nat) -> RawCellView {
    RawCellView { data: c.data, refs: mirror_numbers(c.refs, n) }
}

/// Numbers counted from the other end of a list of `n`.
pub open spec fn mirror_numbers(numbers: Seq<nat>, n: nat) -> Seq<nat> {
    Seq::new(numbers.len(), |j: int| (n - 1 - numbers[j]) as nat)
}

/// A bag with its cells in the opposite order.
pub open spec fn mirror(bag: RawBagView) -> RawBagView {
    let n = bag.cells.len();
    RawBagView {
        cells: Seq::new(n, |k: int| mirror_cell(bag.cells[n - 1 - k], n)),
        roots: mirror_numbers(bag.roots, n),
    }
}

/// Whether all numbers in a bag are numbers of its cells.
pub open spec fn in_range(bag: RawBagView) -> bool {
    &&& forall|j: int| 0 <= j < bag.roots.len() ==> (#[trigger] bag.roots[j]) < bag.cells.len()
    &&& forall|i: int, j: int|
        0 <= i < bag.cells.len() && 0 <= j < bag.cells[i].refs.len() ==> (
        #[trigger] bag.cells[i].refs[j]) < bag.cells.len()
}

/// Turning a bag around twice gives the bag.
pub proof fn lemma_mirror_twice(bag: RawBagView)
    requires
        in_range(bag),
    ensures
        mirror(mirror(bag)) == bag,
        in_range(mirror(bag)),
{
    let n = bag.cells.len();
    let once = mirror(bag);
    let twice = mirror(once);
    assert(twice.roots =~= bag.roots);
    assert forall|k: int| 0 <= k < n implies twice.cells[k] == bag.cells[k] by {
        let c = bag.cells[k];
        assert(once.cells[n - 1 - k] == mirror_cell(c, n));
        assert(twice.cells[k].refs =~= c.refs) by {
            assert forall|j: int| 0 <= j < c.refs.len() implies twice.cells[k].refs[j]
                == c.refs[j] by {
                assert(bag.cells[k].refs[j] < n);
            }
        }
    }
    assert(twice.cells =~= bag.cells);
    assert forall|i: int, j: int|
        0 <= i < once.cells.len() && 0 <= j < once.cells[i].refs.len() implies (
    #[trigger] once.cells[i].refs[j]) < once.cells.len() by {
        assert(bag.cells[n - 1 - i].refs[j] < n);
    }
}

/// The bag with its cells in the opposite order.
pub(crate) fn mirror_bag(bag: &RawBag) -> (out: RawBag)
    requires
        in_range(bag.deep_view()),
    ensures
        out.deep_view() == mirror(bag.deep_view()),
{
    let ghost view = bag.deep_view();
    let n = bag.cells.len();
    let mut cells: Vec<RawCell> = Vec::new();
    let mut k: usize = 0;
    while k < n
        invariant
            k <= n,
            n == bag.cells@.len(),
            view == bag.deep_view(),
            in_range(view),
            cells@.len() == k,
            forall|a: int|
                0 <= a < k ==> (#[trigger] cells@[a]).deep_view() == mirror_cell(
                    view.cells[n - 1 - a],
                    n as nat,
                ),
        decreases n - k,
    {
        let from = &bag.cells[n - 1 - k];
        proof {
            assert(view.cells[n - 1 - k] == from.deep_view());
            assert forall|j: int| 0 <= j < from.refs@.len() implies (#[trigger] from.refs@[j])
                < n by {
                assert(view.cells[n - 1 - k].refs[j] < view.cells.len());
            }
        }
        let refs = mirror_list(&from.refs, n);
        let cell = RawCell { data: from.data.copy(), refs };
        proof {
            assert(view.cells[n - 1 - k] == from.deep_view());
            assert(cell.deep_view().refs =~= mirror_numbers(from.deep_view().refs, n as nat));
        }
        cells.push(cell);
        k = k + 1;
    }
    proof {
        assert forall|j: int| 0 <= j < bag.roots@.len() implies (#[trigger] bag.roots@[j]) < n by {
            assert(view.roots[j] < view.cells.len());
        }
    }
    let roots = mirror_list(&bag.roots, n);
    let out = RawBag { cells, roots };
    proof {
        assert(out.deep_view().cells =~= mirror(view).cells);
        assert(out.deep_view().roots =~= mirror(view).roots);
    }
    out
}

/// Numbers counted from the other end of a list of `n`.
fn mirror_list(numbers: &Vec<usize>, n: usize) -> (out: Vec<usize>)
    requires
        forall|j: int| 0 <= j < numbers@.len() ==> (#[trigger] numbers@[j]) < n,
    ensures
        numbers_view(out@) == mirror_numbers(numbers_view(numbers@), n as nat),
{
    let mut out: Vec<usize> = Vec::new();
    let m = numbers.len();
    let mut j: usize = 0;
    while j < m
        invariant
            j <= m,
            m == numbers@.len(),
            forall|a: int| 0 <= a < numbers@.len() ==> (#[trigger] numbers@[a]) < n,
            out@.len() == j,
            forall|a: int| 0 <= a < j ==> (#[trigger] out@[a]) == n - 1 - numbers@[a],
        decreases m - j,
    {
        assert(numbers@[j as int] < n);
        out.push(n - 1 - numbers[j]);
        j = j + 1;
    }
    assert(numbers_view(out@) =~= mirror_numbers(numbers_view(numbers@), n as nat));
    out
}

} // verus!
