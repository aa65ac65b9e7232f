//! Values that are stored in cells.

use core::marker::PhantomData;
use crate::builder::{CellBuilder, bits_only, fits_after, reference_only, store_outcome};
use crate::cell::{Cell, CellView, MAX_BITS_LEN, MAX_REFS_COUNT, share};
use crate::error::{Context, Error, ErrorKind, Failure};
use crate::ser_as::{BitPackAs, Same};
use crate::storage::Bits;
use std::sync::Arc;
use crate::writer::BitWriter;
use vstd::prelude::*;
use crate::builder::bits_room;
use crate::builder::storable_after;

verus! {

/// A type whose values are stored in a cell: as bits, as references to
/// cells of their own, or as both.
///
/// `stored` gives the piece of a cell that stands for a value, and
/// `storable` says whether there is one. Both speak of the value's deep
/// view.
pub trait CellSerialize: DeepView {
    /// Whether the value can be stored.
    spec fn storable(v: Self::V) -> bool;

    /// The bits and references that stand for the value.
    spec fn stored(v: Self::V) -> CellView;

    /// The failure of storing the value after what a builder holds: of kind
    /// `Custom` for a value that cannot be stored, `Capacity` for one that
    /// does not fit. A type of several parts gives the failure of the first
    /// part that fails, and on its trail the place of that part.
    open spec fn store_failure(v: Self::V, before: CellView) -> Failure {
        if Self::storable(v) {
            Failure::of(ErrorKind::Capacity)
        } else {
            Failure::of(ErrorKind::Custom)
        }
    }

    /// Appends to the builder what stands for the value. A failed call
    /// leaves the builder as it was.
    fn store(&self, builder: &mut CellBuilder) -> (r: Result<(), Error>)
        requires
            old(builder).wf(),
        ensures
            store_outcome(
                *old(builder),
                *final(builder),
                r,
                Self::storable(self.deep_view()),
                Self::stored(self.deep_view()),
            ),
            r matches Err(e) ==> e@ == Self::store_failure(
                self.deep_view(),
                old(builder).deep_view(),
            ),
    ;
}

/// A strategy to store values of type `T` in a cell.
pub trait CellSerializeAs<T: DeepView + ?Sized> {
    /// Whether the value can be stored by this strategy.
    spec fn storable_as(v: T::V) -> bool;

    /// The bits and references that stand for the value under this
    /// strategy.
    spec fn stored_as(v: T::V) -> CellView;

    /// The failure of storing the value after what a builder holds: of kind
    /// `Custom` for a value that cannot be stored, `Capacity` for one that
    /// does not fit. A strategy for several parts gives the failure of the
    /// first part that fails, and on its trail the place of that part.
    open spec fn store_failure_as(v: T::V, before: CellView) -> Failure {
        if Self::storable_as(v) {
            Failure::of(ErrorKind::Capacity)
        } else {
            Failure::of(ErrorKind::Custom)
        }
    }

    /// Appends to the builder what stands for the value under this
    /// strategy. A failed call leaves the builder as it was.
    fn store_as(source: &T, builder: &mut CellBuilder) -> (r: Result<(), Error>)
        requires
            old(builder).wf(),
        ensures
            store_outcome(
                *old(builder),
                *final(builder),
                r,
                Self::storable_as(source.deep_view()),
                Self::stored_as(source.deep_view()),
            ),
            r matches Err(e) ==> e@ == Self::store_failure_as(
                source.deep_view(),
                old(builder).deep_view(),
            ),
    ;
}

/// Whether a piece fits into an empty cell.
pub open spec fn fits_cell(piece: CellView) -> bool {
    piece.data.len() <= MAX_BITS_LEN && piece.references.len() <= MAX_REFS_COUNT
}

/// Appending pieces one after the other is appending them as one.
pub proof fn lemma_append_assoc(a: CellView, b: CellView, c: CellView)
    ensures
        a.append(b).append(c) == a.append(b.append(c)),
        CellView::empty().append(a) == a,
        a.append(CellView::empty()) == a,
{
    assert(a.data + b.data + c.data =~= a.data + (b.data + c.data));
    assert(a.references + b.references + c.references =~= a.references + (b.references
        + c.references));
    assert(Seq::<bool>::empty() + a.data =~= a.data);
    assert(Seq::<CellView>::empty() + a.references =~= a.references);
    assert(a.data + Seq::<bool>::empty() =~= a.data);
    assert(a.references + Seq::<CellView>::empty() =~= a.references);
}

/// Stores a value in a cell of its own by a strategy.
pub fn to_cell_as<T: DeepView + ?Sized, As: CellSerializeAs<T> + ?Sized>(value: &T) -> (r: Result<
    Cell,
    Error,
>)
    ensures
        r is Ok <==> As::storable_as(value.deep_view()) && fits_cell(
            As::stored_as(value.deep_view()),
        ),
        r matches Ok(c) ==> c.deep_view() == As::stored_as(value.deep_view()),
        r matches Err(e) ==> e@ == As::store_failure_as(value.deep_view(), CellView::empty()),
        r matches Err(e) ==> e.kind == ErrorKind::Capacity || (e.kind == ErrorKind::Custom
            && !As::storable_as(value.deep_view())),
{
    let mut builder = CellBuilder::new();
    As::store_as(value, &mut builder)?;
    proof {
        lemma_append_assoc(As::stored_as(value.deep_view()), CellView::empty(), CellView::empty());
    }
    Ok(builder.into_cell())
}

/// Every value that can be stored in a cell can be stored in a cell of its
/// own.
pub trait CellSerializeExt: CellSerialize {
    /// The cell that holds this value and nothing else.
    fn to_cell(&self) -> (r: Result<Cell, Error>)
        ensures
            r is Ok <==> Self::storable(self.deep_view()) && fits_cell(
                Self::stored(self.deep_view()),
            ),
            r matches Ok(c) ==> c.deep_view() == Self::stored(self.deep_view()),
            r matches Err(e) ==> e@ == Self::store_failure(
                self.deep_view(),
                CellView::empty(),
            ),
            r matches Err(e) ==> e.kind == ErrorKind::Capacity || (e.kind == ErrorKind::Custom
                && !Self::storable(self.deep_view())),
    {
        to_cell_as::<Self, Same>(self)
    }
}

impl<T: CellSerialize + ?Sized> CellSerializeExt for T {
}

/// Stores one part of a value by a strategy, and marks an error with the
/// part's place.
pub(crate) fn store_part_as<T: DeepView + ?Sized, As: CellSerializeAs<T> + ?Sized>(
    part: &T,
    builder: &mut CellBuilder,
    place: Context,
) -> (r: Result<(), Error>)
    requires
        old(builder).wf(),
    ensures
        store_outcome(
            *old(builder),
            *final(builder),
            r,
            As::storable_as(part.deep_view()),
            As::stored_as(part.deep_view()),
        ),
        r matches Err(e) ==> e@ == As::store_failure_as(
            part.deep_view(),
            old(builder).deep_view(),
        ).at(place),
{
    match As::store_as(part, builder) {
        Ok(()) => Ok(()),
        Err(e) => Err(e.context(place)),
    }
}

/// The strategy that stores a value as the value's own type stores it.
impl<T: CellSerialize + ?Sized> CellSerializeAs<T> for Same {
    open spec fn storable_as(v: T::V) -> bool {
        T::storable(v)
    }

    open spec fn stored_as(v: T::V) -> CellView {
        T::stored(v)
    }

    open spec fn store_failure_as(v: T::V, before: CellView) -> Failure {
        T::store_failure(v, before)
    }

    fn store_as(source: &T, builder: &mut CellBuilder) -> (r: Result<(), Error>) {
        let ghost _own = (
            <Self as CellSerializeAs<T>>::storable_as(source.deep_view()),
            <Self as CellSerializeAs<T>>::stored_as(source.deep_view()),
            <Self as CellSerializeAs<T>>::store_failure_as(source.deep_view(), builder.deep_view()),
        );
        source.store(builder)
    }
}

/// The strategy that stores a value as bits, written by the strategy `As`
/// of the bit level.
pub struct Data<As: ?Sized = Same>(PhantomData<As>);

impl<T: DeepView, As: BitPackAs<T>> CellSerializeAs<T> for Data<As> {
    open spec fn storable_as(v: T::V) -> bool {
        As::packable_as(v)
    }

    open spec fn stored_as(v: T::V) -> CellView {
        bits_only(As::encoding_as(v))
    }

    open spec fn store_failure_as(v: T::V, before: CellView) -> Failure {
        As::failure_as(v, bits_room(before))
    }

    fn store_as(source: &T, builder: &mut CellBuilder) -> (r: Result<(), Error>) {
        let ghost _own = (
            <Self as CellSerializeAs<T>>::storable_as(source.deep_view()),
            <Self as CellSerializeAs<T>>::stored_as(source.deep_view()),
            <Self as CellSerializeAs<T>>::store_failure_as(source.deep_view(), builder.deep_view()),
        );
        builder.pack_as::<&T, &As>(source)
    }
}

/// The strategy that stores a value in a cell of its own, by the strategy
/// `As`, and keeps a reference to that cell.
pub struct Ref<As: ?Sized = Same>(PhantomData<As>);

impl<T: DeepView, As: CellSerializeAs<T>> CellSerializeAs<T> for Ref<As> {
    open spec fn storable_as(v: T::V) -> bool {
        As::storable_as(v) && fits_cell(As::stored_as(v))
    }

    open spec fn stored_as(v: T::V) -> CellView {
        reference_only(As::stored_as(v))
    }

    open spec fn store_failure_as(v: T::V, before: CellView) -> Failure {
        if before.references.len() >= MAX_REFS_COUNT {
            Failure::of(ErrorKind::Capacity)
        } else {
            As::store_failure_as(v, CellView::empty())
        }
    }

    fn store_as(source: &T, builder: &mut CellBuilder) -> (r: Result<(), Error>) {
        let ghost _own = (
            <Self as CellSerializeAs<T>>::storable_as(source.deep_view()),
            <Self as CellSerializeAs<T>>::stored_as(source.deep_view()),
            <Self as CellSerializeAs<T>>::store_failure_as(source.deep_view(), builder.deep_view()),
        );
        if builder.references_len() >= MAX_REFS_COUNT {
            return Err(Error::new(ErrorKind::Capacity));
        }
        let child = match to_cell_as::<T, As>(source) {
            Ok(c) => c,
            Err(e) => {
                return Err(e);
            },
        };
        builder.store_reference(Arc::new(child))
    }
}

impl CellSerialize for () {
    open spec fn storable(v: ()) -> bool {
        true
    }

    open spec fn stored(v: ()) -> CellView {
        CellView::empty()
    }

    fn store(&self, builder: &mut CellBuilder) -> (r: Result<(), Error>)
        ensures
            r is Ok,
            *final(builder) == *old(builder),
    {
        let ghost _own = (
            Self::storable(self.deep_view()),
            Self::stored(self.deep_view()),
            Self::store_failure(self.deep_view(), builder.deep_view()),
        );
        proof {
            lemma_append_assoc(builder.deep_view(), CellView::empty(), CellView::empty());
        }
        Ok(())
    }
}

impl<'a, T: CellSerialize + ?Sized> CellSerialize for &'a T {
    open spec fn storable(v: T::V) -> bool {
        T::storable(v)
    }

    open spec fn stored(v: T::V) -> CellView {
        T::stored(v)
    }

    open spec fn store_failure(v: T::V, before: CellView) -> Failure {
        T::store_failure(v, before)
    }

    fn store(&self, builder: &mut CellBuilder) -> (r: Result<(), Error>) {
        let ghost _own = (
            Self::storable(self.deep_view()),
            Self::stored(self.deep_view()),
            Self::store_failure(self.deep_view(), builder.deep_view()),
        );
        (**self).store(builder)
    }
}

impl<T: CellSerialize + ?Sized> CellSerialize for Box<T> {
    open spec fn storable(v: T::V) -> bool {
        T::storable(v)
    }

    open spec fn stored(v: T::V) -> CellView {
        T::stored(v)
    }

    open spec fn store_failure(v: T::V, before: CellView) -> Failure {
        T::store_failure(v, before)
    }

    fn store(&self, builder: &mut CellBuilder) -> (r: Result<(), Error>) {
        let ghost _own = (
            Self::storable(self.deep_view()),
            Self::stored(self.deep_view()),
            Self::store_failure(self.deep_view(), builder.deep_view()),
        );
        (**self).store(builder)
    }
}

impl<T: CellSerialize> CellSerialize for Arc<T> {
    open spec fn storable(v: T::V) -> bool {
        T::storable(v)
    }

    open spec fn stored(v: T::V) -> CellView {
        T::stored(v)
    }

    open spec fn store_failure(v: T::V, before: CellView) -> Failure {
        T::store_failure(v, before)
    }

    fn store(&self, builder: &mut CellBuilder) -> (r: Result<(), Error>) {
        let ghost _own = (
            Self::storable(self.deep_view()),
            Self::stored(self.deep_view()),
            Self::store_failure(self.deep_view(), builder.deep_view()),
        );
        (**self).store(builder)
    }
}

/// The pieces of the first `k` values of a sequence, one after the other.
pub open spec fn pieces<T: CellSerialize>(vs: Seq<T::V>, k: nat) -> CellView
    decreases k,
{
    if k == 0 || k > vs.len() {
        CellView::empty()
    } else {
        pieces::<T>(vs, (k - 1) as nat).append(T::stored(vs[k - 1]))
    }
}

/// Whether every value of a sequence can be stored.
pub open spec fn all_storable<T: CellSerialize>(vs: Seq<T::V>) -> bool {
    forall|i: int| 0 <= i < vs.len() ==> T::storable(#[trigger] vs[i])
}

/// The pieces of the first values are no larger than those of all.
pub proof fn lemma_pieces_grow<T: CellSerialize>(vs: Seq<T::V>, k: nat)
    requires
        k <= vs.len(),
    ensures
        pieces::<T>(vs, k).data.len() <= pieces::<T>(vs, vs.len()).data.len(),
        pieces::<T>(vs, k).references.len() <= pieces::<T>(vs, vs.len()).references.len(),
    decreases vs.len() - k,
{
    if k < vs.len() {
        lemma_pieces_grow::<T>(vs, k + 1);
    }
}

/// The failure of storing the values of a sequence from position `i` on
/// after what a builder holds: that of the first value that cannot be
/// stored or does not fit, with the position of that value on its trail.
pub open spec fn first_store_failure<T: CellSerialize>(
    vs: Seq<T::V>,
    before: CellView,
    i: nat,
) -> Failure
    decreases vs.len() - i,
{
    if i >= vs.len() {
        Failure::of(ErrorKind::Capacity)
    } else if !storable_after(T::storable(vs[i as int]), before, T::stored(vs[i as int])) {
        T::store_failure(vs[i as int], before).at(Context::Index(i as usize))
    } else {
        first_store_failure::<T>(vs, before.append(T::stored(vs[i as int])), i + 1)
    }
}

/// Stores the values of a slice one after the other.
fn store_each<T: CellSerialize>(builder: &mut CellBuilder, values: &[T]) -> (r: Result<(), Error>)
    requires
        old(builder).wf(),
    ensures
        final(builder).wf(),
        r is Ok <==> all_storable::<T>(values.deep_view()) && fits_after(
            old(builder).deep_view(),
            pieces::<T>(values.deep_view(), values@.len()),
        ),
        r is Ok ==> final(builder).deep_view() == old(builder).deep_view().append(
            pieces::<T>(values.deep_view(), values@.len()),
        ),
        r matches Err(e) ==> e.kind == ErrorKind::Capacity || (e.kind == ErrorKind::Custom
            && !all_storable::<T>(values.deep_view())),
        r matches Err(e) ==> e@ == first_store_failure::<T>(
            values.deep_view(),
            old(builder).deep_view(),
            0,
        ),
{
    let ghost start = builder.deep_view();
    let ghost vs = values.deep_view();
    let n = values.len();
    let mut i: usize = 0;
    proof {
        lemma_append_assoc(start, CellView::empty(), CellView::empty());
    }
    while i < n
        invariant
            i <= n,
            n == values@.len(),
            vs == values.deep_view(),
            start == old(builder).deep_view(),
            builder.wf(),
            builder.deep_view() == start.append(pieces::<T>(vs, i as nat)),
            forall|j: int| 0 <= j < i ==> T::storable(#[trigger] vs[j]),
            first_store_failure::<T>(vs, start, 0) == first_store_failure::<T>(
                vs,
                builder.deep_view(),
                i as nat,
            ),
        decreases n - i,
    {
        proof {
            assert(vs[i as int] == values@[i as int].deep_view());
            lemma_pieces_grow::<T>(vs, (i + 1) as nat);
            lemma_append_assoc(start, pieces::<T>(vs, i as nat), T::stored(vs[i as int]));
        }
        match store_part_as::<T, Same>(&values[i], builder, Context::Index(i)) {
            Ok(()) => {},
            Err(e) => {
                return Err(e);
            },
        }
        i = i + 1;
    }
    Ok(())
}

impl CellBuilder {
    /// Appends what stands for a value. A failed call leaves the builder as
    /// it was.
    pub fn store<T: CellSerialize>(&mut self, value: T) -> (r: Result<(), Error>)
        requires
            old(self).wf(),
        ensures
            store_outcome(
                *old(self),
                *final(self),
                r,
                T::storable(value.deep_view()),
                T::stored(value.deep_view()),
            ),
            r is Err ==> *final(self) == *old(self),
            r matches Err(e) ==> e@ == T::store_failure(
                value.deep_view(),
                old(self).deep_view(),
            ),
    {
        let mut scratch = self.snapshot();
        match value.store(&mut scratch) {
            Ok(()) => {
                *self = scratch;
                Ok(())
            },
            Err(e) => Err(e),
        }
    }

    /// Appends what stands for a value under the strategy `As`. A failed
    /// call leaves the builder as it was.
    pub fn store_as<T: DeepView, As: CellSerializeAs<T> + ?Sized>(&mut self, value: T) -> (r:
        Result<(), Error>)
        requires
            old(self).wf(),
        ensures
            store_outcome(
                *old(self),
                *final(self),
                r,
                As::storable_as(value.deep_view()),
                As::stored_as(value.deep_view()),
            ),
            r is Err ==> *final(self) == *old(self),
            r matches Err(e) ==> e@ == As::store_failure_as(
                value.deep_view(),
                old(self).deep_view(),
            ),
    {
        let mut scratch = self.snapshot();
        match As::store_as(&value, &mut scratch) {
            Ok(()) => {
                *self = scratch;
                Ok(())
            },
            Err(e) => Err(e),
        }
    }

    /// Appends what stands for the values of a slice, one after the other;
    /// an error carries the position of the value that could not be stored.
    /// A failed call leaves the builder as it was.
    pub fn store_many<T: CellSerialize>(&mut self, values: &[T]) -> (r: Result<(), Error>)
        requires
            old(self).wf(),
        ensures
            store_outcome(
                *old(self),
                *final(self),
                r,
                all_storable::<T>(values.deep_view()),
                pieces::<T>(values.deep_view(), values@.len()),
            ),
            r matches Err(e) ==> e@ == first_store_failure::<T>(
                values.deep_view(),
                old(self).deep_view(),
                0,
            ),
            r is Err ==> *final(self) == *old(self),
    {
        let mut scratch = self.snapshot();
        match store_each(&mut scratch, values) {
            Ok(()) => {
                *self = scratch;
                Ok(())
            },
            Err(e) => Err(e),
        }
    }

    /// Stores a value in a cell of its own, by the strategy `As`, and
    /// appends a reference to that cell. A failed call leaves the builder as
    /// it was.
    pub fn store_reference_as<T: DeepView, As: CellSerializeAs<T>>(&mut self, value: T) -> (r:
        Result<(), Error>)
        requires
            old(self).wf(),
        ensures
            store_outcome(
                *old(self),
                *final(self),
                r,
                As::storable_as(value.deep_view()) && fits_cell(As::stored_as(value.deep_view())),
                reference_only(As::stored_as(value.deep_view())),
            ),
            r is Err ==> *final(self) == *old(self),
            r matches Err(e) ==> e@ == <Ref<As> as CellSerializeAs<T>>::store_failure_as(
                value.deep_view(),
                old(self).deep_view(),
            ),
    {
        self.store_as::<T, Ref<As>>(value)
    }
}

/// A cell stored in place: its bits and its references are appended.
impl CellSerialize for Cell {
    open spec fn storable(v: CellView) -> bool {
        true
    }

    open spec fn stored(v: CellView) -> CellView {
        v
    }

    fn store(&self, builder: &mut CellBuilder) -> (r: Result<(), Error>)
        ensures
            r is Err ==> *final(builder) == *old(builder),
    {
        let ghost _own = (
            Self::storable(self.deep_view()),
            Self::stored(self.deep_view()),
            Self::store_failure(self.deep_view(), builder.deep_view()),
        );
        let n = self.references.len();
        if n > MAX_REFS_COUNT || builder.references_len() > MAX_REFS_COUNT - n {
            return Err(Error::new(ErrorKind::Capacity));
        }
        let ghost start = builder.deep_view();
        let ghost whole = self.deep_view();
        builder.pack::<&Bits>(&self.data)?;
        let mut i: usize = 0;
        proof {
            assert(whole.references.take(0) =~= Seq::<CellView>::empty());
        }
        while i < n
            invariant
                i <= n,
                n == self.references@.len(),
                whole == self.deep_view(),
                builder.wf(),
                start.references.len() + n <= MAX_REFS_COUNT,
                builder.deep_view() == start.append(
                    CellView { data: whole.data, references: whole.references.take(i as int) },
                ),
            decreases n - i,
        {
            let ghost before = builder.deep_view();
            let child = share(&self.references[i]);
            let done = builder.store_reference(child);
            proof {
                assert(done is Ok);
                assert(whole.references.take(i as int).push(whole.references[i as int])
                    =~= whole.references.take(i + 1));
                assert(before.append(crate::builder::reference_only(whole.references[i as int]))
                    =~= start.append(
                    CellView { data: whole.data, references: whole.references.take(i + 1) },
                )) by {
                    assert(start.data + whole.data + Seq::<bool>::empty() =~= start.data
                        + whole.data);
                    assert(start.references + whole.references.take(i as int)
                        + seq![whole.references[i as int]] =~= start.references
                        + whole.references.take(i + 1));
                }
            }
            i = i + 1;
        }
        proof {
            assert(whole.references.take(n as int) =~= whole.references);
        }
        Ok(())
    }
}

} // verus!
