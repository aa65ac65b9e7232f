//! Values that are read back from cells.

use crate::cell::{Cell, CellView};
use crate::cell_ser::{Data, Ref};
use crate::de::agrees;
use crate::de_as::BitUnpackAs;
use crate::error::{Context, Error, ErrorKind, Failure, seen_at};
use crate::parser::{CellParser, bits_taken, parse_outcome};
use crate::ser_as::Same;
use std::sync::Arc;
use crate::reader::BitReader;
use vstd::prelude::*;

verus! {

/// A type whose values are read from a cell.
///
/// `parsed` says what the rest of a cell stands for: the value at its front
/// with the numbers of bits and of references that the value takes, or the
/// failure, with the place of the part that cannot be read on its trail.
pub trait CellDeserialize: DeepView + Sized {
    /// The value at the front of what is left of a cell, and the numbers of
    /// bits and of references that stand for it.
    spec fn parsed(rest: CellView) -> Result<(Self::V, nat, nat), Failure>;

    /// A value takes no more bits and references than there are.
    proof fn lemma_parsed_within(rest: CellView)
        ensures
            Self::parsed(rest) matches Ok((_, n, k)) ==> n <= rest.data.len() && k
                <= rest.references.len(),
    ;

    /// Reads the value at the front of what the parser holds.
    fn parse<'a>(parser: &mut CellParser<'a>) -> (r: Result<Self, Error>)
        requires
            old(parser).wf(),
        ensures
            parse_outcome(*old(parser), *final(parser), r, Self::parsed(old(parser).deep_view())),
    ;
}

/// A strategy to read values of type `T` from a cell.
pub trait CellDeserializeAs<T: DeepView> {
    /// The value at the front of what is left of a cell under this strategy,
    /// and the numbers of bits and of references that stand for it.
    spec fn parsed_as(rest: CellView) -> Result<(T::V, nat, nat), Failure>;

    /// A value takes no more bits and references than there are.
    proof fn lemma_parsed_as_within(rest: CellView)
        ensures
            Self::parsed_as(rest) matches Ok((_, n, k)) ==> n <= rest.data.len() && k
                <= rest.references.len(),
    ;

    /// Reads the value at the front of what the parser holds.
    fn parse_as<'a>(parser: &mut CellParser<'a>) -> (r: Result<T, Error>)
        requires
            old(parser).wf(),
        ensures
            parse_outcome(
                *old(parser),
                *final(parser),
                r,
                Self::parsed_as(old(parser).deep_view()),
            ),
    ;
}

/// What a cell stands for under a strategy, bits and references after the
/// value left alone.
pub open spec fn parsed_front_as<T: DeepView, As: CellDeserializeAs<T>>(cell: CellView) -> Result<
    T::V,
    Failure,
> {
    match As::parsed_as(cell) {
        Ok((v, _, _)) => Ok(v),
        Err(k) => Err(k),
    }
}

/// What a cell stands for under a strategy where all of its bits and
/// references have to be used.
pub open spec fn parsed_fully_as<T: DeepView, As: CellDeserializeAs<T>>(cell: CellView) -> Result<
    T::V,
    Failure,
> {
    match As::parsed_as(cell) {
        Ok((v, n, k)) => if n == cell.data.len() && k == cell.references.len() {
            Ok(v)
        } else {
            Err(Failure::of(ErrorKind::TrailingData))
        },
        Err(k) => Err(k),
    }
}

impl Cell {
    /// Reads the value at the front of this cell by the strategy `As`; what
    /// follows the value is left alone.
    pub fn parse_as<T: DeepView, As: CellDeserializeAs<T>>(&self) -> (r: Result<T, Error>)
        ensures
            agrees(r, parsed_front_as::<T, As>(self.deep_view())),
    {
        let mut parser = self.parser();
        As::parse_as(&mut parser)
    }

    /// Reads the value at the front of this cell; what follows the value is
    /// left alone.
    pub fn parse<T: CellDeserialize>(&self) -> (r: Result<T, Error>)
        ensures
            agrees(r, parsed_front_as::<T, Same>(self.deep_view())),
    {
        self.parse_as::<T, Same>()
    }

    /// Reads the value that this cell stands for under the strategy `As`; it
    /// is an error of kind `TrailingData` if bits or references are left
    /// over.
    pub fn parse_fully_as<T: DeepView, As: CellDeserializeAs<T>>(&self) -> (r: Result<T, Error>)
        ensures
            agrees(r, parsed_fully_as::<T, As>(self.deep_view())),
    {
        let mut parser = self.parser();
        let v = As::parse_as(&mut parser)?;
        parser.ensure_empty()?;
        Ok(v)
    }

    /// Reads the value that this cell stands for; it is an error of kind
    /// `TrailingData` if bits or references are left over.
    pub fn parse_fully<T: CellDeserialize>(&self) -> (r: Result<T, Error>)
        ensures
            agrees(r, parsed_fully_as::<T, Same>(self.deep_view())),
    {
        self.parse_fully_as::<T, Same>()
    }
}

/// Reads one part of a value by a strategy after `n` bits and `k`
/// references of it have been read, and marks an error with the part's
/// place.
pub(crate) fn parse_part_as<'a, T: DeepView, As: CellDeserializeAs<T>>(
    parser: &mut CellParser<'a>,
    place: Context,
    Ghost(all): Ghost<CellView>,
    Ghost(n): Ghost<nat>,
    Ghost(k): Ghost<nat>,
) -> (r: Result<T, Error>)
    requires
        old(parser).wf(),
        n <= all.data.len(),
        k <= all.references.len(),
        old(parser).deep_view() == all.skip(n, k),
    ensures
        parse_outcome(
            *old(parser),
            *final(parser),
            r,
            seen_at(As::parsed_as(all.skip(n, k)), place),
        ),
        As::parsed_as(all.skip(n, k)) matches Ok((_, m, j)) ==> n + m <= all.data.len() && k + j
            <= all.references.len() && final(parser).deep_view() == all.skip(n + m, k + j),
{
    match As::parse_as(parser) {
        Ok(v) => {
            proof {
                let m = As::parsed_as(all.skip(n, k))->Ok_0.1;
                let j = As::parsed_as(all.skip(n, k))->Ok_0.2;
                assert(all.data.skip(n as int).skip(m as int) =~= all.data.skip((n + m) as int));
                assert(all.references.skip(k as int).skip(j as int) =~= all.references.skip(
                    (k + j) as int,
                ));
            }
            Ok(v)
        },
        Err(e) => Err(e.context(place)),
    }
}

/// The strategy that reads a value as the value's own type reads it.
impl<T: CellDeserialize> CellDeserializeAs<T> for Same {
    open spec fn parsed_as(rest: CellView) -> Result<(T::V, nat, nat), Failure> {
        T::parsed(rest)
    }

    proof fn lemma_parsed_as_within(rest: CellView) {
        let _own = <Self as CellDeserializeAs<T>>::parsed_as(rest);
        T::lemma_parsed_within(rest);
    }

    fn parse_as<'a>(parser: &mut CellParser<'a>) -> (r: Result<T, Error>) {
        let ghost _own = <Self as CellDeserializeAs<T>>::parsed_as(parser.deep_view());
        T::parse(parser)
    }
}

/// Reads a value from the bits, by the strategy `As` of the bit level.
impl<T: DeepView, As: BitUnpackAs<T>> CellDeserializeAs<T> for Data<As> {
    open spec fn parsed_as(rest: CellView) -> Result<(T::V, nat, nat), Failure> {
        bits_taken(As::decode_as(rest.data))
    }

    proof fn lemma_parsed_as_within(rest: CellView) {
        let _own = <Self as CellDeserializeAs<T>>::parsed_as(rest);
        As::lemma_decode_as_within(rest.data);
    }

    fn parse_as<'a>(parser: &mut CellParser<'a>) -> (r: Result<T, Error>) {
        let ghost _own = <Self as CellDeserializeAs<T>>::parsed_as(parser.deep_view());
        parser.unpack_as::<T, As>()
    }
}

/// Follows the next reference and reads the value that the cell there
/// stands for, by the strategy `As`; all of that cell has to be used.
impl<T: DeepView, As: CellDeserializeAs<T>> CellDeserializeAs<T> for Ref<As> {
    open spec fn parsed_as(rest: CellView) -> Result<(T::V, nat, nat), Failure> {
        if rest.references.len() == 0 {
            Err(Failure::of(ErrorKind::Exhaustion))
        } else {
            match parsed_fully_as::<T, As>(rest.references[0]) {
                Ok(v) => Ok((v, 0, 1)),
                Err(k) => Err(k),
            }
        }
    }

    proof fn lemma_parsed_as_within(rest: CellView) {
        let _own = <Self as CellDeserializeAs<T>>::parsed_as(rest);
    }

    fn parse_as<'a>(parser: &mut CellParser<'a>) -> (r: Result<T, Error>) {
        let ghost _own = <Self as CellDeserializeAs<T>>::parsed_as(parser.deep_view());
        let child = parser.next_reference()?;
        child.parse_fully_as::<T, As>()
    }
}

impl CellDeserialize for () {
    open spec fn parsed(rest: CellView) -> Result<((), nat, nat), Failure> {
        Ok(((), 0, 0))
    }

    proof fn lemma_parsed_within(rest: CellView) {
        let _own = Self::parsed(rest);
    }

    fn parse<'a>(parser: &mut CellParser<'a>) -> (r: Result<Self, Error>) {
        let ghost _own = Self::parsed(parser.deep_view());
        proof {
            let v = parser.deep_view();
            assert(v.data.skip(0) =~= v.data);
            assert(v.references.skip(0) =~= v.references);
        }
        Ok(())
    }
}

impl<T: CellDeserialize> CellDeserialize for Box<T> {
    open spec fn parsed(rest: CellView) -> Result<(T::V, nat, nat), Failure> {
        T::parsed(rest)
    }

    proof fn lemma_parsed_within(rest: CellView) {
        let _own = Self::parsed(rest);
        T::lemma_parsed_within(rest);
    }

    fn parse<'a>(parser: &mut CellParser<'a>) -> (r: Result<Self, Error>) {
        let ghost _own = Self::parsed(parser.deep_view());
        let v = T::parse(parser)?;
        Ok(Box::new(v))
    }
}

impl<T: CellDeserialize> CellDeserialize for Arc<T> {
    open spec fn parsed(rest: CellView) -> Result<(T::V, nat, nat), Failure> {
        T::parsed(rest)
    }

    proof fn lemma_parsed_within(rest: CellView) {
        let _own = Self::parsed(rest);
        T::lemma_parsed_within(rest);
    }

    fn parse<'a>(parser: &mut CellParser<'a>) -> (r: Result<Self, Error>) {
        let ghost _own = Self::parsed(parser.deep_view());
        let v = T::parse(parser)?;
        Ok(Arc::new(v))
    }
}

impl<'a> CellParser<'a> {
    /// Reads the value at the front.
    pub fn parse<T: CellDeserialize>(&mut self) -> (r: Result<T, Error>)
        requires
            old(self).wf(),
        ensures
            parse_outcome(*old(self), *final(self), r, T::parsed(old(self).deep_view())),
    {
        T::parse(self)
    }

    /// Reads the value at the front by the strategy `As`.
    pub fn parse_as<T: DeepView, As: CellDeserializeAs<T>>(&mut self) -> (r: Result<T, Error>)
        requires
            old(self).wf(),
        ensures
            parse_outcome(*old(self), *final(self), r, As::parsed_as(old(self).deep_view())),
    {
        As::parse_as(self)
    }

    /// Follows the next reference and reads the value that the cell there
    /// stands for, by the strategy `As`.
    pub fn parse_reference_as<T: DeepView, As: CellDeserializeAs<T>>(&mut self) -> (r: Result<
        T,
        Error,
    >)
        requires
            old(self).wf(),
        ensures
            parse_outcome(
                *old(self),
                *final(self),
                r,
                <Ref<As> as CellDeserializeAs<T>>::parsed_as(old(self).deep_view()),
            ),
    {
        <Ref<As> as CellDeserializeAs<T>>::parse_as(self)
    }
}

/// All that is left of a cell, as a cell of its own.
impl CellDeserialize for Cell {
    open spec fn parsed(rest: CellView) -> Result<(CellView, nat, nat), Failure> {
        Ok((rest, rest.data.len(), rest.references.len()))
    }

    proof fn lemma_parsed_within(rest: CellView) {
        let _own = Self::parsed(rest);
    }

    fn parse<'a>(parser: &mut CellParser<'a>) -> (r: Result<Self, Error>) {
        let ghost _own = Self::parsed(parser.deep_view());
        let ghost all = parser.deep_view();
        let data = parser.take_bits();
        let n = parser.references_left();
        let mut references: Vec<Arc<Cell>> = Vec::new();
        let mut i: usize = 0;
        proof {
            assert(all.references.skip(0) =~= all.references);
        }
        while i < n
            invariant
                i <= n,
                n == all.references.len(),
                parser.wf(),
                parser.deep_view() == all.skip(all.data.len(), i as nat),
                references@.len() == i,
                forall|j: int| 0 <= j < i ==> (#[trigger] references@[j]).deep_view()
                    == all.references[j],
            decreases n - i,
        {
            let child = match parser.next_reference() {
                Ok(c) => c,
                Err(e) => {
                    return Err(e);
                },
            };
            proof {
                assert(all.references.skip(i as int)[0] == all.references[i as int]);
                assert(all.references.skip(i as int).skip(1) =~= all.references.skip(i + 1));
                assert(all.data.skip(all.data.len() as int).skip(0) =~= all.data.skip(
                    all.data.len() as int,
                ));
            }
            references.push(child);
            i = i + 1;
        }
        let cell = Cell { data, references };
        proof {
            assert(cell.deep_view().references =~= all.references);
            assert(cell.deep_view() == all);
        }
        Ok(cell)
    }
}

} // verus!
