//! A value of one of two types.

use vstd::prelude::*;

verus! {

/// A value that is either on the left or on the right.
#[derive(Debug, Clone, Copy, PartialEq, Eq)]
pub enum Either<L, R> {
    Left(L),
    Right(R),
}

impl<L: DeepView, R: DeepView> DeepView for Either<L, R> {
    type V = Either<L::V, R::V>;

    open spec fn deep_view(&self) -> Either<L::V, R::V> {
        match self {
            Either::Left(l) => Either::Left(l.deep_view()),
            Either::Right(r) => Either::Right(r.deep_view()),
        }
    }
}

impl<L, R> Either<L, R> {
    /// Whether the value is on the left.
    pub fn is_left(&self) -> (b: bool)
        ensures
            b == (self is Left),
    {
        match self {
            Either::Left(_) => true,
            Either::Right(_) => false,
        }
    }

    /// Whether the value is on the right.
    pub fn is_right(&self) -> (b: bool)
        ensures
            b == (self is Right),
    {
        match self {
            Either::Left(_) => false,
            Either::Right(_) => true,
        }
    }

    /// The value on the left, if it is there.
    pub fn left(self) -> (l: Option<L>)
        ensures
            l == (match self {
                Either::Left(v) => Some(v),
                Either::Right(_) => None,
            }),
    {
        match self {
            Either::Left(v) => Some(v),
            Either::Right(_) => None,
        }
    }

    /// The value on the right, if it is there.
    pub fn right(self) -> (r: Option<R>)
        ensures
            r == (match self {
                Either::Left(_) => None,
                Either::Right(v) => Some(v),
            }),
    {
        match self {
            Either::Left(_) => None,
            Either::Right(v) => Some(v),
        }
    }
}

impl<T> Either<T, T> {
    /// The value, whichever side it is on.
    pub fn into_inner(self) -> (v: T)
        ensures
            v == (match self {
                Either::Left(l) => l,
                Either::Right(r) => r,
            }),
    {
        match self {
            Either::Left(l) => l,
            Either::Right(r) => r,
        }
    }
}

} // verus!
