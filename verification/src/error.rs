//! The error that every fallible operation of this library returns.

use vstd::prelude::*;

verus! {

/// What went wrong.
#[derive(Clone, Copy, Debug, PartialEq, Eq, Structural)]
pub enum ErrorKind {
    /// A writer, a builder or a size limit cannot take what was to be written.
    Capacity,
    /// A reader or a parser holds fewer bits or references than were asked for.
    Exhaustion,
    /// Bits or references were left over where all had to be consumed.
    TrailingData,
    /// A byte buffer does not hold a well-formed bag of cells.
    Corruption,
    /// A reference would close a cycle or point outside of the bag.
    Cycle,
    /// A value has no encoding, or the bits read stand for no value.
    Custom,
}

/// One step of the way from the outermost call to the point of failure.
#[derive(Clone, Copy, Debug, PartialEq, Eq)]
pub enum Context {
    /// The element of a sequence at this position.
    Index(usize),
    /// The slot of a tuple at this position.
    Slot(usize),
    /// A named part.
    Field(&'static str),
}

/// An error and the trail of positions that it passed on its way out.
///
/// The trail starts at the point of failure: its last entry is the one
/// that the outermost caller added.
#[derive(Debug, Clone, PartialEq, Eq)]
pub struct Error {
    pub kind: ErrorKind,
    pub trail: Vec<Context>,
}

/// What an error says: its kind, and the way from the point of failure out
/// to the call that returned it.
pub ghost struct Failure {
    pub kind: ErrorKind,
    pub trail: Seq<Context>,
}

impl Failure {
    /// A failure of the given kind, seen where it arises.
    pub open spec fn of(kind: ErrorKind) -> Failure {
        Failure { kind, trail: Seq::empty() }
    }

    /// The same failure, seen from one step further out.
    pub open spec fn at(self, step: Context) -> Failure {
        Failure { kind: self.kind, trail: self.trail.push(step) }
    }
}

/// Whether an error is the report of a failure: it has the failure's
/// kind, and its trail ends with the failure's trail. What stands before
/// that on the trail is what the writer itself has said; a plain writer
/// says nothing, and then the two trails are one.
pub open spec fn reports(e: Error, plain: bool, f: Failure) -> bool {
    &&& e.kind == f.kind
    &&& f.trail.is_suffix_of(e.trail@)
    &&& (plain ==> e.trail@ == f.trail)
}

/// A report stays one when a step is added on both sides.
pub proof fn lemma_reports_at(e: Error, out: Error, plain: bool, f: Failure, step: Context)
    requires
        reports(e, plain, f),
        out@ == e@.at(step),
    ensures
        reports(out, plain, f.at(step)),
{
    let a = f.trail;
    let b = e.trail@;
    assert(a =~= b.subrange(b.len() - a.len(), b.len() as int));
    assert(a.push(step) =~= b.push(step).subrange(b.len() - a.len(), b.len() as int + 1));
}

/// The outcome of a part as the whole sees it: a failure is one step
/// further out.
pub open spec fn seen_at<X>(want: Result<X, Failure>, step: Context) -> Result<X, Failure> {
    match want {
        Ok(x) => Ok(x),
        Err(f) => Err(f.at(step)),
    }
}

impl View for Error {
    type V = Failure;

    open spec fn view(&self) -> Failure {
        Failure { kind: self.kind, trail: self.trail@ }
    }
}

impl Error {
    /// An error of the given kind with an empty trail.
    pub fn new(kind: ErrorKind) -> (e: Error)
        ensures
            e@ == Failure::of(kind),
    {
        Error { kind, trail: Vec::new() }
    }

    /// The same error, one step further out.
    pub fn context(self, step: Context) -> (e: Error)
        ensures
            e@ == self@.at(step),
    {
        let mut trail = self.trail;
        trail.push(step);
        Error { kind: self.kind, trail }
    }

    /// The kind of this error.
    pub fn kind(&self) -> (k: ErrorKind)
        ensures
            k == self.kind,
    {
        self.kind
    }
}

} // verus!
