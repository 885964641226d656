//! Post-roll selection policy: keep or drop the N lowest or highest dice.

use vstd::prelude::*;

verus! {

/// A keep/drop-N-by-rank policy applied to a set of rolled values before
/// summation.  The payload is generic so the same shape serves an
/// unevaluated count expression, an evaluated value and a resolved integer.
#[derive(Debug, PartialEq, Clone)]
pub enum FilterModifier<T> {
    KeepLowest(T),
    KeepHighest(T),
    DropLowest(T),
    DropHighest(T),
    Unfiltered,
}

impl<T> FilterModifier<T> {
    /// The variant tag, with the payload forgotten; used to state that an
    /// operation preserves the variant.
    pub open spec fn tag(self) -> int {
        match self {
            FilterModifier::KeepLowest(_) => 0,
            FilterModifier::KeepHighest(_) => 1,
            FilterModifier::DropLowest(_) => 2,
            FilterModifier::DropHighest(_) => 3,
            FilterModifier::Unfiltered => 4,
        }
    }

    /// The payload of a non-`Unfiltered` modifier.
    pub open spec fn payload(self) -> T
        recommends
            !(self is Unfiltered),
    {
        match self {
            FilterModifier::KeepLowest(i) => i,
            FilterModifier::KeepHighest(i) => i,
            FilterModifier::DropLowest(i) => i,
            FilterModifier::DropHighest(i) => i,
            FilterModifier::Unfiltered => arbitrary(),
        }
    }
}

impl<T> FilterModifier<T> {
    /// Applies `f` to the payload, keeping the variant tag — the
    /// structure-preserving map that carries a modifier from one payload
    /// type to the next (tree, value, resolved count).
    pub fn map<U, F: FnOnce(T) -> U>(self, f: F) -> (r: FilterModifier<U>)
        requires
            !(self is Unfiltered) ==> f.requires((self.payload(),)),
        ensures
            r.tag() == self.tag(),
            !(self is Unfiltered) ==> f.ensures((self.payload(),), r.payload()),
    {
        match self {
            FilterModifier::KeepLowest(i) => FilterModifier::KeepLowest(f(i)),
            FilterModifier::KeepHighest(i) => FilterModifier::KeepHighest(f(i)),
            FilterModifier::DropHighest(i) => FilterModifier::DropHighest(f(i)),
            FilterModifier::DropLowest(i) => FilterModifier::DropLowest(f(i)),
            FilterModifier::Unfiltered => FilterModifier::Unfiltered,
        }
    }
}

impl<T, E> FilterModifier<Result<T, E>> {
    /// Turns a modifier of fallible payloads inside out, short-circuiting on
    /// a failed payload; this is how an evaluation error inside a filter
    /// count expression propagates out of a dice node.
    pub fn swap(self) -> (r: Result<FilterModifier<T>, E>)
        ensures
            match r {
                Ok(fm) => {
                    &&& fm.tag() == self.tag()
                    &&& !(self is Unfiltered) ==> self.payload() == Ok::<T, E>(fm.payload())
                },
                Err(e) => !(self is Unfiltered) && self.payload() == Err::<T, E>(e),
            },
    {
        match self {
            FilterModifier::KeepLowest(i) => match i {
                Ok(v) => Ok(FilterModifier::KeepLowest(v)),
                Err(e) => Err(e),
            },
            FilterModifier::KeepHighest(i) => match i {
                Ok(v) => Ok(FilterModifier::KeepHighest(v)),
                Err(e) => Err(e),
            },
            FilterModifier::DropLowest(i) => match i {
                Ok(v) => Ok(FilterModifier::DropLowest(v)),
                Err(e) => Err(e),
            },
            FilterModifier::DropHighest(i) => match i {
                Ok(v) => Ok(FilterModifier::DropHighest(v)),
                Err(e) => Err(e),
            },
            FilterModifier::Unfiltered => Ok(FilterModifier::Unfiltered),
        }
    }
}

} // verus!
