//! The traits a controller's vocabularies implement: names for what the
//! documents print, and the exhaustive value list of an enum.

use vstd::prelude::*;

verus! {

/// A value with a printable name: what the tables and diagrams show for an
/// event kind or an action. For a plain enum it is the variant's name.
pub trait Named {
    /// The name, as characters.
    closed spec fn spec_name(&self) -> Seq<char> {
        // Unspecified unless the implementation states it.
        arbitrary()
    }

    /// The name.
    fn name(&self) -> (name: String)
        ensures
            name@ == self.spec_name(),
    ;
}

/// A type whose values can all be listed, each with its position in the list.
///
/// Required by [`crate::Domain::EventKind`], whose full value list the reports
/// walk. Two values are the same value exactly when their ordinals are equal.
pub trait Enumerable: Named + Copy + 'static {
    /// Every value of this type.
    const ALL: &'static [Self];

    /// The value's position in [`Enumerable::ALL`].
    closed spec fn spec_ordinal(&self) -> nat {
        // Unspecified unless the implementation states it.
        arbitrary()
    }

    /// The value's position in [`Enumerable::ALL`]; what values are compared by.
    fn ordinal(&self) -> (n: usize)
        ensures
            n as nat == self.spec_ordinal(),
    ;
}

/// A type that can report its payload-free kind tag.
pub trait HasKind {
    /// The payload-free kind tag that rules match on.
    type Kind: Enumerable;

    /// This value's kind.
    closed spec fn spec_kind(&self) -> Self::Kind {
        // Unspecified unless the implementation states it.
        arbitrary()
    }

    /// Reports this value's kind.
    fn kind(&self) -> (k: Self::Kind)
        ensures
            k == self.spec_kind(),
    ;
}

/// Whether `k` is among `kinds`, values compared by ordinal.
pub open spec fn lists<K: Enumerable>(kinds: Seq<K>, k: K) -> bool {
    exists|i: int| 0 <= i < kinds.len() && (#[trigger] kinds[i]).spec_ordinal() == k.spec_ordinal()
}

/// Whether `k` is among `kinds`, values compared by ordinal.
pub fn contains_value<K: Enumerable>(kinds: &[K], k: &K) -> (found: bool)
    ensures
        found == lists(kinds@, *k),
{
    let o = k.ordinal();
    let mut i: usize = 0;
    while i < kinds.len()
        invariant
            0 <= i <= kinds@.len(),
            o as nat == k.spec_ordinal(),
            forall|j: int| 0 <= j < i ==> (#[trigger] kinds@[j]).spec_ordinal() != k.spec_ordinal(),
        decreases kinds@.len() - i,
    {
        if kinds[i].ordinal() == o {
            return true;
        }
        i = i + 1;
    }
    false
}

} // verus!
