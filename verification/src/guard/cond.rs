//! Three-valued logic for guards. `Unknown` means undecidable (e.g. a failed
//! lookup); [`crate::guard::OnUnknown`] names what a rule does with it.

use vstd::prelude::*;
use vstd::std_specs::convert::FromSpecImpl;

verus! {

/// The result of evaluating one guard.
#[derive(Copy, Clone, PartialEq, Eq, Debug, Structural)]
pub enum Cond {
    True,
    False,
    /// Undecidable, e.g. a failed lookup.
    Unknown,
}

impl Cond {
    /// The condition that a plain `bool` stands for.
    pub open spec fn from_bool(b: bool) -> Cond {
        if b {
            Cond::True
        } else {
            Cond::False
        }
    }

    /// Kleene AND.
    pub open spec fn spec_and(self, other: Cond) -> Cond {
        if self == Cond::False || other == Cond::False {
            Cond::False
        } else if self == Cond::True && other == Cond::True {
            Cond::True
        } else {
            Cond::Unknown
        }
    }

    /// Kleene OR.
    pub open spec fn spec_or(self, other: Cond) -> Cond {
        if self == Cond::True || other == Cond::True {
            Cond::True
        } else if self == Cond::False && other == Cond::False {
            Cond::False
        } else {
            Cond::Unknown
        }
    }

    /// Kleene NOT.
    pub open spec fn spec_not(self) -> Cond {
        match self {
            Cond::True => Cond::False,
            Cond::False => Cond::True,
            Cond::Unknown => Cond::Unknown,
        }
    }

    /// Kleene AND: a single `False` wins over any `Unknown`.
    pub fn and(self, other: Self) -> (c: Self)
        ensures
            c == self.spec_and(other),
    {
        match (self, other) {
            (Cond::False, _) | (_, Cond::False) => Cond::False,
            (Cond::True, Cond::True) => Cond::True,
            _ => Cond::Unknown,
        }
    }

    /// Kleene OR: a single `True` wins over any `Unknown`.
    pub fn or(self, other: Self) -> (c: Self)
        ensures
            c == self.spec_or(other),
    {
        match (self, other) {
            (Cond::True, _) | (_, Cond::True) => Cond::True,
            (Cond::False, Cond::False) => Cond::False,
            _ => Cond::Unknown,
        }
    }

    /// Kleene NOT: `Unknown` negates to `Unknown`.
    pub fn not(self) -> (c: Self)
        ensures
            c == self.spec_not(),
    {
        match self {
            Cond::True => Cond::False,
            Cond::False => Cond::True,
            Cond::Unknown => Cond::Unknown,
        }
    }
}

impl From<bool> for Cond {
    /// Maps `true`/`false` to [`Cond::True`]/[`Cond::False`]. There is no
    /// `bool` counterpart for [`Cond::Unknown`] — construct it directly.
    fn from(b: bool) -> (c: Self) {
        if b {
            Cond::True
        } else {
            Cond::False
        }
    }
}

impl FromSpecImpl<bool> for Cond {
    open spec fn obeys_from_spec() -> bool {
        true
    }

    open spec fn from_spec(v: bool) -> Cond {
        Cond::from_bool(v)
    }
}

/// A single `False` decides an AND and a single `True` decides an OR, whatever
/// the other side is, `Unknown` included.
pub proof fn lemma_decided_side_dominates(c: Cond)
    ensures
        Cond::False.spec_and(c) == Cond::False,
        c.spec_and(Cond::False) == Cond::False,
        Cond::True.spec_or(c) == Cond::True,
        c.spec_or(Cond::True) == Cond::True,
        Cond::True.spec_and(c) == c,
        Cond::False.spec_or(c) == c,
{
}

/// AND and OR do not depend on the order of their operands, nor on how a chain
/// of them is grouped.
pub proof fn lemma_and_or_commute_and_associate(a: Cond, b: Cond, c: Cond)
    ensures
        a.spec_and(b) == b.spec_and(a),
        a.spec_or(b) == b.spec_or(a),
        a.spec_and(b).spec_and(c) == a.spec_and(b.spec_and(c)),
        a.spec_or(b).spec_or(c) == a.spec_or(b.spec_or(c)),
{
}

/// NOT undoes itself, keeps `Unknown`, and turns AND into OR (De Morgan).
pub proof fn lemma_not_laws(a: Cond, b: Cond)
    ensures
        a.spec_not().spec_not() == a,
        Cond::Unknown.spec_not() == Cond::Unknown,
        a.spec_and(b).spec_not() == a.spec_not().spec_or(b.spec_not()),
        a.spec_or(b).spec_not() == a.spec_not().spec_and(b.spec_not()),
{
}

/// `Unknown` stays undecided: an AND is `Unknown` exactly when no side is
/// `False` and some side is `Unknown`, and an OR is `Unknown` exactly when no
/// side is `True` and some side is `Unknown`. So two failed lookups combine to
/// `Unknown` either way, and only the guard's `OnUnknown` policy decides it.
pub proof fn lemma_unknown_stays_undecided(a: Cond, b: Cond)
    ensures
        (a.spec_and(b) == Cond::Unknown) <==> (a != Cond::False && b != Cond::False && (a == Cond::Unknown
            || b == Cond::Unknown)),
        (a.spec_or(b) == Cond::Unknown) <==> (a != Cond::True && b != Cond::True && (a == Cond::Unknown
            || b == Cond::Unknown)),
        Cond::Unknown.spec_and(Cond::Unknown) == Cond::Unknown,
        Cond::Unknown.spec_or(Cond::Unknown) == Cond::Unknown,
{
}

/// Evaluation does not guess: if a value computed with `Unknown` operands is
/// decided, it is what the decided operands would give whichever way each
/// `Unknown` were decided.
pub proof fn lemma_decided_results_hold_either_way(a: Cond, b: Cond, x: bool, y: bool)
    requires
        a == Cond::Unknown || a == Cond::from_bool(x),
        b == Cond::Unknown || b == Cond::from_bool(y),
    ensures
        a.spec_and(b) != Cond::Unknown ==> a.spec_and(b) == Cond::from_bool(x && y),
        a.spec_or(b) != Cond::Unknown ==> a.spec_or(b) == Cond::from_bool(x || y),
{
}

/// On decided values the three operations are plain boolean logic, so a guard
/// that never says `Unknown` behaves like a `bool`.
pub proof fn lemma_bool_embedding(x: bool, y: bool)
    ensures
        Cond::from_bool(x).spec_and(Cond::from_bool(y)) == Cond::from_bool(x && y),
        Cond::from_bool(x).spec_or(Cond::from_bool(y)) == Cond::from_bool(x || y),
        Cond::from_bool(x).spec_not() == Cond::from_bool(!x),
        Cond::from_bool(x) != Cond::Unknown,
{
}

} // verus!
