//! Guards: the conditions a controller decides by, and the tree they combine
//! into.
//!
//! A guard is declared against a [`crate::Domain`], not against one feature, so
//! the same node backs a [`crate::feature::Rule`] of any of them.
//!
//! Node names are unique per domain: [`Memo`] keys on [`CondNode::name`], so
//! two nodes answering to one name is a defect — the second inherits the
//! first's result without running. [`crate::verify::duplicate_node_names`]
//! finds it.

mod cond;
mod node;

pub use cond::Cond;
pub use node::{
    answer_for, answered_by, ids_view, lemma_answered_chain, lemma_concat_contains, names_decide,
    CondNode, Cx, Expr, Memo,
};

use vstd::prelude::*;

verus! {

/// What to do when a guard evaluates to [`Cond::Unknown`].
#[derive(Copy, Clone, PartialEq, Eq, Debug, Structural)]
pub enum OnUnknown {
    /// Do not act when undecidable (fail-closed).
    Deny,
    /// Act when undecidable (fail-open).
    Allow,
}

impl OnUnknown {
    /// Whether a row under this policy may be taken when its guard says `cond`.
    pub open spec fn spec_accepts(self, cond: Cond) -> bool {
        match cond {
            Cond::True => true,
            Cond::False => false,
            Cond::Unknown => self == OnUnknown::Allow,
        }
    }

    /// Resolves a guard result into the yes/no answer a table row needs.
    ///
    /// Returns whether the row it guards may be taken.
    pub fn accepts(self, cond: Cond) -> (ok: bool)
        ensures
            ok == self.spec_accepts(cond),
    {
        match cond {
            Cond::True => true,
            Cond::False => false,
            Cond::Unknown => self == OnUnknown::Allow,
        }
    }
}

/// A decided guard is obeyed under either policy: `True` is always taken and
/// `False` never is. The policies differ on `Unknown` alone, where `Deny`
/// holds back and `Allow` acts.
pub proof fn lemma_policies_differ_on_unknown_alone(policy: OnUnknown, cond: Cond)
    ensures
        policy.spec_accepts(Cond::True),
        !policy.spec_accepts(Cond::False),
        !OnUnknown::Deny.spec_accepts(Cond::Unknown),
        OnUnknown::Allow.spec_accepts(Cond::Unknown),
        cond != Cond::Unknown ==> OnUnknown::Deny.spec_accepts(cond)
            == OnUnknown::Allow.spec_accepts(cond),
{
}

/// Allowing is never stricter than denying: whatever `Deny` takes, `Allow`
/// takes too.
pub proof fn lemma_allow_is_more_permissive(cond: Cond)
    ensures
        OnUnknown::Deny.spec_accepts(cond) ==> OnUnknown::Allow.spec_accepts(cond),
{
}

} // verus!
