//! Everything a declaration file names, in one import.

pub use crate::feature::{AnyFeature, Feature, Rule};
pub use crate::guard::{Cond, CondNode, Cx, Expr, OnUnknown};
pub use crate::{Domain, Enumerable, HasKind, Named};
