use declared::guard::Cond::{self, False, True, Unknown};
use declared::guard::OnUnknown;

#[test]
fn and_is_false_dominant() {
    assert_eq!(False.and(Unknown), False);
    assert_eq!(Unknown.and(False), False);
    assert_eq!(True.and(Unknown), Unknown);
    assert_eq!(True.and(True), True);
}

#[test]
fn or_is_true_dominant() {
    assert_eq!(True.or(Unknown), True);
    assert_eq!(Unknown.or(True), True);
    assert_eq!(False.or(Unknown), Unknown);
    assert_eq!(False.or(False), False);
}

#[test]
fn not_preserves_unknown() {
    assert_eq!(Unknown.not(), Unknown);
    assert_eq!(True.not(), False);
    assert_eq!(False.not(), True);
}

#[test]
fn from_bool_never_yields_unknown() {
    assert_eq!(Cond::from(true), True);
    assert_eq!(Cond::from(false), False);
}

/// De Morgan holds with `Unknown` in the mix.
#[test]
fn de_morgan_over_every_pair() {
    for a in [True, False, Unknown] {
        for b in [True, False, Unknown] {
            assert_eq!(a.and(b).not(), a.not().or(b.not()));
            assert_eq!(a.or(b).not(), a.not().and(b.not()));
            assert_eq!(a.and(b), b.and(a));
            assert_eq!(a.or(b), b.or(a));
        }
    }
}

/// The two policies agree on decided guards and differ on `Unknown` alone.
#[test]
fn policies_differ_only_on_unknown() {
    assert!(OnUnknown::Deny.accepts(True));
    assert!(OnUnknown::Allow.accepts(True));
    assert!(!OnUnknown::Deny.accepts(False));
    assert!(!OnUnknown::Allow.accepts(False));
    assert!(!OnUnknown::Deny.accepts(Unknown));
    assert!(OnUnknown::Allow.accepts(Unknown));
}
