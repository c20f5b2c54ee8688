//! Reports over a controller's declaration: the events nothing accounts for,
//! the effects nothing produces, and the names it reuses.

use vstd::prelude::*;

use crate::enums::{contains_value, lists, Enumerable};
use crate::feature::{handled_kinds, row_of, rules_node_ids, AnyFeature, Feature, Rule, RuleRow, RuleSpec};
use crate::guard::{ids_view, CondNode};
use crate::text::{
    insert_sorted, lemma_contains_split, lemma_push_contains, str_eq, strictly_sorted, strings_view, strs_view,
};
use crate::machine::{considered, Edge, Goto, Ignore};
use crate::{Domain, KindOf, MachineSpec};

verus! {

/// The names that two different identities in `ids` answer to.
pub open spec fn shared_names(ids: Seq<(Seq<char>, nat)>) -> Set<Seq<char>> {
    Set::new(
        |n: Seq<char>|
            exists|i: int, j: int|
                0 <= i < ids.len() && 0 <= j < ids.len() && (#[trigger] ids[i]).0 == n && (
                #[trigger] ids[j]).0 == n && ids[i].1 != ids[j].1,
    )
}

/// The names that occur at two different positions of `names`.
pub open spec fn repeated_names(names: Seq<Seq<char>>) -> Set<Seq<char>> {
    Set::new(
        |n: Seq<char>|
            exists|i: int, j: int|
                0 <= i < j < names.len() && #[trigger] names[i] == n && #[trigger] names[j] == n,
    )
}

/// Every guard node the features reference, feature after feature.
pub open spec fn features_node_ids<D: Domain>(features: Seq<&dyn AnyFeature<D>>) -> Seq<
    (Seq<char>, nat),
>
    where D::Guard: CondNode<D>
    decreases features.len(),
{
    if features.len() == 0 {
        Seq::empty()
    } else {
        features_node_ids(features.drop_last()) + rules_node_ids(features.last().spec_rules())
    }
}

/// Every rule id of the features, feature after feature.
pub open spec fn features_rule_ids<D: Domain>(features: Seq<&dyn AnyFeature<D>>) -> Seq<Seq<char>>
    where D::Guard: CondNode<D>
    decreases features.len(),
{
    if features.len() == 0 {
        Seq::empty()
    } else {
        features_rule_ids(features.drop_last()) + features.last().spec_rules().map_values(
            |r: crate::feature::RuleSpec<D>| r.id,
        )
    }
}

/// Whether some feature handles `k`.
pub open spec fn handled_by_some<D: Domain>(
    features: Seq<&dyn AnyFeature<D>>,
    k: D::EventKind,
) -> bool
    where D::Guard: CondNode<D>
{
    exists|i: int|
        0 <= i < features.len() && lists(
            handled_kinds(D::spec_all_kinds(), (#[trigger] features[i]).spec_rules()),
            k,
        )
}

/// The kinds of `all` no feature handles, in the order of `all`.
pub open spec fn unhandled<D: Domain>(
    all: Seq<D::EventKind>,
    features: Seq<&dyn AnyFeature<D>>,
) -> Seq<D::EventKind>
    where D::Guard: CondNode<D>
    decreases all.len(),
{
    if all.len() == 0 {
        Seq::empty()
    } else if handled_by_some(features, all.last()) {
        unhandled(all.drop_last(), features)
    } else {
        unhandled(all.drop_last(), features).push(all.last())
    }
}

/// Whether some rule of `F` emits `a`.
pub open spec fn emitted_by<F: Feature>(a: F::Action) -> bool where F::Action: Enumerable {
    exists|i: int| 0 <= i < F::RULES@.len() && lists((#[trigger] F::RULES@[i]).emit@, a)
}

/// The actions of `all` no rule of `F` emits, in the order of `all`.
pub open spec fn unemitted<F: Feature>(all: Seq<F::Action>) -> Seq<F::Action> where
    F::Action: Enumerable,

    decreases all.len(),
{
    if all.len() == 0 {
        Seq::empty()
    } else if emitted_by::<F>(all.last()) {
        unemitted::<F>(all.drop_last())
    } else {
        unemitted::<F>(all.drop_last()).push(all.last())
    }
}

/// A kind is reported unhandled exactly when the domain lists it and no feature
/// handles it.
pub proof fn lemma_unhandled_is_the_complement<D: Domain>(
    all: Seq<D::EventKind>,
    features: Seq<&dyn AnyFeature<D>>,
)
    where D::Guard: CondNode<D>
    ensures
        forall|k: D::EventKind|
            unhandled(all, features).contains(k) <==> (all.contains(k) && !handled_by_some(
                features,
                k,
            )),
    decreases all.len(),
{
    if all.len() > 0 {
        lemma_unhandled_is_the_complement(all.drop_last(), features);
        assert forall|k: D::EventKind|
            unhandled(all, features).contains(k) <==> (all.contains(k) && !handled_by_some(
                features,
                k,
            )) by {
            lemma_contains_split(all, k);
            lemma_push_contains(unhandled(all.drop_last(), features), all.last(), k);
        }
    }
}

/// An action is reported unemitted exactly when its type lists it and no rule
/// of the feature emits it.
pub proof fn lemma_unemitted_is_the_complement<F: Feature>(all: Seq<F::Action>)
    where F::Action: Enumerable
    ensures
        forall|a: F::Action|
            unemitted::<F>(all).contains(a) <==> (all.contains(a) && !emitted_by::<F>(a)),
    decreases all.len(),
{
    if all.len() > 0 {
        lemma_unemitted_is_the_complement::<F>(all.drop_last());
        assert forall|a: F::Action|
            unemitted::<F>(all).contains(a) <==> (all.contains(a) && !emitted_by::<F>(a)) by {
            lemma_contains_split(all, a);
            lemma_push_contains(unemitted::<F>(all.drop_last()), all.last(), a);
            assert(unemitted::<F>(all.drop_last()).contains(a) <==> (all.drop_last().contains(a)
                && !emitted_by::<F>(a)));
            if a == all.last() {
                assert(emitted_by::<F>(a) == emitted_by::<F>(all.last()));
            }
            if emitted_by::<F>(all.last()) {
                assert(unemitted::<F>(all) == unemitted::<F>(all.drop_last()));
            } else {
                assert(unemitted::<F>(all) == unemitted::<F>(all.drop_last()).push(all.last()));
            }
        }
    }
}

/// Names carried by more than one node identity, sorted and without repeats.
///
/// One node named on twenty rules is one identity, so reuse is never reported;
/// only a name two different nodes answer to is.
fn names_shared_by_two_ids(node_ids: &Vec<(&'static str, usize)>) -> (names: Vec<&'static str>)
    ensures
        strictly_sorted(strs_view(names@)),
        forall|n: Seq<char>|
            strs_view(names@).contains(n) <==> shared_names(ids_view(node_ids@)).contains(n),
{
    let ghost ids = ids_view(node_ids@);
    let mut out: Vec<&'static str> = Vec::new();
    let mut i: usize = 0;
    while i < node_ids.len()
        invariant
            0 <= i <= node_ids@.len(),
            ids == ids_view(node_ids@),
            strictly_sorted(strs_view(out@)),
            forall|n: Seq<char>|
                strs_view(out@).contains(n) <==> (exists|t: int|
                    0 <= t < i && (#[trigger] ids[t]).0 == n) && shared_names(ids).contains(n),
        decreases node_ids@.len() - i,
    {
        let (name, id) = node_ids[i];
        let mut shared = false;
        let mut j: usize = 0;
        while j < node_ids.len()
            invariant
                0 <= j <= node_ids@.len(),
                ids == ids_view(node_ids@),
                node_ids@[i as int] == (name, id),
                0 <= i < node_ids@.len(),
                shared ==> shared_names(ids).contains(name@),
                !shared ==> forall|t: int| 0 <= t < j ==> !((#[trigger] ids[t]).0 == name@ && ids[t].1
                    != id as nat),
            decreases node_ids@.len() - j,
        {
            if str_eq(node_ids[j].0, name) && node_ids[j].1 != id {
                assert(ids[j as int].0 == name@ && ids[i as int].0 == name@);
                shared = true;
            }
            j = j + 1;
        }
        proof {
            if !shared {
                assert(!shared_names(ids).contains(name@)) by {
                    if shared_names(ids).contains(name@) {
                        let (a, b) = choose|a: int, b: int|
                            0 <= a < ids.len() && 0 <= b < ids.len() && (#[trigger] ids[a]).0
                                == name@ && (#[trigger] ids[b]).0 == name@ && ids[a].1 != ids[b].1;
                        assert(ids[a].1 != id as nat || ids[b].1 != id as nat);
                    }
                }
            }
        }
        let ghost prev = strs_view(out@);
        if shared {
            insert_sorted(&mut out, name);
        }
        i = i + 1;
        assert forall|n: Seq<char>|
            strs_view(out@).contains(n) <==> (exists|t: int| 0 <= t < i && (#[trigger] ids[t]).0 == n)
                && shared_names(ids).contains(n) by {
            assert(ids[i - 1].0 == name@);
            if exists|t: int| 0 <= t < i && (#[trigger] ids[t]).0 == n {
                let t = choose|t: int| 0 <= t < i && (#[trigger] ids[t]).0 == n;
                if t < i - 1 {
                    assert(exists|t: int| 0 <= t < i - 1 && (#[trigger] ids[t]).0 == n);
                } else {
                    assert(n == name@);
                }
            }
            if prev.contains(n) {
                assert(shared_names(ids).contains(n));
            }
        }
    }
    assert forall|n: Seq<char>| shared_names(ids).contains(n) implies exists|t: int|
        0 <= t < ids.len() && (#[trigger] ids[t]).0 == n by {
        let (a, b) = choose|a: int, b: int|
            0 <= a < ids.len() && 0 <= b < ids.len() && (#[trigger] ids[a]).0 == n && (
            #[trigger] ids[b]).0 == n && ids[a].1 != ids[b].1;
        assert(ids[a].0 == n);
    }
    out
}

/// Guard node names used by more than one node across a whole controller.
///
/// Node names are unique per domain: [`crate::guard::Memo`] keys on the name,
/// so two nodes answering to one name make the second inherit the first's
/// result without running.
///
/// Returns the offending names, sorted and without repeats. **Must be empty in
/// CI.**
pub fn duplicate_node_names<D: Domain>(features: &[&dyn AnyFeature<D>]) -> (names: Vec<
    &'static str,
>)
    where D::Guard: CondNode<D>
    ensures
        strictly_sorted(strs_view(names@)),
        forall|n: Seq<char>|
            strs_view(names@).contains(n) <==> shared_names(features_node_ids(features@)).contains(n),
{
    let mut ids: Vec<(&'static str, usize)> = Vec::new();
    let mut i: usize = 0;
    assert(ids_view(ids@) =~= features_node_ids(features@.take(0)));
    while i < features.len()
        invariant
            0 <= i <= features@.len(),
            ids_view(ids@) == features_node_ids(features@.take(i as int)),
        decreases features@.len() - i,
    {
        features[i].node_ids(&mut ids);
        assert(features@.take(i + 1).drop_last() =~= features@.take(i as int));
        i = i + 1;
    }
    assert(features@.take(features@.len() as int) =~= features@);
    names_shared_by_two_ids(&ids)
}

/// Names occurring more than once, sorted and without repeats.
fn names_repeated(names: &Vec<&'static str>) -> (repeats: Vec<&'static str>)
    ensures
        strictly_sorted(strs_view(repeats@)),
        forall|n: Seq<char>|
            strs_view(repeats@).contains(n) <==> repeated_names(strs_view(names@)).contains(n),
{
    let ghost all = strs_view(names@);
    let mut out: Vec<&'static str> = Vec::new();
    let mut i: usize = 0;
    while i < names.len()
        invariant
            0 <= i <= names@.len(),
            all == strs_view(names@),
            strictly_sorted(strs_view(out@)),
            forall|n: Seq<char>|
                strs_view(out@).contains(n) <==> exists|a: int, b: int|
                    0 <= a < b < all.len() && a < i && #[trigger] all[a] == n && #[trigger] all[b]
                        == n,
        decreases names@.len() - i,
    {
        let name = names[i];
        let mut again = false;
        let mut j: usize = i + 1;
        while j < names.len()
            invariant
                0 <= i < j <= names@.len(),
                all == strs_view(names@),
                all[i as int] == name@,
                again ==> exists|b: int| i < b < all.len() && #[trigger] all[b] == name@,
                !again ==> forall|b: int| i < b < j ==> #[trigger] all[b] != name@,
            decreases names@.len() - j,
        {
            if str_eq(names[j], name) {
                assert(all[j as int] == name@);
                again = true;
            }
            j = j + 1;
        }
        if again {
            insert_sorted(&mut out, name);
        }
        assert forall|n: Seq<char>|
            strs_view(out@).contains(n) <==> exists|a: int, b: int|
                0 <= a < b < all.len() && a < i + 1 && #[trigger] all[a] == n && #[trigger] all[b]
                    == n by {
            if n == name@ && again {
                let b = choose|b: int| i < b < all.len() && #[trigger] all[b] == name@;
                assert(all[i as int] == n && all[b] == n);
            }
            if exists|a: int, b: int|
                0 <= a < b < all.len() && a < i + 1 && #[trigger] all[a] == n && #[trigger] all[b]
                    == n {
                let (a, b) = choose|a: int, b: int|
                    0 <= a < b < all.len() && a < i + 1 && #[trigger] all[a] == n && #[trigger] all[b]
                        == n;
                if a < i {
                    assert(exists|a: int, b: int|
                        0 <= a < b < all.len() && a < i && #[trigger] all[a] == n && #[trigger] all[b]
                            == n);
                } else {
                    assert(all[b] == name@);
                }
            }
        }
        i = i + 1;
    }
    assert forall|n: Seq<char>| repeated_names(all).contains(n) implies strs_view(out@).contains(n) by {
        let (a, b) = choose|a: int, b: int|
            0 <= a < b < all.len() && #[trigger] all[a] == n && #[trigger] all[b] == n;
        assert(a < i);
    }
    out
}

/// Rule ids carried by more than one rule across a whole controller.
///
/// [`AnyFeature::dispatch`] returns an id with no feature name attached, so a
/// repeat would name two different rules.
///
/// Returns the offending ids, sorted and without repeats. **Must be empty in
/// CI.**
pub fn duplicate_rule_ids<D: Domain>(features: &[&dyn AnyFeature<D>]) -> (ids: Vec<&'static str>)
    where D::Guard: CondNode<D>
    ensures
        strictly_sorted(strs_view(ids@)),
        forall|n: Seq<char>|
            strs_view(ids@).contains(n) <==> repeated_names(features_rule_ids(features@)).contains(n),
{
    let mut all: Vec<&'static str> = Vec::new();
    let mut i: usize = 0;
    assert(strs_view(all@) =~= features_rule_ids(features@.take(0)));
    while i < features.len()
        invariant
            0 <= i <= features@.len(),
            strs_view(all@) == features_rule_ids(features@.take(i as int)),
        decreases features@.len() - i,
    {
        let rows: Vec<RuleRow<D>> = features[i].rows();
        let ghost start = strs_view(all@);
        let ghost rules = features@[i as int].spec_rules();
        let mut j: usize = 0;
        while j < rows.len()
            invariant
                0 <= j <= rows@.len(),
                rows@.len() == rules.len(),
                forall|t: int| 0 <= t < rows@.len() ==> (#[trigger] rows@[t]).id@ == rules[t].id,
                strs_view(all@) == start + rules.take(j as int).map_values(
                    |r: crate::feature::RuleSpec<D>| r.id,
                ),
            decreases rows@.len() - j,
        {
            let ghost before = all@;
            all.push(rows[j].id);
            assert(strs_view(all@) =~= strs_view(before).push(rows@[j as int].id@));
            assert(rules.take(j + 1).map_values(|r: crate::feature::RuleSpec<D>| r.id) =~= rules.take(
                j as int,
            ).map_values(|r: crate::feature::RuleSpec<D>| r.id).push(rules[j as int].id));
            assert(strs_view(all@) =~= start + rules.take(j + 1).map_values(
                |r: crate::feature::RuleSpec<D>| r.id,
            ));
            j = j + 1;
        }
        assert(rules.take(rows@.len() as int) =~= rules);
        assert(features@.take(i + 1).drop_last() =~= features@.take(i as int));
        i = i + 1;
    }
    assert(features@.take(features@.len() as int) =~= features@);
    names_repeated(&all)
}

/// Whether some feature handles `k`.
pub(crate) fn handled_by_any<D: Domain>(features: &[&dyn AnyFeature<D>], k: &D::EventKind) -> (handled: bool)
    where D::Guard: CondNode<D>
    ensures
        handled == handled_by_some(features@, *k),
{
    let mut handled = false;
    let mut f: usize = 0;
    while f < features.len()
        invariant
            0 <= f <= features@.len(),
            handled == exists|t: int|
                0 <= t < f && lists(
                    handled_kinds(D::spec_all_kinds(), (#[trigger] features@[t]).spec_rules()),
                    *k,
                ),
        decreases features@.len() - f,
    {
        let kinds = features[f].handles();
        if contains_value(kinds.as_slice(), k) {
            handled = true;
        }
        f = f + 1;
    }
    handled
}

/// The ids of the rules of `rules` that are considered for no event or emit
/// nothing, in order.
pub open spec fn empty_in<D: Domain>(rules: Seq<RuleSpec<D>>) -> Seq<Seq<char>>
    decreases rules.len(),
{
    if rules.len() == 0 {
        Seq::empty()
    } else if rules.last().when.len() == 0 || rules.last().emit.len() == 0 {
        empty_in(rules.drop_last()).push(rules.last().id)
    } else {
        empty_in(rules.drop_last())
    }
}

/// The ids of the features' rules that are considered for no event or emit
/// nothing, feature after feature.
pub open spec fn empty_rule_ids<D: Domain>(features: Seq<&dyn AnyFeature<D>>) -> Seq<Seq<char>>
    where D::Guard: CondNode<D>
    decreases features.len(),
{
    if features.len() == 0 {
        Seq::empty()
    } else {
        empty_rule_ids(features.drop_last()) + empty_in(features.last().spec_rules())
    }
}

/// What a concatenation holds is what either part holds.
proof fn lemma_concat_holds<A>(a: Seq<A>, b: Seq<A>, x: A)
    ensures
        (a + b).contains(x) <==> (a.contains(x) || b.contains(x)),
{
    crate::guard::lemma_concat_contains(a, b);
    if (a + b).contains(x) {
        let i = choose|i: int| 0 <= i < (a + b).len() && (a + b)[i] == x;
        if i < a.len() {
            assert(a[i] == x);
        } else {
            assert(b[i - a.len()] == x);
        }
    }
}

/// Among one feature's rules, an id is listed exactly when a rule bearing it
/// can never do anything.
pub proof fn lemma_dead_rules_of_one<D: Domain>(rules: Seq<RuleSpec<D>>, n: Seq<char>)
    ensures
        empty_in(rules).contains(n) <==> exists|i: int|
            0 <= i < rules.len() && (#[trigger] rules[i]).id == n && (rules[i].when.len() == 0 || rules[i].emit.len() == 0),
    decreases rules.len(),
{
    if rules.len() > 0 {
        let init = rules.drop_last();
        lemma_dead_rules_of_one(init, n);
        lemma_push_contains(empty_in(init), rules.last().id, n);
        if exists|i: int| 0 <= i < init.len() && (#[trigger] init[i]).id == n && (init[i].when.len() == 0 || init[i].emit.len() == 0) {
            let i = choose|i: int| 0 <= i < init.len() && (#[trigger] init[i]).id == n && (init[i].when.len() == 0 || init[i].emit.len() == 0);
            assert(rules[i] == init[i]);
        }
        if exists|i: int| 0 <= i < rules.len() && (#[trigger] rules[i]).id == n && (rules[i].when.len() == 0 || rules[i].emit.len() == 0) {
            let i = choose|i: int| 0 <= i < rules.len() && (#[trigger] rules[i]).id == n && (rules[i].when.len() == 0 || rules[i].emit.len() == 0);
            if i < init.len() {
                assert(init[i] == rules[i]);
            }
        }
    }
}

/// The dead-rule check reports an id exactly when some feature has a rule
/// bearing it that is considered for no event or emits nothing.
pub proof fn lemma_empty_rules_are_the_dead_ones<D: Domain>(features: Seq<&dyn AnyFeature<D>>, n: Seq<char>)
    where D::Guard: CondNode<D>
    ensures
        empty_rule_ids(features).contains(n) <==> exists|f: int, i: int|
            0 <= f < features.len() && 0 <= i < features[f].spec_rules().len() && (
            #[trigger] features[f].spec_rules()[i]).id == n && (features[f].spec_rules()[i].when.len() == 0 || features[f].spec_rules()[i].emit.len() == 0),
    decreases features.len(),
{
    if features.len() > 0 {
        let init = features.drop_last();
        let rules = features.last().spec_rules();
        lemma_empty_rules_are_the_dead_ones(init, n);
        lemma_dead_rules_of_one(rules, n);
        lemma_concat_holds(empty_rule_ids(init), empty_in(rules), n);
        if exists|f: int, i: int|
            0 <= f < init.len() && 0 <= i < init[f].spec_rules().len() && (
            #[trigger] init[f].spec_rules()[i]).id == n && (init[f].spec_rules()[i].when.len() == 0 || init[f].spec_rules()[i].emit.len() == 0) {
            let (f, i) = choose|f: int, i: int|
                0 <= f < init.len() && 0 <= i < init[f].spec_rules().len() && (
                #[trigger] init[f].spec_rules()[i]).id == n && (init[f].spec_rules()[i].when.len() == 0 || init[f].spec_rules()[i].emit.len() == 0);
            assert(features[f] == init[f]);
        }
        if exists|i: int| 0 <= i < rules.len() && (#[trigger] rules[i]).id == n && (rules[i].when.len() == 0 || rules[i].emit.len() == 0) {
            let i = choose|i: int| 0 <= i < rules.len() && (#[trigger] rules[i]).id == n && (rules[i].when.len() == 0 || rules[i].emit.len() == 0);
            let f = features.len() - 1;
            assert(features[f].spec_rules()[i] == rules[i]);
        }
        if exists|f: int, i: int|
            0 <= f < features.len() && 0 <= i < features[f].spec_rules().len() && (
            #[trigger] features[f].spec_rules()[i]).id == n && (features[f].spec_rules()[i].when.len() == 0 || features[f].spec_rules()[i].emit.len() == 0) {
            let (f, i) = choose|f: int, i: int|
                0 <= f < features.len() && 0 <= i < features[f].spec_rules().len() && (
                #[trigger] features[f].spec_rules()[i]).id == n && (features[f].spec_rules()[i].when.len() == 0 || features[f].spec_rules()[i].emit.len() == 0);
            if f < init.len() {
                assert(init[f] == features[f]);
                assert(init[f].spec_rules()[i] == features[f].spec_rules()[i]);
            } else {
                assert(rules[i] == features[f].spec_rules()[i]);
            }
        }
    }
}

/// Rules that can never do anything: considered for no event, or emitting
/// nothing.
///
/// Returns their ids, feature after feature, in declaration order. **Must be
/// empty in CI.**
pub fn empty_rules<D: Domain>(features: &[&dyn AnyFeature<D>]) -> (ids: Vec<&'static str>)
    where D::Guard: CondNode<D>
    ensures
        strs_view(ids@) == empty_rule_ids(features@),
{
    let mut out: Vec<&'static str> = Vec::new();
    let mut i: usize = 0;
    assert(strs_view(out@) =~= empty_rule_ids(features@.take(0)));
    while i < features.len()
        invariant
            0 <= i <= features@.len(),
            strs_view(out@) == empty_rule_ids(features@.take(i as int)),
        decreases features@.len() - i,
    {
        let rows: Vec<RuleRow<D>> = features[i].rows();
        let ghost start = strs_view(out@);
        let ghost rules = features@[i as int].spec_rules();
        let mut j: usize = 0;
        assert(rules.take(0) =~= Seq::<RuleSpec<D>>::empty());
        while j < rows.len()
            invariant
                0 <= j <= rows@.len(),
                rows@.len() == rules.len(),
                forall|t: int| 0 <= t < rows@.len() ==> row_of(#[trigger] rows@[t], rules[t]),
                strs_view(out@) == start + empty_in(rules.take(j as int)),
            decreases rows@.len() - j,
        {
            let ghost before = out@;
            assert(row_of(rows@[j as int], rules[j as int]));
            assert(strings_view(rows@[j as int].emit@).len() == rows@[j as int].emit@.len());
            if rows[j].when.len() == 0 || rows[j].emit.len() == 0 {
                out.push(rows[j].id);
                assert(strs_view(out@) =~= strs_view(before).push(rules[j as int].id));
            }
            assert(rules.take(j + 1).drop_last() =~= rules.take(j as int));
            assert(strs_view(out@) =~= start + empty_in(rules.take(j + 1)));
            j = j + 1;
        }
        assert(rules.take(rows@.len() as int) =~= rules);
        assert(features@.take(i + 1).drop_last() =~= features@.take(i as int));
        i = i + 1;
    }
    assert(features@.take(features@.len() as int) =~= features@);
    out
}

/// Event kinds no rule accounts for.
///
/// Not every one of these is a defect: a signal the controller absorbs into its
/// world without deciding anything on it is reported here too.
///
/// Returns the event kinds of [`Domain::all_kinds`] no feature reacts to, in
/// that order.
pub fn unhandled_kinds<D: Domain>(features: &[&dyn AnyFeature<D>]) -> (kinds: Vec<D::EventKind>)
    where D::Guard: CondNode<D>
    ensures
        kinds@ == unhandled(D::spec_all_kinds(), features@),
{
    let all = D::all_kinds();
    let mut out: Vec<D::EventKind> = Vec::new();
    let mut i: usize = 0;
    while i < all.len()
        invariant
            0 <= i <= all@.len(),
            all@ == D::spec_all_kinds(),
            out@ == unhandled(all@.take(i as int), features@),
        decreases all@.len() - i,
    {
        let k = all[i];
        let handled = handled_by_any(features, &k);
        if !handled {
            out.push(k);
        }
        assert(all@.take(i + 1).drop_last() =~= all@.take(i as int));
        i = i + 1;
    }
    assert(all@.take(all@.len() as int) =~= all@);
    out
}

/// Actions `F` declares but no rule of `F` emits — dead effects.
///
/// One feature at a time rather than a whole controller at once: with an
/// action type per feature, an orphaned effect is a question about the file
/// that owns it.
///
/// Returns every value of `F::Action` missing from every rule's `emit`, in the
/// order of `ALL`.
pub fn unemitted_actions<F: Feature>() -> (actions: Vec<F::Action>) where F::Action: Enumerable
    ensures
        actions@ == unemitted::<F>(<F::Action as Enumerable>::ALL@),
{
    let all = <F::Action as Enumerable>::ALL;
    let mut out: Vec<F::Action> = Vec::new();
    let mut i: usize = 0;
    while i < all.len()
        invariant
            0 <= i <= all@.len(),
            all@ == <F::Action as Enumerable>::ALL@,
            out@ == unemitted::<F>(all@.take(i as int)),
        decreases all@.len() - i,
    {
        let a = all[i];
        let mut emitted = false;
        let mut r: usize = 0;
        while r < F::RULES.len()
            invariant
                0 <= r <= F::RULES@.len(),
                emitted == exists|t: int| 0 <= t < r && lists((#[trigger] F::RULES@[t]).emit@, a),
            decreases F::RULES@.len() - r,
        {
            let rule: &Rule<F::Domain, F::Action> = &F::RULES[r];
            if contains_value(rule.emit, &a) {
                emitted = true;
            }
            r = r + 1;
        }
        if !emitted {
            out.push(a);
        }
        assert(all@.take(i + 1).drop_last() =~= all@.take(i as int));
        i = i + 1;
    }
    assert(all@.take(all@.len() as int) =~= all@);
    out
}


// ─────────────────────────────────────────── machine coverage

/// Whether some edge of `edges` is considered for `kind` in state `tag`.
pub open spec fn covered<M: MachineSpec>(edges: Seq<Edge<M>>, tag: M::Tag, kind: KindOf<M::Domain>) -> bool {
    exists|i: int| 0 <= i < edges.len() && considered(#[trigger] edges[i], tag, kind)
}

/// Whether some ignore of `ignores` covers `kind` in state `tag`.
pub open spec fn ignored<M: MachineSpec>(ignores: Seq<Ignore<M>>, tag: M::Tag, kind: KindOf<M::Domain>) -> bool {
    exists|i: int| 0 <= i < ignores.len() && (#[trigger] ignores[i]).spec_matches(tag, kind)
}

/// Whether (`tag`, `kind`) is a hole (neither an edge nor an ignore covers
/// it), for `holes`, or a clash (both do), for `!holes`.
pub open spec fn flagged<M: MachineSpec>(
    edges: Seq<Edge<M>>,
    ignores: Seq<Ignore<M>>,
    tag: M::Tag,
    kind: KindOf<M::Domain>,
    holes: bool,
) -> bool {
    if holes {
        !covered(edges, tag, kind) && !ignored(ignores, tag, kind)
    } else {
        covered(edges, tag, kind) && ignored(ignores, tag, kind)
    }
}

/// The flagged pairs of state `tag`, in the order of `kinds`.
pub open spec fn flagged_in_row<M: MachineSpec>(
    edges: Seq<Edge<M>>,
    ignores: Seq<Ignore<M>>,
    tag: M::Tag,
    kinds: Seq<KindOf<M::Domain>>,
    holes: bool,
) -> Seq<(M::Tag, KindOf<M::Domain>)>
    decreases kinds.len(),
{
    if kinds.len() == 0 {
        Seq::empty()
    } else if flagged(edges, ignores, tag, kinds.last(), holes) {
        flagged_in_row(edges, ignores, tag, kinds.drop_last(), holes).push((tag, kinds.last()))
    } else {
        flagged_in_row(edges, ignores, tag, kinds.drop_last(), holes)
    }
}

/// The flagged (state, kind) pairs, state by state in the order of `tags`,
/// kind by kind in the order of `kinds`.
pub open spec fn flagged_pairs<M: MachineSpec>(
    edges: Seq<Edge<M>>,
    ignores: Seq<Ignore<M>>,
    tags: Seq<M::Tag>,
    kinds: Seq<KindOf<M::Domain>>,
    holes: bool,
) -> Seq<(M::Tag, KindOf<M::Domain>)>
    decreases tags.len(),
{
    if tags.len() == 0 {
        Seq::empty()
    } else {
        flagged_pairs(edges, ignores, tags.drop_last(), kinds, holes) + flagged_in_row(
            edges,
            ignores,
            tags.last(),
            kinds,
            holes,
        )
    }
}

/// A state's row holds exactly the pairs of that state and a kind of `kinds`
/// that are flagged.
pub proof fn lemma_flagged_row_members<M: MachineSpec>(
    edges: Seq<Edge<M>>,
    ignores: Seq<Ignore<M>>,
    tag: M::Tag,
    kinds: Seq<KindOf<M::Domain>>,
    holes: bool,
    p: (M::Tag, KindOf<M::Domain>),
)
    ensures
        flagged_in_row(edges, ignores, tag, kinds, holes).contains(p) <==> (p.0 == tag && kinds.contains(p.1)
            && flagged(edges, ignores, p.0, p.1, holes)),
    decreases kinds.len(),
{
    if kinds.len() > 0 {
        lemma_flagged_row_members(edges, ignores, tag, kinds.drop_last(), holes, p);
        lemma_contains_split(kinds, p.1);
        lemma_push_contains(
            flagged_in_row(edges, ignores, tag, kinds.drop_last(), holes),
            (tag, kinds.last()),
            p,
        );
    }
}

/// The coverage lists hold exactly the combinations of a listed state and a
/// listed kind that are flagged: for holes, those no edge and no ignore
/// covers; for clashes, those both cover. None is left out and none is
/// made up.
pub proof fn lemma_flagged_pairs_members<M: MachineSpec>(
    edges: Seq<Edge<M>>,
    ignores: Seq<Ignore<M>>,
    tags: Seq<M::Tag>,
    kinds: Seq<KindOf<M::Domain>>,
    holes: bool,
    p: (M::Tag, KindOf<M::Domain>),
)
    ensures
        flagged_pairs(edges, ignores, tags, kinds, holes).contains(p) <==> (tags.contains(p.0) && kinds.contains(
            p.1,
        ) && if holes {
            !(exists|i: int| 0 <= i < edges.len() && considered(#[trigger] edges[i], p.0, p.1)) && !(exists|i: int|
                0 <= i < ignores.len() && (#[trigger] ignores[i]).spec_matches(p.0, p.1))
        } else {
            (exists|i: int| 0 <= i < edges.len() && considered(#[trigger] edges[i], p.0, p.1)) && (exists|i: int|
                0 <= i < ignores.len() && (#[trigger] ignores[i]).spec_matches(p.0, p.1))
        }),
    decreases tags.len(),
{
    if tags.len() > 0 {
        lemma_flagged_pairs_members(edges, ignores, tags.drop_last(), kinds, holes, p);
        lemma_flagged_row_members(edges, ignores, tags.last(), kinds, holes, p);
        lemma_contains_split(tags, p.0);
        crate::guard::lemma_concat_contains(
            flagged_pairs(edges, ignores, tags.drop_last(), kinds, holes),
            flagged_in_row(edges, ignores, tags.last(), kinds, holes),
        );
        lemma_concat_holds(
            flagged_pairs(edges, ignores, tags.drop_last(), kinds, holes),
            flagged_in_row(edges, ignores, tags.last(), kinds, holes),
            p,
        );
    }
}

/// Every guard node the edges reference, edge after edge, as (name, identity).
pub open spec fn edges_node_ids<M: MachineSpec>(edges: Seq<Edge<M>>) -> Seq<(Seq<char>, nat)>
    where <M::Domain as Domain>::Guard: CondNode<M::Domain>
    decreases edges.len(),
{
    if edges.len() == 0 {
        Seq::empty()
    } else {
        edges_node_ids(edges.drop_last()) + edges.last().check.spec_node_ids()
    }
}

/// The ids of the edges, in order.
pub open spec fn edge_ids<M: MachineSpec>(edges: Seq<Edge<M>>) -> Seq<Seq<char>> {
    edges.map_values(|e: Edge<M>| e.id@)
}

/// Whether edges `a` and `b` both apply to some combination: they react to
/// one event kind and both apply in some state of `tags`.
pub open spec fn overlap<M: MachineSpec>(a: Edge<M>, b: Edge<M>, tags: Seq<M::Tag>) -> bool {
    a.when.spec_ordinal() == b.when.spec_ordinal() && exists|t: int|
        0 <= t < tags.len() && a.from.spec_matches(tags[t]) && b.from.spec_matches(#[trigger] tags[t])
}

/// The overlapping pairs (edge `i`, edge `k`) for `i < k < j`, by id, in the
/// order of `k`.
pub open spec fn overlaps_of<M: MachineSpec>(edges: Seq<Edge<M>>, tags: Seq<M::Tag>, i: int, j: int) -> Seq<
    (Seq<char>, Seq<char>),
>
    decreases j - i,
{
    if j <= i + 1 {
        Seq::empty()
    } else if overlap(edges[i], edges[j - 1], tags) {
        overlaps_of(edges, tags, i, j - 1).push((edges[i].id@, edges[j - 1].id@))
    } else {
        overlaps_of(edges, tags, i, j - 1)
    }
}

/// The overlapping pairs whose first edge is among the first `n`, by id,
/// ordered by first edge, then by second.
pub open spec fn overlap_pairs<M: MachineSpec>(edges: Seq<Edge<M>>, tags: Seq<M::Tag>, n: int) -> Seq<
    (Seq<char>, Seq<char>),
>
    decreases n,
{
    if n <= 0 {
        Seq::empty()
    } else {
        overlap_pairs(edges, tags, n - 1) + overlaps_of(edges, tags, n - 1, edges.len() as int)
    }
}

/// Pairs of ids as plain values.
pub open spec fn id_pairs_view(pairs: Seq<(&'static str, &'static str)>) -> Seq<(Seq<char>, Seq<char>)> {
    pairs.map_values(|p: (&'static str, &'static str)| (p.0@, p.1@))
}

/// Whether edges `a` and `b` both apply to some combination of `tags`.
fn edges_overlap<M: MachineSpec>(a: &Edge<M>, b: &Edge<M>, tags: &[M::Tag]) -> (hit: bool)
    ensures
        hit == overlap(*a, *b, tags@),
{
    if a.when.ordinal() != b.when.ordinal() {
        return false;
    }
    let mut t: usize = 0;
    while t < tags.len()
        invariant
            0 <= t <= tags@.len(),
            a.when.spec_ordinal() == b.when.spec_ordinal(),
            forall|x: int| 0 <= x < t ==> !(a.from.spec_matches(tags@[x]) && b.from.spec_matches(#[trigger] tags@[x])),
        decreases tags@.len() - t,
    {
        if a.from.matches(tags[t]) && b.from.matches(tags[t]) {
            assert(a.from.spec_matches(tags@[t as int]) && b.from.spec_matches(tags@[t as int]));
            assert(a.when.spec_ordinal() == b.when.spec_ordinal());
            assert(overlap(*a, *b, tags@));
            return true;
        }
        t = t + 1;
    }
    false
}

/// The overlapping pairs of `edges` over `tags`.
fn overlapping_edges<M: MachineSpec>(edges: &[Edge<M>], tags: &[M::Tag]) -> (pairs: Vec<(&'static str, &'static str)>)
    ensures
        id_pairs_view(pairs@) == overlap_pairs(edges@, tags@, edges@.len() as int),
{
    let mut out: Vec<(&'static str, &'static str)> = Vec::new();
    let mut i: usize = 0;
    assert(id_pairs_view(out@) =~= overlap_pairs(edges@, tags@, 0));
    while i < edges.len()
        invariant
            0 <= i <= edges@.len(),
            id_pairs_view(out@) == overlap_pairs(edges@, tags@, i as int),
        decreases edges@.len() - i,
    {
        let ghost start = id_pairs_view(out@);
        let mut j: usize = i + 1;
        assert(id_pairs_view(out@) =~= start + overlaps_of(edges@, tags@, i as int, j as int));
        while j < edges.len()
            invariant
                0 <= i < j <= edges@.len(),
                id_pairs_view(out@) == start + overlaps_of(edges@, tags@, i as int, j as int),
            decreases edges@.len() - j,
        {
            let ghost before = out@;
            if edges_overlap(&edges[i], &edges[j], tags) {
                out.push((edges[i].id, edges[j].id));
                assert(id_pairs_view(out@) =~= id_pairs_view(before).push((edges@[i as int].id@, edges@[j as int].id@)));
            }
            assert(id_pairs_view(out@) =~= start + overlaps_of(edges@, tags@, i as int, j + 1));
            j = j + 1;
        }
        assert(id_pairs_view(out@) =~= overlap_pairs(edges@, tags@, i + 1));
        i = i + 1;
    }
    out
}

/// What a transition table leaves uncovered or says twice.
pub struct Coverage<M: MachineSpec> {
    /// (state, event kind) combinations no edge and no ignore covers.
    pub holes: Vec<(M::Tag, KindOf<M::Domain>)>,
    /// Combinations an ignore declares unhandled though an edge handles them.
    pub ignored_but_handled: Vec<(M::Tag, KindOf<M::Domain>)>,
    /// States no sequence of edges leads to from the initial state.
    pub unreachable: Vec<M::Tag>,
    /// Guard names two different nodes answer to.
    pub duplicate_node_names: Vec<&'static str>,
    /// Edge ids carried by more than one edge.
    pub duplicate_edge_ids: Vec<&'static str>,
    /// Pairs of edges, by id, that both apply to one combination: the later
    /// one is reached only when the earlier one's guard declines. Listed, not
    /// a defect.
    pub overlaps: Vec<(&'static str, &'static str)>,
}

impl<M: MachineSpec> Coverage<M> {
    /// Whether nothing was found.
    pub fn is_clean(&self) -> (clean: bool)
        ensures
            clean == (self.holes@.len() == 0 && self.ignored_but_handled@.len() == 0
                && self.unreachable@.len() == 0 && self.duplicate_node_names@.len() == 0
                && self.duplicate_edge_ids@.len() == 0),
    {
        self.holes.len() == 0 && self.ignored_but_handled.len() == 0 && self.unreachable.len() == 0
            && self.duplicate_node_names.len() == 0 && self.duplicate_edge_ids.len() == 0
    }
}

/// Whether some edge is considered for `kind` in state `tag`.
fn is_covered<M: MachineSpec>(edges: &[Edge<M>], tag: M::Tag, kind: &KindOf<M::Domain>) -> (hit: bool)
    ensures
        hit == covered(edges@, tag, *kind),
{
    let o = kind.ordinal();
    let mut i: usize = 0;
    while i < edges.len()
        invariant
            0 <= i <= edges@.len(),
            o as nat == kind.spec_ordinal(),
            forall|t: int| 0 <= t < i ==> !considered(#[trigger] edges@[t], tag, *kind),
        decreases edges@.len() - i,
    {
        if edges[i].when.ordinal() == o && edges[i].from.matches(tag) {
            assert(considered(edges@[i as int], tag, *kind));
            return true;
        }
        i = i + 1;
    }
    false
}

/// Whether some ignore covers `kind` in state `tag`.
fn is_ignored<M: MachineSpec>(ignores: &[Ignore<M>], tag: M::Tag, kind: &KindOf<M::Domain>) -> (hit: bool)
    ensures
        hit == ignored(ignores@, tag, *kind),
{
    let mut i: usize = 0;
    while i < ignores.len()
        invariant
            0 <= i <= ignores@.len(),
            forall|t: int| 0 <= t < i ==> !(#[trigger] ignores@[t]).spec_matches(tag, *kind),
        decreases ignores@.len() - i,
    {
        if ignores[i].matches(tag, *kind) {
            assert(ignores@[i as int].spec_matches(tag, *kind));
            return true;
        }
        i = i + 1;
    }
    false
}

/// Walks every (state, event kind) combination of [`MachineSpec::all_tags`]
/// and [`Domain::all_kinds`] against `edges` and `ignores`, checks the names
/// the edges use, and lists the edges that overlap.
///
/// - `initial`: the state the machine starts in; reachability is measured
///   from it.
///
/// Returns what it found. A table whose coverage is clean handles every
/// combination, or says why not, exactly once.
pub fn coverage<M: MachineSpec>(
    initial: M::Tag,
    edges: &'static [Edge<M>],
    ignores: &'static [Ignore<M>],
) -> (c: Coverage<M>)
    where <M::Domain as Domain>::Guard: CondNode<M::Domain>
    ensures
        c.holes@ == flagged_pairs::<M>(
            edges@,
            ignores@,
            M::spec_all_tags(),
            <M::Domain as Domain>::spec_all_kinds(),
            true,
        ),
        c.ignored_but_handled@ == flagged_pairs::<M>(
            edges@,
            ignores@,
            M::spec_all_tags(),
            <M::Domain as Domain>::spec_all_kinds(),
            false,
        ),
        c.unreachable@ == never_reached::<M>(edges@, M::spec_all_tags(), initial, M::spec_all_tags()),
        strictly_sorted(strs_view(c.duplicate_node_names@)),
        forall|n: Seq<char>|
            strs_view(c.duplicate_node_names@).contains(n) <==> shared_names(edges_node_ids::<M>(edges@)).contains(n),
        strictly_sorted(strs_view(c.duplicate_edge_ids@)),
        forall|n: Seq<char>|
            strs_view(c.duplicate_edge_ids@).contains(n) <==> repeated_names(edge_ids::<M>(edges@)).contains(n),
        id_pairs_view(c.overlaps@) == overlap_pairs(edges@, M::spec_all_tags(), edges@.len() as int),
{
    let tags = M::all_tags();
    let kinds = <M::Domain as Domain>::all_kinds();
    let mut holes: Vec<(M::Tag, KindOf<M::Domain>)> = Vec::new();
    let mut clashes: Vec<(M::Tag, KindOf<M::Domain>)> = Vec::new();
    let mut i: usize = 0;
    while i < tags.len()
        invariant
            0 <= i <= tags@.len(),
            tags@ == M::spec_all_tags(),
            kinds@ == <M::Domain as Domain>::spec_all_kinds(),
            holes@ == flagged_pairs::<M>(edges@, ignores@, tags@.take(i as int), kinds@, true),
            clashes@ == flagged_pairs::<M>(edges@, ignores@, tags@.take(i as int), kinds@, false),
        decreases tags@.len() - i,
    {
        let tag = tags[i];
        let ghost h0 = holes@;
        let ghost c0 = clashes@;
        let mut j: usize = 0;
        assert(kinds@.take(0) =~= Seq::<KindOf<M::Domain>>::empty());
        assert(holes@ =~= h0 + flagged_in_row::<M>(edges@, ignores@, tag, kinds@.take(0), true));
        assert(clashes@ =~= c0 + flagged_in_row::<M>(edges@, ignores@, tag, kinds@.take(0), false));
        while j < kinds.len()
            invariant
                0 <= j <= kinds@.len(),
                holes@ == h0 + flagged_in_row::<M>(edges@, ignores@, tag, kinds@.take(j as int), true),
                clashes@ == c0 + flagged_in_row::<M>(edges@, ignores@, tag, kinds@.take(j as int), false),
            decreases kinds@.len() - j,
        {
            let k = kinds[j];
            let hit = is_covered(edges, tag, &k);
            let skip = is_ignored(ignores, tag, &k);
            proof {
                assert(kinds@.take(j + 1).drop_last() =~= kinds@.take(j as int));
                assert(kinds@.take(j + 1).last() == k);
            }
            let ghost hb = holes@;
            let ghost cb = clashes@;
            if !hit && !skip {
                holes.push((tag, k));
            }
            if hit && skip {
                clashes.push((tag, k));
            }
            assert(holes@ =~= h0 + flagged_in_row::<M>(edges@, ignores@, tag, kinds@.take(j + 1), true));
            assert(clashes@ =~= c0 + flagged_in_row::<M>(edges@, ignores@, tag, kinds@.take(j + 1), false));
            j = j + 1;
        }
        proof {
            assert(kinds@.take(kinds@.len() as int) =~= kinds@);
            assert(tags@.take(i + 1).drop_last() =~= tags@.take(i as int));
            assert(tags@.take(i + 1).last() == tag);
        }
        i = i + 1;
    }
    assert(tags@.take(tags@.len() as int) =~= tags@);
    let mut ids: Vec<&'static str> = Vec::new();
    let mut node_ids: Vec<(&'static str, usize)> = Vec::new();
    let mut e: usize = 0;
    assert(strs_view(ids@) =~= edge_ids::<M>(edges@.take(0)));
    assert(ids_view(node_ids@) =~= edges_node_ids::<M>(edges@.take(0)));
    while e < edges.len()
        invariant
            0 <= e <= edges@.len(),
            strs_view(ids@) == edge_ids::<M>(edges@.take(e as int)),
            ids_view(node_ids@) == edges_node_ids::<M>(edges@.take(e as int)),
        decreases edges@.len() - e,
    {
        let ghost before = ids@;
        ids.push(edges[e].id);
        edges[e].check.node_ids(&mut node_ids);
        proof {
            assert(edges@.take(e + 1).drop_last() =~= edges@.take(e as int));
            assert(strs_view(ids@) =~= strs_view(before).push(edges@[e as int].id@));
            assert(edge_ids::<M>(edges@.take(e + 1)) =~= edge_ids::<M>(edges@.take(e as int)).push(
                edges@[e as int].id@,
            ));
        }
        e = e + 1;
    }
    assert(edges@.take(edges@.len() as int) =~= edges@);
    let duplicate_edge_ids = names_repeated(&ids);
    let duplicate_node_names = names_shared_by_two_ids(&node_ids);
    let unreachable = unreachable_tags::<M>(initial, edges);
    let overlaps = overlapping_edges(edges, tags);
    Coverage { holes, ignored_but_handled: clashes, unreachable, duplicate_node_names, duplicate_edge_ids, overlaps }
}


/// Whether `edge` leads from state `s` to state `t`.
pub open spec fn leads<M: MachineSpec>(edge: Edge<M>, s: M::Tag, t: M::Tag) -> bool {
    edge.from.spec_matches(s) && match edge.goto {
        Goto::To(n) => n.spec_ordinal() == t.spec_ordinal(),
        Goto::Internal => false,
    }
}

/// Whether `t` is reached from `initial` in at most `k` steps along `edges`,
/// every state after the first one of `all`.
pub open spec fn reached_within<M: MachineSpec>(
    edges: Seq<Edge<M>>,
    all: Seq<M::Tag>,
    initial: M::Tag,
    k: nat,
    t: M::Tag,
) -> bool
    decreases k,
{
    if k == 0 {
        t.spec_ordinal() == initial.spec_ordinal()
    } else {
        reached_within(edges, all, initial, (k - 1) as nat, t) || (lists(all, t) && exists|i: int, s: M::Tag|
            0 <= i < edges.len() && reached_within(edges, all, initial, (k - 1) as nat, s)
                && #[trigger] leads(edges[i], s, t))
    }
}

/// Whether some sequence of `edges` leads from `initial` to `t` through states
/// of `all`.
pub open spec fn reached<M: MachineSpec>(
    edges: Seq<Edge<M>>,
    all: Seq<M::Tag>,
    initial: M::Tag,
    t: M::Tag,
) -> bool {
    exists|k: nat| #[trigger] reached_within(edges, all, initial, k, t)
}

/// The states of `tags` not reached, in order.
pub open spec fn never_reached<M: MachineSpec>(
    edges: Seq<Edge<M>>,
    all: Seq<M::Tag>,
    initial: M::Tag,
    tags: Seq<M::Tag>,
) -> Seq<M::Tag>
    decreases tags.len(),
{
    if tags.len() == 0 {
        Seq::empty()
    } else if reached(edges, all, initial, tags.last()) {
        never_reached(edges, all, initial, tags.drop_last())
    } else {
        never_reached(edges, all, initial, tags.drop_last()).push(tags.last())
    }
}

/// The unreachable list holds exactly the listed states that no path of
/// edges from the initial state reaches, in at most any number of steps.
pub proof fn lemma_never_reached_members<M: MachineSpec>(
    edges: Seq<Edge<M>>,
    all: Seq<M::Tag>,
    initial: M::Tag,
    tags: Seq<M::Tag>,
    t: M::Tag,
)
    ensures
        never_reached(edges, all, initial, tags).contains(t) <==> (tags.contains(t) && forall|k: nat|
            !(#[trigger] reached_within(edges, all, initial, k, t))),
    decreases tags.len(),
{
    if tags.len() > 0 {
        lemma_never_reached_members(edges, all, initial, tags.drop_last(), t);
        lemma_contains_split(tags, t);
        lemma_push_contains(never_reached(edges, all, initial, tags.drop_last()), tags.last(), t);
    }
}

/// A source covers two states of one ordinal alike.
proof fn lemma_matches_by_ordinal<M: MachineSpec>(src: crate::machine::Source<M>, a: M::Tag, b: M::Tag)
    requires
        a.spec_ordinal() == b.spec_ordinal(),
    ensures
        src.spec_matches(a) == src.spec_matches(b),
{
    match src {
        crate::machine::Source::Any => {},
        crate::machine::Source::These(tags) => {
            if lists(tags@, a) {
                let i = choose|i: int| 0 <= i < tags@.len() && (#[trigger] tags@[i]).spec_ordinal() == a.spec_ordinal();
                assert(tags@[i].spec_ordinal() == b.spec_ordinal());
            }
            if lists(tags@, b) {
                let i = choose|i: int| 0 <= i < tags@.len() && (#[trigger] tags@[i]).spec_ordinal() == b.spec_ordinal();
                assert(tags@[i].spec_ordinal() == a.spec_ordinal());
            }
        },
    }
}

/// Reaching a state depends only on its ordinal.
proof fn lemma_reached_by_ordinal<M: MachineSpec>(
    edges: Seq<Edge<M>>,
    all: Seq<M::Tag>,
    initial: M::Tag,
    k: nat,
    a: M::Tag,
    b: M::Tag,
)
    requires
        a.spec_ordinal() == b.spec_ordinal(),
        reached_within(edges, all, initial, k, a),
    ensures
        reached_within(edges, all, initial, k, b),
    decreases k,
{
    if k > 0 {
        if reached_within(edges, all, initial, (k - 1) as nat, a) {
            lemma_reached_by_ordinal(edges, all, initial, (k - 1) as nat, a, b);
        } else {
            let (i, s) = choose|i: int, s: M::Tag|
                0 <= i < edges.len() && reached_within(edges, all, initial, (k - 1) as nat, s)
                    && #[trigger] leads(edges[i], s, a);
            assert(leads(edges[i], s, b));
            let x = choose|x: int| 0 <= x < all.len() && (#[trigger] all[x]).spec_ordinal() == a.spec_ordinal();
            assert(all[x].spec_ordinal() == b.spec_ordinal());
        }
    }
}

/// Whether edge `edge` leads nowhere new: if the initial state or a flagged
/// state of `all` is one it applies in, every state of `all` it leads to is
/// flagged.
pub open spec fn closed_edge<M: MachineSpec>(
    edge: Edge<M>,
    flags: Seq<bool>,
    all: Seq<M::Tag>,
    initial: M::Tag,
) -> bool {
    match edge.goto {
        Goto::To(n) => (edge.from.spec_matches(initial) || exists|j0: int|
            0 <= j0 < flags.len() && #[trigger] flags[j0] && edge.from.spec_matches(all[j0])) ==> forall|j: int|
            0 <= j < all.len() && (#[trigger] all[j]).spec_ordinal() == n.spec_ordinal() ==> flags[j],
        Goto::Internal => true,
    }
}

/// With every edge closed, everything reached is the initial state or has a
/// flagged state of the same ordinal.
proof fn lemma_closed_flags_complete<M: MachineSpec>(
    edges: Seq<Edge<M>>,
    all: Seq<M::Tag>,
    initial: M::Tag,
    flags: Seq<bool>,
    k: nat,
    t: M::Tag,
)
    requires
        flags.len() == all.len(),
        forall|e: int| 0 <= e < edges.len() ==> closed_edge(#[trigger] edges[e], flags, all, initial),
        reached_within(edges, all, initial, k, t),
    ensures
        t.spec_ordinal() == initial.spec_ordinal() || exists|j: int|
            0 <= j < all.len() && flags[j] && (#[trigger] all[j]).spec_ordinal() == t.spec_ordinal(),
    decreases k,
{
    if k > 0 {
        if reached_within(edges, all, initial, (k - 1) as nat, t) {
            lemma_closed_flags_complete(edges, all, initial, flags, (k - 1) as nat, t);
        } else {
            let (i, s) = choose|i: int, s: M::Tag|
                0 <= i < edges.len() && reached_within(edges, all, initial, (k - 1) as nat, s)
                    && #[trigger] leads(edges[i], s, t);
            lemma_closed_flags_complete(edges, all, initial, flags, (k - 1) as nat, s);
            assert(closed_edge(edges[i], flags, all, initial));
            if s.spec_ordinal() == initial.spec_ordinal() {
                lemma_matches_by_ordinal(edges[i].from, s, initial);
            } else {
                let j0 = choose|j: int|
                    0 <= j < all.len() && flags[j] && (#[trigger] all[j]).spec_ordinal() == s.spec_ordinal();
                lemma_matches_by_ordinal(edges[i].from, s, all[j0]);
                assert(flags[j0]);
            }
            let x = choose|x: int| 0 <= x < all.len() && (#[trigger] all[x]).spec_ordinal() == t.spec_ordinal();
            assert(flags[x]);
        }
    }
}

/// How many entries of `s` are set.
pub open spec fn count_true(s: Seq<bool>) -> nat
    decreases s.len(),
{
    if s.len() == 0 {
        0
    } else {
        count_true(s.drop_last()) + if s.last() {
            1nat
        } else {
            0nat
        }
    }
}

/// No more entries are set than there are.
proof fn lemma_count_true_bound(s: Seq<bool>)
    ensures
        count_true(s) <= s.len(),
    decreases s.len(),
{
    if s.len() > 0 {
        lemma_count_true_bound(s.drop_last());
    }
}

/// Setting an unset entry sets one more.
proof fn lemma_count_true_set(s: Seq<bool>, j: int)
    requires
        0 <= j < s.len(),
        !s[j],
    ensures
        count_true(s.update(j, true)) == count_true(s) + 1,
    decreases s.len(),
{
    if j == s.len() - 1 {
        assert(s.update(j, true).drop_last() =~= s.drop_last());
    } else {
        assert(s.update(j, true).drop_last() =~= s.drop_last().update(j, true));
        lemma_count_true_set(s.drop_last(), j);
    }
}

/// Whether `src` covers the initial state or a flagged state of `all`.
fn source_reached<M: MachineSpec>(
    src: &crate::machine::Source<M>,
    initial: M::Tag,
    all: &[M::Tag],
    flags: &Vec<bool>,
) -> (hit: bool)
    requires
        flags@.len() == all@.len(),
    ensures
        hit == (src.spec_matches(initial) || exists|j0: int|
            0 <= j0 < flags@.len() && #[trigger] flags@[j0] && src.spec_matches(all@[j0])),
{
    if src.matches(initial) {
        return true;
    }
    let mut j: usize = 0;
    while j < all.len()
        invariant
            0 <= j <= all@.len(),
            flags@.len() == all@.len(),
            forall|t: int| 0 <= t < j ==> !(#[trigger] flags@[t] && src.spec_matches(all@[t])),
        decreases all@.len() - j,
    {
        if flags[j] && src.matches(all[j]) {
            assert(flags@[j as int] && src.spec_matches(all@[j as int]));
            return true;
        }
        j = j + 1;
    }
    false
}

/// The states of [`MachineSpec::all_tags`] no sequence of `edges` leads to
/// from `initial`, in that order.
fn unreachable_tags<M: MachineSpec>(initial: M::Tag, edges: &'static [Edge<M>]) -> (tags: Vec<M::Tag>)
    ensures
        tags@ == never_reached::<M>(edges@, M::spec_all_tags(), initial, M::spec_all_tags()),
{
    let all = M::all_tags();
    let ghost al = all@;
    let io = initial.ordinal();
    let mut flags: Vec<bool> = Vec::new();
    let mut j: usize = 0;
    while j < all.len()
        invariant
            0 <= j <= all@.len(),
            al == all@,
            io as nat == initial.spec_ordinal(),
            flags@.len() == j,
            forall|t: int| 0 <= t < j && #[trigger] flags@[t] ==> reached::<M>(edges@, al, initial, all@[t]),
        decreases all@.len() - j,
    {
        let here = all[j].ordinal() == io;
        if here {
            assert(reached_within::<M>(edges@, al, initial, 0, all@[j as int]));
        }
        flags.push(here);
        j = j + 1;
    }
    proof {
        lemma_count_true_bound(flags@);
    }
    loop
        invariant
            al == all@,
            io as nat == initial.spec_ordinal(),
            flags@.len() == all@.len(),
            count_true(flags@) <= all@.len(),
            forall|t: int| 0 <= t < all@.len() && #[trigger] flags@[t] ==> reached::<M>(edges@, al, initial, all@[t]),
        ensures
            flags@.len() == all@.len(),
            forall|t: int| 0 <= t < all@.len() && #[trigger] flags@[t] ==> reached::<M>(edges@, al, initial, all@[t]),
            forall|e: int| 0 <= e < edges@.len() ==> closed_edge(#[trigger] edges@[e], flags@, al, initial),
        decreases all@.len() - count_true(flags@),
    {
        let ghost start = flags@;
        let mut added = false;
        let mut e: usize = 0;
        while e < edges.len()
            invariant
                0 <= e <= edges@.len(),
                al == all@,
                flags@.len() == all@.len(),
                count_true(flags@) <= all@.len(),
                count_true(start) <= all@.len(),
                forall|t: int| 0 <= t < all@.len() && #[trigger] flags@[t] ==> reached::<M>(edges@, al, initial, all@[t]),
                added ==> count_true(flags@) > count_true(start),
                !added ==> flags@ == start,
                !added ==> forall|e2: int| 0 <= e2 < e ==> closed_edge(#[trigger] edges@[e2], flags@, al, initial),
            decreases edges@.len() - e,
        {
            let edge = &edges[e];
            match edge.goto {
                Goto::To(next) => {
                    let src = source_reached(&edge.from, initial, all, &flags);
                    if src {
                        let ghost sk: nat;
                        let ghost sw: M::Tag;
                        proof {
                            if edge.from.spec_matches(initial) {
                                sw = initial;
                                sk = 0;
                            } else {
                                let j0 = choose|j0: int|
                                    0 <= j0 < flags@.len() && #[trigger] flags@[j0] && edge.from.spec_matches(all@[j0]);
                                sw = all@[j0];
                                sk = choose|k: nat| #[trigger] reached_within::<M>(edges@, al, initial, k, all@[j0]);
                            }
                        }
                        let no = next.ordinal();
                        let ghost before = flags@;
                        let mut flipped = false;
                        let mut x: usize = 0;
                        while x < all.len()
                            invariant
                                0 <= x <= all@.len(),
                                0 <= e < edges@.len(),
                                al == all@,
                                no as nat == next.spec_ordinal(),
                                flags@.len() == all@.len(),
                                count_true(flags@) <= all@.len(),
                                reached_within::<M>(edges@, al, initial, sk, sw),
                                leads::<M>(edges@[e as int], sw, next),
                                forall|t: int| 0 <= t < all@.len() && #[trigger] flags@[t] ==> reached::<M>(edges@, al, initial, all@[t]),
                                forall|t: int| 0 <= t < x && (#[trigger] all@[t]).spec_ordinal() == next.spec_ordinal() ==> flags@[t],
                                flipped ==> count_true(flags@) > count_true(before),
                                !flipped ==> flags@ == before,
                                forall|t: int| 0 <= t < all@.len() && before[t] ==> #[trigger] flags@[t],
                                before.len() == all@.len(),
                            decreases all@.len() - x,
                        {
                            if all[x].ordinal() == no && !flags[x] {
                                proof {
                                    assert(leads::<M>(edges@[e as int], sw, all@[x as int]));
                                    assert(lists(al, all@[x as int])) by {
                                        assert(al[x as int].spec_ordinal() == all@[x as int].spec_ordinal());
                                    }
                                    assert(reached_within::<M>(edges@, al, initial, sk + 1, all@[x as int]));
                                    lemma_count_true_set(flags@, x as int);
                                    lemma_count_true_bound(flags@.update(x as int, true));
                                }
                                flags.set(x, true);
                                flipped = true;
                            }
                            x = x + 1;
                        }
                        if flipped {
                            added = true;
                        }
                    }
                },
                Goto::Internal => {},
            }
            e = e + 1;
        }
        if !added {
            break;
        }
    }
    let mut out: Vec<M::Tag> = Vec::new();
    let mut y: usize = 0;
    while y < all.len()
        invariant
            0 <= y <= all@.len(),
            al == all@,
            al == M::spec_all_tags(),
            io as nat == initial.spec_ordinal(),
            flags@.len() == all@.len(),
            forall|t: int| 0 <= t < all@.len() && #[trigger] flags@[t] ==> reached::<M>(edges@, al, initial, all@[t]),
            forall|e: int| 0 <= e < edges@.len() ==> closed_edge(#[trigger] edges@[e], flags@, al, initial),
            out@ == never_reached::<M>(edges@, al, initial, al.take(y as int)),
        decreases all@.len() - y,
    {
        let tag = all[y];
        let o = tag.ordinal();
        let mut hit = o == io;
        let mut z: usize = 0;
        while z < all.len()
            invariant
                0 <= z <= all@.len(),
                al == all@,
                o as nat == tag.spec_ordinal(),
                flags@.len() == all@.len(),
                hit == (tag.spec_ordinal() == initial.spec_ordinal() || exists|t: int|
                    0 <= t < z && flags@[t] && (#[trigger] all@[t]).spec_ordinal() == tag.spec_ordinal()),
            decreases all@.len() - z,
        {
            if flags[z] && all[z].ordinal() == o {
                assert(flags@[z as int] && all@[z as int].spec_ordinal() == tag.spec_ordinal());
                hit = true;
            }
            z = z + 1;
        }
        proof {
            if hit {
                if tag.spec_ordinal() == initial.spec_ordinal() {
                    assert(reached_within::<M>(edges@, al, initial, 0, tag));
                } else {
                    let t = choose|t: int|
                        0 <= t < all@.len() && flags@[t] && (#[trigger] all@[t]).spec_ordinal() == tag.spec_ordinal();
                    assert(reached::<M>(edges@, al, initial, all@[t]));
                    let k = choose|k: nat| #[trigger] reached_within::<M>(edges@, al, initial, k, all@[t]);
                    lemma_reached_by_ordinal::<M>(edges@, al, initial, k, all@[t], tag);
                }
            } else if reached::<M>(edges@, al, initial, tag) {
                let k = choose|k: nat| #[trigger] reached_within::<M>(edges@, al, initial, k, tag);
                lemma_closed_flags_complete::<M>(edges@, al, initial, flags@, k, tag);
            }
            assert(al.take(y + 1).drop_last() =~= al.take(y as int));
            assert(al.take(y + 1).last() == tag);
        }
        if !hit {
            out.push(tag);
        }
        y = y + 1;
    }
    assert(al.take(al.len() as int) =~= al);
    out
}

/// Whether `M`'s tables, walked from `initial`, leave nothing uncovered or
/// said twice.
pub open spec fn coverage_clean<M: MachineSpec>(initial: M::Tag) -> bool
    where <M::Domain as Domain>::Guard: CondNode<M::Domain>
{
    &&& flagged_pairs::<M>(
        M::EDGES@,
        M::IGNORES@,
        M::spec_all_tags(),
        <M::Domain as Domain>::spec_all_kinds(),
        true,
    ).len() == 0
    &&& flagged_pairs::<M>(
        M::EDGES@,
        M::IGNORES@,
        M::spec_all_tags(),
        <M::Domain as Domain>::spec_all_kinds(),
        false,
    ).len() == 0
    &&& never_reached::<M>(M::EDGES@, M::spec_all_tags(), initial, M::spec_all_tags()).len() == 0
    &&& forall|n: Seq<char>| !shared_names(edges_node_ids::<M>(M::EDGES@)).contains(n)
    &&& forall|n: Seq<char>| !repeated_names(edge_ids::<M>(M::EDGES@)).contains(n)
}

} // verus!
