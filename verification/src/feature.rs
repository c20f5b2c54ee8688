//! The stateless layer: one feature of a controller, declared as a table of
//! rules over its own effects.
//!
//! A [`Rule`] is one `input -> output` line: the event kinds it is considered
//! for, the condition that has to hold, and what it emits. Everything a feature
//! does is readable off its table, which is what the renderers and the reports
//! are derived from.
//!
//! Each feature names its own [`Feature::Action`], so its [`Feature::perform`]
//! is exhaustive over exactly the effects it declares. [`AnyFeature`] is the one
//! uniform face a controller needs to walk them all despite that.

use vstd::prelude::*;

use crate::enums::{contains_value, lists, Enumerable, HasKind, Named};
use crate::guard::{
    answered_by, ids_view, lemma_answered_chain, lemma_concat_contains, names_decide, Cond, CondNode, Cx,
    Expr, Memo, OnUnknown,
};
use crate::text::{contains_string, lemma_contains_split, lemma_push_contains, strings_view};
use crate::{Domain, EventOf, WorldOf};

verus! {

/// One rule of a feature: when it is considered, what must hold, and what it
/// emits.
///
/// When several rules match the same event, **declaration order is priority**:
/// the first is taken. A rule whose guard is [`Expr::Always`] always matches,
/// which is how a fallback line is written.
///
/// `A` is the declaring feature's own action type.
pub struct Rule<D: Domain, A: 'static> {
    /// Names this rule in tables and in what dispatch returns. Unique across a
    /// controller ([`crate::verify::duplicate_rule_ids`]).
    pub id: &'static str,
    /// Event kinds this rule is considered for.
    pub when: &'static [D::EventKind],
    /// The condition, over the event and the world.
    pub check: &'static Expr<D>,
    /// What to do when `check` is undecidable.
    pub unknown: OnUnknown,
    /// Actions to run, in order, when this rule is taken.
    pub emit: &'static [A],
}

/// A rule as the rest of the controller sees it: its actions by name.
pub struct RuleSpec<D: Domain> {
    pub id: Seq<char>,
    pub when: Seq<D::EventKind>,
    pub check: Expr<D>,
    pub unknown: OnUnknown,
    pub emit: Seq<Seq<char>>,
}

/// The uniform view of one rule.
pub open spec fn rule_spec<D: Domain, A: Named>(r: Rule<D, A>) -> RuleSpec<D> {
    RuleSpec {
        id: r.id@,
        when: r.when@,
        check: *r.check,
        unknown: r.unknown,
        emit: r.emit@.map_values(|a: A| a.spec_name()),
    }
}

/// Whether `rule` is considered for events of kind `k`.
pub open spec fn considers<D: Domain>(rule: RuleSpec<D>, k: D::EventKind) -> bool {
    lists(rule.when, k)
}

/// Whether some rule of `rules` is considered for `k`.
pub open spec fn handled_by<D: Domain>(rules: Seq<RuleSpec<D>>, k: D::EventKind) -> bool {
    exists|i: int| 0 <= i < rules.len() && considers(#[trigger] rules[i], k)
}

/// The kinds of `all` some rule is considered for, in the order of `all`.
pub open spec fn handled_kinds<D: Domain>(
    all: Seq<D::EventKind>,
    rules: Seq<RuleSpec<D>>,
) -> Seq<D::EventKind>
    decreases all.len(),
{
    if all.len() == 0 {
        Seq::empty()
    } else if handled_by(rules, all.last()) {
        handled_kinds(all.drop_last(), rules).push(all.last())
    } else {
        handled_kinds(all.drop_last(), rules)
    }
}

/// Every action name the rules emit, rule after rule, repeats included.
pub open spec fn all_emits<D: Domain>(rules: Seq<RuleSpec<D>>) -> Seq<Seq<char>>
    decreases rules.len(),
{
    if rules.len() == 0 {
        Seq::empty()
    } else {
        all_emits(rules.drop_last()) + rules.last().emit
    }
}

/// `s` with every repeat after the first occurrence dropped.
pub open spec fn dedup(s: Seq<Seq<char>>) -> Seq<Seq<char>>
    decreases s.len(),
{
    if s.len() == 0 {
        Seq::empty()
    } else if dedup(s.drop_last()).contains(s.last()) {
        dedup(s.drop_last())
    } else {
        dedup(s.drop_last()).push(s.last())
    }
}

/// The action names some rule may emit, in declaration order, without repeats.
pub open spec fn emitted_names<D: Domain>(rules: Seq<RuleSpec<D>>) -> Seq<Seq<char>> {
    dedup(all_emits(rules))
}

/// Every node the rules' guards reference, rule after rule.
pub open spec fn rules_node_ids<D: Domain>(rules: Seq<RuleSpec<D>>) -> Seq<(Seq<char>, nat)>
    where D::Guard: CondNode<D>
    decreases rules.len(),
{
    if rules.len() == 0 {
        Seq::empty()
    } else {
        rules_node_ids(rules.drop_last()) + rules.last().check.spec_node_ids()
    }
}

/// Whether `rule` is taken for an event of kind `k` when the guard nodes answer
/// what `m` records.
pub open spec fn takes<D: Domain>(rule: RuleSpec<D>, k: D::EventKind, m: Map<Seq<char>, Cond>) -> bool
    where D::Guard: CondNode<D>
{
    considers(rule, k) && rule.unknown.spec_accepts(rule.check.value(m))
}

/// The first rule at or after `start` that is taken.
pub open spec fn first_taken_from<D: Domain>(
    rules: Seq<RuleSpec<D>>,
    k: D::EventKind,
    m: Map<Seq<char>, Cond>,
    start: int,
) -> Option<int>
    where D::Guard: CondNode<D>
    decreases rules.len() - start,
{
    if start < 0 || start >= rules.len() {
        None
    } else if takes(rules[start], k, m) {
        Some(start)
    } else {
        first_taken_from(rules, k, m, start + 1)
    }
}

/// The rule dispatch takes for an event of kind `k` when the guard nodes
/// answer what `m` records: the first, in declaration order, that is
/// considered for `k` and whose guard its policy accepts.
pub open spec fn first_taken<D: Domain>(
    rules: Seq<RuleSpec<D>>,
    k: D::EventKind,
    m: Map<Seq<char>, Cond>,
) -> Option<int>
    where D::Guard: CondNode<D>
{
    first_taken_from(rules, k, m, 0)
}

/// `first_taken_from` finds exactly the first taken rule at or after `start`.
pub proof fn lemma_first_taken_from<D: Domain>(
    rules: Seq<RuleSpec<D>>,
    k: D::EventKind,
    m: Map<Seq<char>, Cond>,
    start: int,
)
    where D::Guard: CondNode<D>
    requires
        0 <= start <= rules.len(),
    ensures
        match first_taken_from(rules, k, m, start) {
            Some(j) => start <= j < rules.len() && takes(rules[j], k, m) && forall|t: int|
                start <= t < j ==> !takes(#[trigger] rules[t], k, m),
            None => forall|t: int| start <= t < rules.len() ==> !takes(#[trigger] rules[t], k, m),
        },
    decreases rules.len() - start,
{
    if start < rules.len() && !takes(rules[start], k, m) {
        lemma_first_taken_from(rules, k, m, start + 1);
    }
}

/// Every node the rules' guards reference, rule after rule.
pub open spec fn rules_nodes<D: Domain>(rules: Seq<RuleSpec<D>>) -> Seq<D::Guard>
    where D::Guard: CondNode<D>
    decreases rules.len(),
{
    if rules.len() == 0 {
        Seq::empty()
    } else {
        rules_nodes(rules.drop_last()) + rules.last().check.spec_nodes()
    }
}

/// A node of one rule's guard is a node of the rules.
pub proof fn lemma_rules_nodes_contain<D: Domain>(rules: Seq<RuleSpec<D>>, t: int)
    where D::Guard: CondNode<D>
    requires
        0 <= t < rules.len(),
    ensures
        forall|g: D::Guard| #[trigger] rules[t].check.spec_nodes().contains(g) ==> rules_nodes(rules).contains(g),
    decreases rules.len(),
{
    lemma_concat_contains(rules_nodes(rules.drop_last()), rules.last().check.spec_nodes());
    if t < rules.len() - 1 {
        lemma_rules_nodes_contain(rules.drop_last(), t);
        assert(rules.drop_last()[t] == rules[t]);
    }
}

/// Whether `rule` is taken for `ev`, of kind `k`, in `world`: it is considered
/// for `k` and its policy accepts what its guard nodes answer.
pub open spec fn truly_takes<D: Domain>(rule: RuleSpec<D>, k: D::EventKind, ev: D::Event, world: D::World) -> bool
    where D::Guard: CondNode<D>
{
    considers(rule, k) && rule.unknown.spec_accepts(rule.check.spec_truth(ev, world))
}

/// The first rule at or after `start` taken for `ev`, of kind `k`, in `world`.
pub open spec fn first_truly_taken_from<D: Domain>(
    rules: Seq<RuleSpec<D>>,
    k: D::EventKind,
    ev: D::Event,
    world: D::World,
    start: int,
) -> Option<int>
    where D::Guard: CondNode<D>
    decreases rules.len() - start,
{
    if start < 0 || start >= rules.len() {
        None
    } else if truly_takes(rules[start], k, ev, world) {
        Some(start)
    } else {
        first_truly_taken_from(rules, k, ev, world, start + 1)
    }
}

/// The rule dispatch takes for `ev`, of kind `k`, in `world`: the first, in
/// declaration order, considered for `k` whose policy accepts what its guard
/// nodes answer.
pub open spec fn first_truly_taken<D: Domain>(
    rules: Seq<RuleSpec<D>>,
    k: D::EventKind,
    ev: D::Event,
    world: D::World,
) -> Option<int>
    where D::Guard: CondNode<D>
{
    first_truly_taken_from(rules, k, ev, world, 0)
}

/// `first_truly_taken_from` finds exactly the first rule taken at or after
/// `start`.
pub proof fn lemma_first_truly_taken_from<D: Domain>(
    rules: Seq<RuleSpec<D>>,
    k: D::EventKind,
    ev: D::Event,
    world: D::World,
    start: int,
)
    where D::Guard: CondNode<D>
    requires
        0 <= start <= rules.len(),
    ensures
        match first_truly_taken_from(rules, k, ev, world, start) {
            Some(j) => start <= j < rules.len() && truly_takes(rules[j], k, ev, world) && forall|t: int|
                start <= t < j ==> !truly_takes(#[trigger] rules[t], k, ev, world),
            None => forall|t: int| start <= t < rules.len() ==> !truly_takes(#[trigger] rules[t], k, ev, world),
        },
    decreases rules.len() - start,
{
    if start < rules.len() && !truly_takes(rules[start], k, ev, world) {
        lemma_first_truly_taken_from(rules, k, ev, world, start + 1);
    }
}

/// When the answers `m` give every rule up to `upto` that is considered its
/// true value, and the rule `m` selects lies below `upto` (or `m` selects none
/// and `upto` covers all rules), `m` selects the rule the nodes select.
proof fn lemma_true_answers_decide<D: Domain>(
    rules: Seq<RuleSpec<D>>,
    k: D::EventKind,
    m: Map<Seq<char>, Cond>,
    ev: D::Event,
    world: D::World,
    upto: int,
)
    where D::Guard: CondNode<D>
    requires
        0 <= upto <= rules.len(),
        forall|t: int|
            0 <= t < upto && considers(#[trigger] rules[t], k) ==> rules[t].check.value(m)
                == rules[t].check.spec_truth(ev, world),
        match first_taken(rules, k, m) {
            Some(j) => j < upto,
            None => upto == rules.len(),
        },
    ensures
        first_taken(rules, k, m) == first_truly_taken(rules, k, ev, world),
{
    lemma_first_taken_from(rules, k, m, 0);
    lemma_first_truly_taken_from(rules, k, ev, world, 0);
    assert forall|t: int| 0 <= t < upto implies (takes(#[trigger] rules[t], k, m) <==> truly_takes(
        rules[t],
        k,
        ev,
        world,
    )) by {}
    match first_taken(rules, k, m) {
        Some(j) => {
            assert(truly_takes(rules[j], k, ev, world));
            match first_truly_taken(rules, k, ev, world) {
                Some(j2) => {
                    if j2 < j {
                        assert(takes(rules[j2], k, m));
                    }
                    if j2 > j {
                        assert(!truly_takes(rules[j], k, ev, world));
                    }
                },
                None => {},
            }
        },
        None => {
            match first_truly_taken(rules, k, ev, world) {
                Some(j2) => {
                    assert(takes(rules[j2], k, m));
                },
                None => {},
            }
        },
    }
}

/// What dispatch's scan does from rule `start` on, with the node answers `m`
/// already recorded, for `ev`, of kind `k`, in `world`: the rule it takes, if
/// any, and the answers it ends with. Rules not considered for `k` are
/// skipped without evaluating their guards; a considered rule's guard is
/// evaluated against the answers so far ([`Expr::replay`]); the scan stops at
/// the first rule whose policy accepts its guard, evaluating no later guard.
pub open spec fn scan_rules<D: Domain>(
    rules: Seq<RuleSpec<D>>,
    k: D::EventKind,
    ev: D::Event,
    world: D::World,
    m: Map<Seq<char>, Cond>,
    start: int,
) -> (Option<int>, Map<Seq<char>, Cond>)
    where D::Guard: CondNode<D>
    decreases rules.len() - start,
{
    if start < 0 || start >= rules.len() {
        (None, m)
    } else if considers(rules[start], k) {
        let (c, m1) = rules[start].check.replay(m, ev, world);
        if rules[start].unknown.spec_accepts(c) {
            (Some(start), m1)
        } else {
            scan_rules(rules, k, ev, world, m1, start + 1)
        }
    } else {
        scan_rules(rules, k, ev, world, m, start + 1)
    }
}

/// The rule dispatch takes for `ev`, of kind `k`, in `world`: its scan from
/// the first rule with no answer recorded.
pub open spec fn dispatch_choice<D: Domain>(
    rules: Seq<RuleSpec<D>>,
    k: D::EventKind,
    ev: D::Event,
    world: D::World,
) -> Option<int>
    where D::Guard: CondNode<D>
{
    scan_rules(rules, k, ev, world, Map::empty(), 0).0
}

/// Dispatch keeps every answer once recorded: a node name is asked at most
/// once per dispatch, and every later rule sees its first answer.
pub proof fn lemma_scan_keeps_answers<D: Domain>(
    rules: Seq<RuleSpec<D>>,
    k: D::EventKind,
    ev: D::Event,
    world: D::World,
    m: Map<Seq<char>, Cond>,
    start: int,
)
    where D::Guard: CondNode<D>
    ensures
        forall|name: Seq<char>|
            #[trigger] m.contains_key(name) ==> scan_rules(rules, k, ev, world, m, start).1.contains_key(name)
                && scan_rules(rules, k, ev, world, m, start).1[name] == m[name],
    decreases rules.len() - start,
{
    if 0 <= start < rules.len() {
        if considers(rules[start], k) {
            rules[start].check.lemma_replay_keeps_answers(m, ev, world);
            let m1 = rules[start].check.replay(m, ev, world).1;
            lemma_scan_keeps_answers(rules, k, ev, world, m1, start + 1);
        } else {
            lemma_scan_keeps_answers(rules, k, ev, world, m, start + 1);
        }
    }
}

/// What a feature handles depends only on which kinds its rules are
/// considered for: two rule tables considered for the same kinds handle the
/// same kinds, in the same order.
pub proof fn lemma_handles_depends_on_kinds_only<D: Domain>(
    all: Seq<D::EventKind>,
    r1: Seq<RuleSpec<D>>,
    r2: Seq<RuleSpec<D>>,
)
    requires
        forall|k: D::EventKind| handled_by(r1, k) <==> handled_by(r2, k),
    ensures
        handled_kinds(all, r1) == handled_kinds(all, r2),
    decreases all.len(),
{
    if all.len() > 0 {
        lemma_handles_depends_on_kinds_only(all.drop_last(), r1, r2);
    }
}

/// Whether rules `a` and `b` are considered for the same kinds.
pub open spec fn same_considered<D: Domain>(a: RuleSpec<D>, b: RuleSpec<D>) -> bool {
    forall|k: D::EventKind| considers(a, k) <==> considers(b, k)
}

/// Reordering a feature's rules, or the kinds a rule lists, does not change
/// what it handles: if every rule of each table has a rule in the other
/// considered for the same kinds, both handle the same kinds, in the same
/// order.
pub proof fn lemma_reordered_rules_handle_alike<D: Domain>(
    all: Seq<D::EventKind>,
    r1: Seq<RuleSpec<D>>,
    r2: Seq<RuleSpec<D>>,
)
    requires
        forall|i: int|
            #![trigger r1[i]]
            0 <= i < r1.len() ==> exists|j: int| 0 <= j < r2.len() && #[trigger] same_considered(r1[i], r2[j]),
        forall|j: int|
            #![trigger r2[j]]
            0 <= j < r2.len() ==> exists|i: int| 0 <= i < r1.len() && #[trigger] same_considered(r2[j], r1[i]),
    ensures
        handled_kinds(all, r1) == handled_kinds(all, r2),
{
    assert forall|k: D::EventKind| handled_by(r1, k) <==> handled_by(r2, k) by {
        if handled_by(r1, k) {
            let i = choose|i: int| 0 <= i < r1.len() && considers(#[trigger] r1[i], k);
            let j = choose|j: int| 0 <= j < r2.len() && #[trigger] same_considered(r1[i], r2[j]);
            assert(considers(r2[j], k));
        }
        if handled_by(r2, k) {
            let j = choose|j: int| 0 <= j < r2.len() && considers(#[trigger] r2[j], k);
            let i = choose|i: int| 0 <= i < r1.len() && #[trigger] same_considered(r2[j], r1[i]);
            assert(considers(r1[i], k));
        }
    }
    lemma_handles_depends_on_kinds_only(all, r1, r2);
}

/// Declaration order is priority, and a rule with no guard is a fallback: if
/// rule `i` is considered for `k` and unguarded, dispatch takes rule `i` or a
/// rule declared before it, whatever the nodes answer.
pub proof fn lemma_unguarded_rule_is_a_fallback<D: Domain>(
    rules: Seq<RuleSpec<D>>,
    k: D::EventKind,
    m: Map<Seq<char>, Cond>,
    i: int,
)
    where D::Guard: CondNode<D>
    requires
        0 <= i < rules.len(),
        considers(rules[i], k),
        rules[i].check == Expr::<D>::Always,
    ensures
        first_taken(rules, k, m) matches Some(j) && j <= i,
{
    lemma_first_taken_from(rules, k, m, 0);
    assert(takes(rules[i], k, m));
}

/// An event whose kind no rule is considered for takes no rule, whatever the
/// nodes answer.
pub proof fn lemma_unconsidered_kind_takes_nothing<D: Domain>(
    rules: Seq<RuleSpec<D>>,
    k: D::EventKind,
    m: Map<Seq<char>, Cond>,
)
    where D::Guard: CondNode<D>
    requires
        !handled_by(rules, k),
    ensures
        first_taken(rules, k, m) is None,
{
    lemma_first_taken_from(rules, k, m, 0);
    if first_taken(rules, k, m) is Some {
        let j = first_taken(rules, k, m)->0;
        assert(considers(rules[j], k));
    }
}

/// What a feature handles is the set of kinds its rules are considered for,
/// listed in the order of the domain's kinds: a kind is listed exactly when the
/// domain lists it and some rule is considered for it.
pub proof fn lemma_handles_is_the_union<D: Domain>(all: Seq<D::EventKind>, rules: Seq<RuleSpec<D>>)
    ensures
        forall|k: D::EventKind|
            handled_kinds(all, rules).contains(k) <==> (all.contains(k) && handled_by(rules, k)),
    decreases all.len(),
{
    if all.len() > 0 {
        lemma_handles_is_the_union(all.drop_last(), rules);
        assert forall|k: D::EventKind|
            handled_kinds(all, rules).contains(k) <==> (all.contains(k) && handled_by(rules, k)) by {
            lemma_contains_split(all, k);
            lemma_push_contains(handled_kinds(all.drop_last(), rules), all.last(), k);
        }
    }
}

/// `dedup` keeps exactly the names of `s`, each once.
pub proof fn lemma_dedup(s: Seq<Seq<char>>)
    ensures
        dedup(s).no_duplicates(),
        forall|n: Seq<char>| dedup(s).contains(n) <==> s.contains(n),
    decreases s.len(),
{
    if s.len() > 0 {
        let init = s.drop_last();
        lemma_dedup(init);
        assert forall|n: Seq<char>| dedup(s).contains(n) <==> s.contains(n) by {
            lemma_contains_split(s, n);
            lemma_push_contains(dedup(init), s.last(), n);
        }
        if !dedup(init).contains(s.last()) {
            let d = dedup(s);
            assert forall|i: int, j: int| 0 <= i < d.len() && 0 <= j < d.len() && i != j implies d[i]
                != d[j] by {
                if i == d.len() - 1 {
                    assert(dedup(init)[j] == d[j]);
                } else if j == d.len() - 1 {
                    assert(dedup(init)[i] == d[i]);
                } else {
                    assert(dedup(init)[i] == d[i] && dedup(init)[j] == d[j]);
                }
            }
        }
    }
}

/// What a feature emits is every action name its rules emit, each once, in
/// the order the rules first name it.
pub proof fn lemma_emits_is_the_union_without_repeats<D: Domain>(rules: Seq<RuleSpec<D>>)
    ensures
        emitted_names(rules).no_duplicates(),
        forall|n: Seq<char>| emitted_names(rules).contains(n) <==> all_emits(rules).contains(n),
{
    lemma_dedup(all_emits(rules));
}

/// One feature of a controller: its own effects, and the table that decides
/// between them.
///
/// The whole implementation is the table plus [`Feature::perform`]. There is no
/// handler, so a feature can do nothing the table does not say.
pub trait Feature: Sync + 'static {
    /// The vocabulary this feature works in.
    type Domain: Domain;

    /// This feature's effects, each with the name the documents print.
    type Action: Named + Copy + 'static;

    /// Display name, used in tables and diagrams.
    const NAME: &'static str;

    /// The rules, in priority order.
    const RULES: &'static [Rule<Self::Domain, Self::Action>];

    /// How carrying out `action` for `ev` turns the world `before` into
    /// `after`.
    closed spec fn spec_performed(
        action: Self::Action,
        ev: EventOf<Self::Domain>,
        before: WorldOf<Self::Domain>,
        after: WorldOf<Self::Domain>,
    ) -> bool {
        // Unspecified unless the implementation states it.
        arbitrary()
    }

    /// Carries out one of this feature's actions — the only place it may mutate
    /// the world, since guards see `&World`.
    ///
    /// - `action`: the effect to carry out.
    /// - `ev`: the event being dispatched, for effects that need a value from
    ///   its payload.
    /// - `world`: the outside world to mutate.
    fn perform(
        action: Self::Action,
        ev: &EventOf<Self::Domain>,
        world: &mut WorldOf<Self::Domain>,
    )
        ensures
            Self::spec_performed(action, *ev, *old(world), *final(world)),
    ;
}

/// Whether performing `acts` in order, each through [`Feature::perform`], can
/// turn `before` into `after`.
pub open spec fn performs_all<F: Feature>(
    acts: Seq<F::Action>,
    ev: EventOf<F::Domain>,
    before: WorldOf<F::Domain>,
    after: WorldOf<F::Domain>,
) -> bool
    decreases acts.len(),
{
    if acts.len() == 0 {
        before == after
    } else {
        exists|mid: WorldOf<F::Domain>|
            performs_all::<F>(acts.drop_last(), ev, before, mid)
                && #[trigger] F::spec_performed(acts.last(), ev, mid, after)
    }
}

/// Performing one more action extends a run by that action.
proof fn lemma_performs_one_more<F: Feature>(
    acts: Seq<F::Action>,
    ev: EventOf<F::Domain>,
    before: WorldOf<F::Domain>,
    mid: WorldOf<F::Domain>,
    after: WorldOf<F::Domain>,
)
    requires
        acts.len() > 0,
        performs_all::<F>(acts.drop_last(), ev, before, mid),
        F::spec_performed(acts.last(), ev, mid, after),
    ensures
        performs_all::<F>(acts, ev, before, after),
{
}

/// One rule, flattened for rendering: its actions as text.
pub struct RuleRow<D: Domain> {
    /// The rule's id.
    pub id: &'static str,
    /// The kinds this rule is considered for.
    pub when: &'static [D::EventKind],
    /// The guard, rendered by [`Expr::render`]. Empty for an unguarded rule.
    pub guard: String,
    /// What the rule does when its guard is undecidable.
    pub unknown: OnUnknown,
    /// The actions it emits, in order.
    pub emit: Vec<String>,
}

/// Whether `row` is `rule`, flattened.
pub open spec fn row_of<D: Domain>(row: RuleRow<D>, rule: RuleSpec<D>) -> bool
    where D::Guard: CondNode<D>
{
    &&& row.id@ == rule.id
    &&& row.when@ == rule.when
    &&& row.guard@ == rule.check.spec_render()
    &&& row.unknown == rule.unknown
    &&& strings_view(row.emit@) == rule.emit
}

/// The uniform face of a [`Feature`], so a controller can keep features of
/// different action types in one list and walk it.
///
/// Implemented for every [`Feature`] automatically. It is what a controller
/// dispatches through and what the renderers read, so the list a controller
/// documents is the list it runs.
pub trait AnyFeature<D: Domain>: Sync where D::Guard: CondNode<D> {
    /// The display name, as characters.
    spec fn spec_name(&self) -> Seq<char>;

    /// The rules, in priority order.
    spec fn spec_rules(&self) -> Seq<RuleSpec<D>>;

    /// Whether running the actions of rule `rule` for `ev` can turn `before`
    /// into `after`.
    spec fn spec_runs(&self, rule: int, ev: D::Event, before: D::World, after: D::World) -> bool;

    /// Display name, used in tables and diagrams.
    fn name(&self) -> (name: &'static str)
        ensures
            name@ == self.spec_name(),
    ;

    /// The event kinds some rule is considered for, in [`Domain::all_kinds`]
    /// order rather than the order the rules happen to list them.
    fn handles(&self) -> (kinds: Vec<D::EventKind>)
        ensures
            kinds@ == handled_kinds(D::spec_all_kinds(), self.spec_rules()),
    ;

    /// The names of the actions some rule may emit, in declaration order,
    /// without repeats.
    fn emits(&self) -> (names: Vec<String>)
        ensures
            strings_view(names@) == emitted_names(self.spec_rules()),
    ;

    /// Every rule, in priority order.
    fn rows(&self) -> (rows: Vec<RuleRow<D>>)
        ensures
            rows@.len() == self.spec_rules().len(),
            forall|i: int| 0 <= i < rows@.len() ==> row_of(#[trigger] rows@[i], self.spec_rules()[i]),
    ;

    /// Appends (name, identity) for every guard node this feature's rules
    /// reference, rule after rule.
    fn node_ids(&self, out: &mut Vec<(&'static str, usize)>)
        ensures
            ids_view(final(out)@) == ids_view(old(out)@) + rules_node_ids(self.spec_rules()),
    ;

    /// Takes the first rule that matches `ev` and carries out its actions.
    ///
    /// A rule matches when it is considered for the event's kind and its
    /// policy accepts its guard. The rules are scanned in declaration order
    /// ([`scan_rules`]): a rule not considered has its guard left alone, and no
    /// guard after the rule taken is evaluated. Guards are evaluated with one
    /// [`Memo`] for the whole call, so a node name is asked once per dispatch
    /// and every later rule sees that answer: a second node answering to the
    /// same name inherits the first's result. Where nodes sharing a name answer
    /// alike, as they do when names are unique, the rule taken is the first
    /// whose policy accepts its guard's value.
    ///
    /// Returns the id of the rule that ran, or `None` if none matched, in which
    /// case the world is left as it was.
    fn dispatch(&self, ev: &D::Event, world: &mut D::World) -> (taken: Option<&'static str>)
        ensures
            match dispatch_choice(self.spec_rules(), ev.spec_kind(), *ev, *old(world)) {
                None => taken is None && *final(world) == *old(world),
                Some(i) => taken matches Some(id) && id@ == self.spec_rules()[i].id && self.spec_runs(
                    i,
                    *ev,
                    *old(world),
                    *final(world),
                ),
            },
            names_decide::<D>(rules_nodes(self.spec_rules()), *ev, *old(world)) ==> match first_truly_taken(
                self.spec_rules(),
                ev.spec_kind(),
                *ev,
                *old(world),
            ) {
                None => taken is None && *final(world) == *old(world),
                Some(i) => taken matches Some(id) && id@ == self.spec_rules()[i].id && self.spec_runs(
                    i,
                    *ev,
                    *old(world),
                    *final(world),
                ),
            },
            taken is None ==> *final(world) == *old(world),
    ;
}

impl<F: Feature> AnyFeature<F::Domain> for F where <F::Domain as Domain>::Guard: CondNode<F::Domain> {
    open spec fn spec_name(&self) -> Seq<char> {
        F::NAME@
    }

    open spec fn spec_rules(&self) -> Seq<RuleSpec<F::Domain>> {
        F::RULES@.map_values(|r: Rule<F::Domain, F::Action>| rule_spec(r))
    }

    open spec fn spec_runs(
        &self,
        rule: int,
        ev: EventOf<F::Domain>,
        before: WorldOf<F::Domain>,
        after: WorldOf<F::Domain>,
    ) -> bool {
        performs_all::<F>(F::RULES@[rule].emit@, ev, before, after)
    }

    fn name(&self) -> (name: &'static str) {
        F::NAME
    }

    fn handles(&self) -> (kinds: Vec<<F::Domain as Domain>::EventKind>) {
        let all = <F::Domain as Domain>::all_kinds();
        let ghost rules = self.spec_rules();
        let mut out: Vec<<F::Domain as Domain>::EventKind> = Vec::new();
        let mut i: usize = 0;
        while i < all.len()
            invariant
                0 <= i <= all@.len(),
                all@ == <F::Domain as Domain>::spec_all_kinds(),
                rules == self.spec_rules(),
                out@ == handled_kinds(all@.take(i as int), rules),
            decreases all@.len() - i,
        {
            let k = all[i];
            let hit = rule_considers::<F>(&k);
            if hit {
                out.push(k);
            }
            assert(all@.take(i + 1).drop_last() =~= all@.take(i as int));
            i = i + 1;
        }
        assert(all@.take(all@.len() as int) =~= all@);
        out
    }

    fn emits(&self) -> (names: Vec<String>) {
        let ghost rules = self.spec_rules();
        let mut out: Vec<String> = Vec::new();
        let mut i: usize = 0;
        while i < F::RULES.len()
            invariant
                0 <= i <= F::RULES@.len(),
                rules == self.spec_rules(),
                strings_view(out@) == dedup(all_emits(rules.take(i as int))),
            decreases F::RULES@.len() - i,
        {
            let emit = F::RULES[i].emit;
            let ghost names = rules[i as int].emit;
            assert(names == emit@.map_values(|a: F::Action| a.spec_name()));
            let mut j: usize = 0;
            assert(all_emits(rules.take(i as int)) + names.take(0) =~= all_emits(
                rules.take(i as int),
            ));
            while j < emit.len()
                invariant
                    0 <= j <= emit@.len(),
                    names == emit@.map_values(|a: F::Action| a.spec_name()),
                    strings_view(out@) == dedup(all_emits(rules.take(i as int)) + names.take(j as int)),
                decreases emit@.len() - j,
            {
                let name = emit[j].name();
                let ghost before = all_emits(rules.take(i as int)) + names.take(j as int);
                let ghost after = all_emits(rules.take(i as int)) + names.take(j + 1);
                assert(after.drop_last() =~= before);
                assert(after.last() == name@);
                if !contains_string(&out, &name) {
                    let ghost prev = out@;
                    out.push(name);
                    assert(strings_view(out@) =~= strings_view(prev).push(name@));
                }
                j = j + 1;
            }
            assert(names.take(emit@.len() as int) =~= names);
            assert(rules.take(i + 1).drop_last() =~= rules.take(i as int));
            i = i + 1;
        }
        assert(rules.take(F::RULES@.len() as int) =~= rules);
        out
    }

    fn rows(&self) -> (rows: Vec<RuleRow<F::Domain>>) {
        let mut out: Vec<RuleRow<F::Domain>> = Vec::new();
        let mut i: usize = 0;
        while i < F::RULES.len()
            invariant
                0 <= i <= F::RULES@.len(),
                out@.len() == i,
                forall|t: int| 0 <= t < i ==> row_of(#[trigger] out@[t], self.spec_rules()[t]),
            decreases F::RULES@.len() - i,
        {
            let r = &F::RULES[i];
            let mut emit: Vec<String> = Vec::new();
            let mut j: usize = 0;
            while j < r.emit.len()
                invariant
                    0 <= j <= r.emit@.len(),
                    strings_view(emit@) == r.emit@.take(j as int).map_values(
                        |a: F::Action| a.spec_name(),
                    ),
                decreases r.emit@.len() - j,
            {
                let name = r.emit[j].name();
                let ghost prev = emit@;
                emit.push(name);
                assert(strings_view(emit@) =~= strings_view(prev).push(name@));
                assert(strings_view(emit@) =~= r.emit@.take(j + 1).map_values(
                    |a: F::Action| a.spec_name(),
                ));
                j = j + 1;
            }
            assert(r.emit@.take(r.emit@.len() as int) =~= r.emit@);
            let row = RuleRow {
                id: r.id,
                when: r.when,
                guard: r.check.render(),
                unknown: r.unknown,
                emit,
            };
            out.push(row);
            i = i + 1;
        }
        out
    }

    fn node_ids(&self, out: &mut Vec<(&'static str, usize)>) {
        let ghost rules = self.spec_rules();
        let ghost start = out@;
        let mut i: usize = 0;
        assert(ids_view(out@) =~= ids_view(start) + rules_node_ids(rules.take(0)));
        while i < F::RULES.len()
            invariant
                0 <= i <= F::RULES@.len(),
                rules == self.spec_rules(),
                ids_view(out@) == ids_view(start) + rules_node_ids(rules.take(i as int)),
            decreases F::RULES@.len() - i,
        {
            F::RULES[i].check.node_ids(out);
            assert(rules.take(i + 1).drop_last() =~= rules.take(i as int));
            assert(ids_view(out@) =~= ids_view(start) + rules_node_ids(rules.take(i + 1)));
            i = i + 1;
        }
        assert(rules.take(F::RULES@.len() as int) =~= rules);
    }

    fn dispatch(
        &self,
        ev: &EventOf<F::Domain>,
        world: &mut WorldOf<F::Domain>,
    ) -> (taken: Option<&'static str>) {
        let kind = ev.kind();
        let ghost rules = self.spec_rules();
        let mut memo = Memo::new();
        let hit = select::<F>(ev, &*world, &kind, &mut memo);
        match hit {
            None => {
                assert(first_taken(rules, ev.spec_kind(), memo@) is None);
                None
            },
            Some(h) => {
                proof {
                    lemma_first_taken_from(rules, ev.spec_kind(), memo@, 0);
                }
                let rule = &F::RULES[h];
                let ghost w0 = *world;
                let mut j: usize = 0;
                assert(rule.emit@.take(0) =~= Seq::<F::Action>::empty());
                while j < rule.emit.len()
                    invariant
                        0 <= j <= rule.emit@.len(),
                        performs_all::<F>(rule.emit@.take(j as int), *ev, w0, *world),
                    decreases rule.emit@.len() - j,
                {
                    let ghost mid = *world;
                    F::perform(rule.emit[j], ev, world);
                    proof {
                        assert(rule.emit@.take(j + 1).drop_last() =~= rule.emit@.take(j as int));
                        lemma_performs_one_more::<F>(rule.emit@.take(j + 1), *ev, w0, mid, *world);
                    }
                    j = j + 1;
                }
                assert(rule.emit@.take(rule.emit@.len() as int) =~= rule.emit@);
                assert(first_taken(rules, ev.spec_kind(), memo@) == Some(h as int));
                Some(rule.id)
            },
        }
    }
}

/// Whether some rule of `F` is considered for `k`.
fn rule_considers<F: Feature>(k: &<F::Domain as Domain>::EventKind) -> (hit: bool)
    where <F::Domain as Domain>::Guard: CondNode<F::Domain>
    ensures
        hit == handled_by(F::RULES@.map_values(|r: Rule<F::Domain, F::Action>| rule_spec(r)), *k),
{
    let ghost rules = F::RULES@.map_values(|r: Rule<F::Domain, F::Action>| rule_spec(r));
    let mut i: usize = 0;
    while i < F::RULES.len()
        invariant
            0 <= i <= F::RULES@.len(),
            rules == F::RULES@.map_values(|r: Rule<F::Domain, F::Action>| rule_spec(r)),
            forall|t: int| 0 <= t < i ==> !considers(#[trigger] rules[t], *k),
        decreases F::RULES@.len() - i,
    {
        if contains_value(F::RULES[i].when, k) {
            assert(considers(rules[i as int], *k));
            return true;
        }
        i = i + 1;
    }
    false
}

/// Scans `F`'s rules for the first one taken for an event of kind `kind`,
/// evaluating guards against `memo`.
fn select<F: Feature>(
    ev: &EventOf<F::Domain>,
    world: &WorldOf<F::Domain>,
    kind: &<F::Domain as Domain>::EventKind,
    memo: &mut Memo,
) -> (hit: Option<usize>)
    where <F::Domain as Domain>::Guard: CondNode<F::Domain>
    requires
        old(memo)@ == Map::<Seq<char>, Cond>::empty(),
    ensures
        scan_rules(
            F::RULES@.map_values(|r: Rule<F::Domain, F::Action>| rule_spec(r)),
            *kind,
            *ev,
            *world,
            Map::empty(),
            0,
        ) == (match hit {
            Some(i) => Some(i as int),
            None => None,
        }, final(memo)@),
        answered_by::<F::Domain>(
            Map::empty(),
            final(memo)@,
            rules_nodes(F::RULES@.map_values(|r: Rule<F::Domain, F::Action>| rule_spec(r))),
            *ev,
            *world,
        ),
        names_decide::<F::Domain>(
            rules_nodes(F::RULES@.map_values(|r: Rule<F::Domain, F::Action>| rule_spec(r))),
            *ev,
            *world,
        ) ==> first_taken(
            F::RULES@.map_values(|r: Rule<F::Domain, F::Action>| rule_spec(r)),
            *kind,
            final(memo)@,
        ) == first_truly_taken(
            F::RULES@.map_values(|r: Rule<F::Domain, F::Action>| rule_spec(r)),
            *kind,
            *ev,
            *world,
        ),
        match hit {
            Some(i) => first_taken(
                F::RULES@.map_values(|r: Rule<F::Domain, F::Action>| rule_spec(r)),
                *kind,
                final(memo)@,
            ) == Some(i as int),
            None => first_taken(
                F::RULES@.map_values(|r: Rule<F::Domain, F::Action>| rule_spec(r)),
                *kind,
                final(memo)@,
            ) is None,
        },
{
    let ghost rules = F::RULES@.map_values(|r: Rule<F::Domain, F::Action>| rule_spec(r));
    let cx = Cx::new(ev, world);
    let mut i: usize = 0;
    while i < F::RULES.len()
        invariant
            0 <= i <= F::RULES@.len(),
            rules == F::RULES@.map_values(|r: Rule<F::Domain, F::Action>| rule_spec(r)),
            forall|t: int| 0 <= t < i ==> !takes(#[trigger] rules[t], *kind, memo@),
            forall|t: int|
                0 <= t < i && considers(#[trigger] rules[t], *kind) ==> rules[t].check.asked(
                    memo@,
                ).subset_of(memo@.dom()),
            cx.event == ev,
            cx.world == world,
            scan_rules(rules, *kind, *ev, *world, Map::empty(), 0) == scan_rules(
                rules,
                *kind,
                *ev,
                *world,
                memo@,
                i as int,
            ),
            answered_by::<F::Domain>(Map::empty(), memo@, rules_nodes(rules), *ev, *world),
            names_decide::<F::Domain>(rules_nodes(rules), *ev, *world) ==> forall|t: int|
                0 <= t < i && considers(#[trigger] rules[t], *kind) ==> rules[t].check.value(memo@)
                    == rules[t].check.spec_truth(*ev, *world),
        decreases F::RULES@.len() - i,
    {
        let r = &F::RULES[i];
        if contains_value(r.when, kind) {
            let ghost m0 = memo@;
            let c = r.check.eval(&cx, memo);
            proof {
                let all = rules_nodes(rules);
                let mine = rules[i as int].check.spec_nodes();
                lemma_rules_nodes_contain(rules, i as int);
                lemma_answered_chain::<F::Domain>(Map::empty(), m0, memo@, all, mine, all, *ev, *world);
                if names_decide::<F::Domain>(all, *ev, *world) {
                    assert forall|g: <F::Domain as Domain>::Guard|
                        #[trigger] mine.contains(g) && memo@.contains_key(g.spec_name()) implies memo@[g.spec_name()]
                        == g.spec_eval(*ev, *world) by {
                        let h = choose|h: <F::Domain as Domain>::Guard|
                            #[trigger] all.contains(h) && h.spec_name() == g.spec_name() && memo@[g.spec_name()]
                                == h.spec_eval(*ev, *world);
                        assert(all.contains(g));
                    }
                    rules[i as int].check.lemma_true_answers_give_the_truth(memo@, *ev, *world);
                    assert forall|t: int|
                        0 <= t < i + 1 && considers(#[trigger] rules[t], *kind) implies rules[t].check.value(
                        memo@,
                    ) == rules[t].check.spec_truth(*ev, *world) by {
                        if t < i {
                            rules[t].check.lemma_more_answers_change_nothing(m0, memo@);
                        }
                    }
                }
            }
            proof {
                assert(m0.submap_of(memo@));
                assert forall|t: int| 0 <= t < i && considers(#[trigger] rules[t], *kind) implies (
                !takes(rules[t], *kind, memo@) && rules[t].check.asked(memo@).subset_of(
                    memo@.dom(),
                )) by {
                    rules[t].check.lemma_more_answers_change_nothing(m0, memo@);
                }
                assert forall|t: int| 0 <= t < i implies !takes(#[trigger] rules[t], *kind, memo@) by {
                    if considers(rules[t], *kind) {
                        rules[t].check.lemma_more_answers_change_nothing(m0, memo@);
                    }
                }
            }
            if r.unknown.accepts(c) {
                proof {
                    lemma_first_taken_from(rules, *kind, memo@, 0);
                    assert(takes(rules[i as int], *kind, memo@));
                    if names_decide::<F::Domain>(rules_nodes(rules), *ev, *world) {
                        lemma_true_answers_decide(rules, *kind, memo@, *ev, *world, i + 1);
                    }
                }
                return Some(i);
            }
            assert(!takes(rules[i as int], *kind, memo@));
        }
        i = i + 1;
    }
    proof {
        lemma_first_taken_from(rules, *kind, memo@, 0);
        if names_decide::<F::Domain>(rules_nodes(rules), *ev, *world) {
            lemma_true_answers_decide(rules, *kind, memo@, *ev, *world, rules.len() as int);
        }
    }
    None
}

} // verus!
