//! The state machine layer: a transition table and the executor that runs it.
//!
//! A machine is for an event that means different things in different states.
//! Its table is [`MachineSpec::EDGES`]; [`dispatch`] reads it directly, so the
//! diagram drawn from the table and the behaviour cannot come apart.

use vstd::prelude::*;
use vstd::std_specs::cmp::PartialEqSpecImpl;

use crate::enums::{contains_value, lists, Enumerable, HasKind, Named};
use crate::text::str_eq;
use crate::guard::{
    answered_by, lemma_answered_chain, lemma_concat_contains, names_decide, Cond, CondNode, Cx, Expr, Memo,
    OnUnknown,
};
use crate::{ActionOf, Domain, EventOf, KindOf, MachineSpec, StateActionOf, WorldOf};

verus! {

/// One state: a tag plus its entry and exit actions. Static data only —
/// transition logic belongs in the [`Edge`] table.
///
/// They hold [`MachineSpec::StateAction`], from which the event is not
/// reachable; an effect that reads it belongs on an edge.
pub struct State<M: MachineSpec> {
    pub tag: M::Tag,
    /// Actions run on entry, in declaration order.
    pub entry: &'static [StateActionOf<M>],
    /// Actions run on exit, in declaration order.
    pub exit: &'static [StateActionOf<M>],
}

/// The states an edge or an ignore applies in.
pub enum Source<M: MachineSpec> {
    /// Every state.
    Any,
    /// The listed states.
    These(&'static [M::Tag]),
}

impl<M: MachineSpec> Source<M> {
    /// Whether this source covers `tag`.
    pub open spec fn spec_matches(self, tag: M::Tag) -> bool {
        match self {
            Source::Any => true,
            Source::These(tags) => lists(tags@, tag),
        }
    }

    /// Whether this source covers `tag`.
    pub fn matches(&self, tag: M::Tag) -> (hit: bool)
        ensures
            hit == self.spec_matches(tag),
    {
        match self {
            Source::Any => true,
            Source::These(tags) => contains_value(tags, &tag),
        }
    }

    /// The states this source lists, for drawing.
    pub open spec fn spec_expand(self) -> Seq<M::Tag> {
        match self {
            Source::Any => <M::Tag as Enumerable>::ALL@,
            Source::These(tags) => tags@,
        }
    }

    /// The states this source lists: every tag for [`Source::Any`].
    pub fn expand(&self) -> (tags: &'static [M::Tag])
        ensures
            tags@ == self.spec_expand(),
    {
        match self {
            Source::Any => <M::Tag as Enumerable>::ALL,
            Source::These(tags) => *tags,
        }
    }
}

/// Where an edge leads.
pub enum Goto<M: MachineSpec> {
    /// To this state, running the left state's exit and this state's entry.
    To(M::Tag),
    /// Nowhere: only the edge's own actions run.
    Internal,
}

/// One transition: from which states, on which event kind, under which guard,
/// doing what, and to where.
pub struct Edge<M: MachineSpec> {
    /// Names this edge in documents and in what dispatch returns.
    pub id: &'static str,
    /// The states it applies in.
    pub from: Source<M>,
    /// The event kind it reacts to.
    pub when: KindOf<M::Domain>,
    /// The condition, over the event and the world.
    pub check: &'static Expr<M::Domain>,
    /// What to do when `check` is undecidable.
    pub unknown: OnUnknown,
    /// Actions to run, in order, when this edge is taken.
    pub emit: &'static [ActionOf<M>],
    /// Where it leads.
    pub goto: Goto<M>,
}

/// A (state, event) combination deliberately left unhandled, and why.
pub struct Ignore<M: MachineSpec> {
    /// The states it applies in.
    pub from: Source<M>,
    /// The event kinds it covers.
    pub when: &'static [KindOf<M::Domain>],
    /// Why nothing happens here.
    pub why: &'static str,
}

impl<M: MachineSpec> Ignore<M> {
    /// Whether this ignore covers events of `kind` in state `tag`.
    pub open spec fn spec_matches(self, tag: M::Tag, kind: KindOf<M::Domain>) -> bool {
        self.from.spec_matches(tag) && lists(self.when@, kind)
    }

    /// Whether this ignore covers events of `kind` in state `tag`.
    pub fn matches(&self, tag: M::Tag, kind: KindOf<M::Domain>) -> (hit: bool)
        ensures
            hit == self.spec_matches(tag, kind),
    {
        self.from.matches(tag) && contains_value(self.when, &kind)
    }
}

/// The outcome of one [`dispatch`] call, for tests and logs.
///
/// The three lists are borrowed from the tables and each ran in full. Field
/// order is execution order.
pub struct Taken<M: MachineSpec> {
    /// The id of the edge that was selected.
    pub edge: &'static str,
    /// The left state's exit actions. Empty for [`Goto::Internal`].
    pub exit: &'static [StateActionOf<M>],
    /// The selected edge's own actions.
    pub emit: &'static [ActionOf<M>],
    /// The entered state's entry actions. Empty for [`Goto::Internal`].
    pub entry: &'static [StateActionOf<M>],
}

impl<M: MachineSpec> Clone for Taken<M> {
    fn clone(&self) -> (copy: Self)
        ensures
            copy == *self,
    {
        *self
    }
}

impl<M: MachineSpec> Copy for Taken<M> {

}

/// The names of `acts`, in order.
pub open spec fn names_in<A: Named>(acts: Seq<A>) -> Seq<Seq<char>> {
    acts.map_values(|a: A| a.spec_name())
}

/// Whether `a` and `b` list actions of the same names, in the same order.
fn same_names<A: Named>(a: &[A], b: &[A]) -> (same: bool)
    ensures
        same == (names_in(a@) == names_in(b@)),
{
    if a.len() != b.len() {
        proof {
            assert(names_in(a@).len() != names_in(b@).len());
        }
        return false;
    }
    let mut i: usize = 0;
    while i < a.len()
        invariant
            0 <= i <= a@.len(),
            a@.len() == b@.len(),
            forall|t: int| 0 <= t < i ==> (#[trigger] a@[t]).spec_name() == b@[t].spec_name(),
        decreases a@.len() - i,
    {
        let x = a[i].name();
        let y = b[i].name();
        if !str_eq(x.as_str(), y.as_str()) {
            proof {
                assert(names_in(a@)[i as int] != names_in(b@)[i as int]);
            }
            return false;
        }
        i = i + 1;
    }
    assert(names_in(a@) =~= names_in(b@));
    true
}

impl<M: MachineSpec> PartialEq for Taken<M> {
    /// Two outcomes are equal when they name the same edge and ran actions of
    /// the same names, in the same order.
    fn eq(&self, other: &Self) -> (same: bool) {
        str_eq(self.edge, other.edge) && same_names(self.exit, other.exit) && same_names(
            self.emit,
            other.emit,
        ) && same_names(self.entry, other.entry)
    }
}

impl<M: MachineSpec> PartialEqSpecImpl for Taken<M> {
    open spec fn obeys_eq_spec() -> bool {
        true
    }

    open spec fn eq_spec(&self, other: &Self) -> bool {
        &&& self.edge@ == other.edge@
        &&& names_in(self.exit@) == names_in(other.exit@)
        &&& names_in(self.emit@) == names_in(other.emit@)
        &&& names_in(self.entry@) == names_in(other.entry@)
    }
}

/// Whether the state table has an entry for `tag`.
pub open spec fn listed<M: MachineSpec>(tag: M::Tag) -> bool {
    exists|i: int|
        0 <= i < M::STATES@.len() && (#[trigger] M::STATES@[i]).tag.spec_ordinal() == tag.spec_ordinal()
}

/// Whether every edge's target has an entry in the state table.
pub open spec fn targets_listed<M: MachineSpec>() -> bool {
    forall|i: int|
        0 <= i < M::EDGES@.len() ==> match (#[trigger] M::EDGES@[i]).goto {
            Goto::To(t) => listed::<M>(t),
            Goto::Internal => true,
        }
}

/// The position of the first state table entry at or after `start` for `tag`.
pub open spec fn state_index_from<M: MachineSpec>(tag: M::Tag, start: int) -> int
    decreases M::STATES@.len() - start,
{
    if start < 0 || start >= M::STATES@.len() {
        M::STATES@.len() as int
    } else if M::STATES@[start].tag.spec_ordinal() == tag.spec_ordinal() {
        start
    } else {
        state_index_from::<M>(tag, start + 1)
    }
}

/// The state table entry for `tag`: the first one listing it.
pub open spec fn state_of<M: MachineSpec>(tag: M::Tag) -> State<M> {
    M::STATES@[state_index_from::<M>(tag, 0)]
}

/// `state_index_from` finds the first entry for `tag` at or after `start`.
pub proof fn lemma_state_index_from<M: MachineSpec>(tag: M::Tag, start: int)
    requires
        0 <= start <= M::STATES@.len(),
    ensures
        start <= state_index_from::<M>(tag, start) <= M::STATES@.len(),
        state_index_from::<M>(tag, start) < M::STATES@.len() ==> M::STATES@[state_index_from::<M>(
            tag,
            start,
        )].tag.spec_ordinal() == tag.spec_ordinal(),
        forall|j: int|
            start <= j < state_index_from::<M>(tag, start) ==> (#[trigger] M::STATES@[j]).tag.spec_ordinal()
                != tag.spec_ordinal(),
    decreases M::STATES@.len() - start,
{
    if start < M::STATES@.len() && M::STATES@[start].tag.spec_ordinal() != tag.spec_ordinal() {
        lemma_state_index_from::<M>(tag, start + 1);
    }
}

/// A listed tag has an entry.
pub proof fn lemma_listed_has_entry<M: MachineSpec>(tag: M::Tag)
    requires
        listed::<M>(tag),
    ensures
        0 <= state_index_from::<M>(tag, 0) < M::STATES@.len(),
        state_of::<M>(tag).tag.spec_ordinal() == tag.spec_ordinal(),
{
    lemma_state_index_from::<M>(tag, 0);
    let i = choose|i: int|
        0 <= i < M::STATES@.len() && (#[trigger] M::STATES@[i]).tag.spec_ordinal() == tag.spec_ordinal();
    assert(i >= state_index_from::<M>(tag, 0));
}

/// Whether `edge` is considered for an event of kind `kind` in state `tag`.
pub open spec fn considered<M: MachineSpec>(
    edge: Edge<M>,
    tag: M::Tag,
    kind: KindOf<M::Domain>,
) -> bool {
    edge.when.spec_ordinal() == kind.spec_ordinal() && edge.from.spec_matches(tag)
}

/// Whether `edge` is taken for an event of kind `kind` in state `tag` when the
/// guard nodes answer what `m` records.
pub open spec fn fires<M: MachineSpec>(
    edge: Edge<M>,
    tag: M::Tag,
    kind: KindOf<M::Domain>,
    m: Map<Seq<char>, Cond>,
) -> bool
    where <M::Domain as Domain>::Guard: CondNode<M::Domain>
{
    considered(edge, tag, kind) && edge.unknown.spec_accepts(edge.check.value(m))
}

/// The first edge at or after `start` that is taken.
pub open spec fn first_edge_from<M: MachineSpec>(
    tag: M::Tag,
    kind: KindOf<M::Domain>,
    m: Map<Seq<char>, Cond>,
    start: int,
) -> Option<int>
    where <M::Domain as Domain>::Guard: CondNode<M::Domain>
    decreases M::EDGES@.len() - start,
{
    if start < 0 || start >= M::EDGES@.len() {
        None
    } else if fires(M::EDGES@[start], tag, kind, m) {
        Some(start)
    } else {
        first_edge_from::<M>(tag, kind, m, start + 1)
    }
}

/// The edge dispatch takes for an event of kind `kind` in state `tag` when the
/// guard nodes answer what `m` records: the first, in declaration order, that
/// applies in `tag`, reacts to `kind`, and whose guard its policy accepts.
pub open spec fn first_edge<M: MachineSpec>(
    tag: M::Tag,
    kind: KindOf<M::Domain>,
    m: Map<Seq<char>, Cond>,
) -> Option<int>
    where <M::Domain as Domain>::Guard: CondNode<M::Domain>
{
    first_edge_from::<M>(tag, kind, m, 0)
}

/// `first_edge_from` finds exactly the first taken edge at or after `start`.
pub proof fn lemma_first_edge_from<M: MachineSpec>(
    tag: M::Tag,
    kind: KindOf<M::Domain>,
    m: Map<Seq<char>, Cond>,
    start: int,
)
    where <M::Domain as Domain>::Guard: CondNode<M::Domain>
    requires
        0 <= start <= M::EDGES@.len(),
    ensures
        match first_edge_from::<M>(tag, kind, m, start) {
            Some(j) => start <= j < M::EDGES@.len() && fires(M::EDGES@[j], tag, kind, m) && forall|t: int|
                start <= t < j ==> !fires(#[trigger] M::EDGES@[t], tag, kind, m),
            None => forall|t: int|
                start <= t < M::EDGES@.len() ==> !fires(#[trigger] M::EDGES@[t], tag, kind, m),
        },
    decreases M::EDGES@.len() - start,
{
    if start < M::EDGES@.len() && !fires(M::EDGES@[start], tag, kind, m) {
        lemma_first_edge_from::<M>(tag, kind, m, start + 1);
    }
}

/// What dispatch's scan does from edge `start` on, in state `tag`, with the
/// node answers `m` already recorded, for `ev`, of kind `kind`, in `world`:
/// the edge it takes, if any, and the answers it ends with. Edges not
/// considered are skipped without evaluating their guards; a considered
/// edge's guard is evaluated against the answers so far ([`Expr::replay`]);
/// the scan stops at the first edge whose policy accepts its guard,
/// evaluating no later guard.
pub open spec fn scan_edges<M: MachineSpec>(
    tag: M::Tag,
    kind: KindOf<M::Domain>,
    ev: EventOf<M::Domain>,
    world: WorldOf<M::Domain>,
    m: Map<Seq<char>, Cond>,
    start: int,
) -> (Option<int>, Map<Seq<char>, Cond>)
    where <M::Domain as Domain>::Guard: CondNode<M::Domain>
    decreases M::EDGES@.len() - start,
{
    if start < 0 || start >= M::EDGES@.len() {
        (None, m)
    } else if considered(M::EDGES@[start], tag, kind) {
        let (c, m1) = M::EDGES@[start].check.replay(m, ev, world);
        if M::EDGES@[start].unknown.spec_accepts(c) {
            (Some(start), m1)
        } else {
            scan_edges::<M>(tag, kind, ev, world, m1, start + 1)
        }
    } else {
        scan_edges::<M>(tag, kind, ev, world, m, start + 1)
    }
}

/// The edge dispatch takes in state `tag` for `ev`, of kind `kind`, in
/// `world`: its scan from the first edge with no answer recorded.
pub open spec fn edge_choice<M: MachineSpec>(
    tag: M::Tag,
    kind: KindOf<M::Domain>,
    ev: EventOf<M::Domain>,
    world: WorldOf<M::Domain>,
) -> Option<int>
    where <M::Domain as Domain>::Guard: CondNode<M::Domain>
{
    scan_edges::<M>(tag, kind, ev, world, Map::empty(), 0).0
}

/// Dispatch keeps every answer once recorded: a node name is asked at most
/// once per dispatch, and every later edge sees its first answer.
pub proof fn lemma_scan_edges_keeps_answers<M: MachineSpec>(
    tag: M::Tag,
    kind: KindOf<M::Domain>,
    ev: EventOf<M::Domain>,
    world: WorldOf<M::Domain>,
    m: Map<Seq<char>, Cond>,
    start: int,
)
    where <M::Domain as Domain>::Guard: CondNode<M::Domain>
    ensures
        forall|name: Seq<char>|
            #[trigger] m.contains_key(name) ==> scan_edges::<M>(tag, kind, ev, world, m, start).1.contains_key(name)
                && scan_edges::<M>(tag, kind, ev, world, m, start).1[name] == m[name],
    decreases M::EDGES@.len() - start,
{
    if 0 <= start < M::EDGES@.len() {
        if considered(M::EDGES@[start], tag, kind) {
            M::EDGES@[start].check.lemma_replay_keeps_answers(m, ev, world);
            let m1 = M::EDGES@[start].check.replay(m, ev, world).1;
            lemma_scan_edges_keeps_answers::<M>(tag, kind, ev, world, m1, start + 1);
        } else {
            lemma_scan_edges_keeps_answers::<M>(tag, kind, ev, world, m, start + 1);
        }
    }
}

/// Every node the edges' guards reference, edge after edge.
pub open spec fn edges_nodes<M: MachineSpec>(edges: Seq<Edge<M>>) -> Seq<<M::Domain as Domain>::Guard>
    where <M::Domain as Domain>::Guard: CondNode<M::Domain>
    decreases edges.len(),
{
    if edges.len() == 0 {
        Seq::empty()
    } else {
        edges_nodes(edges.drop_last()) + edges.last().check.spec_nodes()
    }
}

/// A node of one edge's guard is a node of the edges.
pub proof fn lemma_edges_nodes_contain<M: MachineSpec>(edges: Seq<Edge<M>>, t: int)
    where <M::Domain as Domain>::Guard: CondNode<M::Domain>
    requires
        0 <= t < edges.len(),
    ensures
        forall|g: <M::Domain as Domain>::Guard|
            #[trigger] edges[t].check.spec_nodes().contains(g) ==> edges_nodes(edges).contains(g),
    decreases edges.len(),
{
    lemma_concat_contains(edges_nodes(edges.drop_last()), edges.last().check.spec_nodes());
    if t < edges.len() - 1 {
        lemma_edges_nodes_contain(edges.drop_last(), t);
        assert(edges.drop_last()[t] == edges[t]);
    }
}

/// Whether `edge` is taken in state `tag` for `ev`, of kind `kind`, in
/// `world`: it is considered, and its policy accepts what its guard nodes
/// answer.
pub open spec fn truly_fires<M: MachineSpec>(
    edge: Edge<M>,
    tag: M::Tag,
    kind: KindOf<M::Domain>,
    ev: EventOf<M::Domain>,
    world: WorldOf<M::Domain>,
) -> bool
    where <M::Domain as Domain>::Guard: CondNode<M::Domain>
{
    considered(edge, tag, kind) && edge.unknown.spec_accepts(edge.check.spec_truth(ev, world))
}

/// The first edge at or after `start` taken in state `tag` for `ev`, of kind
/// `kind`, in `world`.
pub open spec fn first_true_edge_from<M: MachineSpec>(
    tag: M::Tag,
    kind: KindOf<M::Domain>,
    ev: EventOf<M::Domain>,
    world: WorldOf<M::Domain>,
    start: int,
) -> Option<int>
    where <M::Domain as Domain>::Guard: CondNode<M::Domain>
    decreases M::EDGES@.len() - start,
{
    if start < 0 || start >= M::EDGES@.len() {
        None
    } else if truly_fires(M::EDGES@[start], tag, kind, ev, world) {
        Some(start)
    } else {
        first_true_edge_from::<M>(tag, kind, ev, world, start + 1)
    }
}

/// The edge dispatch takes in state `tag` for `ev`, of kind `kind`, in
/// `world`: the first, in declaration order, that applies in `tag`, reacts to
/// `kind`, and whose policy accepts what its guard nodes answer.
pub open spec fn first_true_edge<M: MachineSpec>(
    tag: M::Tag,
    kind: KindOf<M::Domain>,
    ev: EventOf<M::Domain>,
    world: WorldOf<M::Domain>,
) -> Option<int>
    where <M::Domain as Domain>::Guard: CondNode<M::Domain>
{
    first_true_edge_from::<M>(tag, kind, ev, world, 0)
}

/// `first_true_edge_from` finds exactly the first edge taken at or after
/// `start`.
pub proof fn lemma_first_true_edge_from<M: MachineSpec>(
    tag: M::Tag,
    kind: KindOf<M::Domain>,
    ev: EventOf<M::Domain>,
    world: WorldOf<M::Domain>,
    start: int,
)
    where <M::Domain as Domain>::Guard: CondNode<M::Domain>
    requires
        0 <= start <= M::EDGES@.len(),
    ensures
        match first_true_edge_from::<M>(tag, kind, ev, world, start) {
            Some(j) => start <= j < M::EDGES@.len() && truly_fires(M::EDGES@[j], tag, kind, ev, world)
                && forall|t: int| start <= t < j ==> !truly_fires(#[trigger] M::EDGES@[t], tag, kind, ev, world),
            None => forall|t: int|
                start <= t < M::EDGES@.len() ==> !truly_fires(#[trigger] M::EDGES@[t], tag, kind, ev, world),
        },
    decreases M::EDGES@.len() - start,
{
    if start < M::EDGES@.len() && !truly_fires(M::EDGES@[start], tag, kind, ev, world) {
        lemma_first_true_edge_from::<M>(tag, kind, ev, world, start + 1);
    }
}

/// When the answers `m` give every edge below `upto` that is considered its
/// true value, and the edge `m` selects lies below `upto` (or `m` selects none
/// and `upto` covers all edges), `m` selects the edge the nodes select.
proof fn lemma_true_answers_pick_the_edge<M: MachineSpec>(
    tag: M::Tag,
    kind: KindOf<M::Domain>,
    m: Map<Seq<char>, Cond>,
    ev: EventOf<M::Domain>,
    world: WorldOf<M::Domain>,
    upto: int,
)
    where <M::Domain as Domain>::Guard: CondNode<M::Domain>
    requires
        0 <= upto <= M::EDGES@.len(),
        forall|t: int|
            0 <= t < upto && considered(#[trigger] M::EDGES@[t], tag, kind) ==> M::EDGES@[t].check.value(m)
                == M::EDGES@[t].check.spec_truth(ev, world),
        match first_edge::<M>(tag, kind, m) {
            Some(j) => j < upto,
            None => upto == M::EDGES@.len(),
        },
    ensures
        first_edge::<M>(tag, kind, m) == first_true_edge::<M>(tag, kind, ev, world),
{
    lemma_first_edge_from::<M>(tag, kind, m, 0);
    lemma_first_true_edge_from::<M>(tag, kind, ev, world, 0);
    assert forall|t: int| 0 <= t < upto implies (fires(#[trigger] M::EDGES@[t], tag, kind, m) <==> truly_fires(
        M::EDGES@[t],
        tag,
        kind,
        ev,
        world,
    )) by {}
    match first_edge::<M>(tag, kind, m) {
        Some(j) => {
            assert(truly_fires(M::EDGES@[j], tag, kind, ev, world));
            match first_true_edge::<M>(tag, kind, ev, world) {
                Some(j2) => {
                    if j2 < j {
                        assert(fires(M::EDGES@[j2], tag, kind, m));
                    }
                    if j2 > j {
                        assert(!truly_fires(M::EDGES@[j], tag, kind, ev, world));
                    }
                },
                None => {},
            }
        },
        None => {
            match first_true_edge::<M>(tag, kind, ev, world) {
                Some(j2) => {
                    assert(fires(M::EDGES@[j2], tag, kind, m));
                },
                None => {},
            }
        },
    }
}

/// Whether running the state actions `acts` in order can turn `before` into
/// `after`.
pub open spec fn performs_states<M: MachineSpec>(
    acts: Seq<StateActionOf<M>>,
    before: WorldOf<M::Domain>,
    after: WorldOf<M::Domain>,
) -> bool
    decreases acts.len(),
{
    if acts.len() == 0 {
        before == after
    } else {
        exists|mid: WorldOf<M::Domain>|
            performs_states::<M>(acts.drop_last(), before, mid)
                && #[trigger] M::spec_performed_state(acts.last(), mid, after)
    }
}

/// Whether running the edge actions `acts` for `ev` in order can turn `before`
/// into `after`.
pub open spec fn performs_actions<M: MachineSpec>(
    acts: Seq<ActionOf<M>>,
    ev: EventOf<M::Domain>,
    before: WorldOf<M::Domain>,
    after: WorldOf<M::Domain>,
) -> bool
    decreases acts.len(),
{
    if acts.len() == 0 {
        before == after
    } else {
        exists|mid: WorldOf<M::Domain>|
            performs_actions::<M>(acts.drop_last(), ev, before, mid)
                && #[trigger] M::spec_performed(acts.last(), ev, mid, after)
    }
}

/// Whether running `exit`, then `emit` for `ev`, then `entry` can turn
/// `before` into `after`.
pub open spec fn runs_in_order<M: MachineSpec>(
    exit: Seq<StateActionOf<M>>,
    emit: Seq<ActionOf<M>>,
    entry: Seq<StateActionOf<M>>,
    ev: EventOf<M::Domain>,
    before: WorldOf<M::Domain>,
    after: WorldOf<M::Domain>,
) -> bool {
    exists|left: WorldOf<M::Domain>, ran: WorldOf<M::Domain>|
        #![trigger performs_states::<M>(exit, before, left), performs_actions::<M>(emit, ev, left, ran)]
        performs_states::<M>(exit, before, left) && performs_actions::<M>(emit, ev, left, ran)
            && performs_states::<M>(entry, ran, after)
}

/// What one dispatch from state `tag` on `ev` does when it takes the edge at
/// `choice`, or none: it ends in state `tag_after` with the world `after`, and
/// reports `taken`.
pub open spec fn dispatched<M: MachineSpec>(
    tag: M::Tag,
    ev: EventOf<M::Domain>,
    before: WorldOf<M::Domain>,
    choice: Option<int>,
    tag_after: M::Tag,
    after: WorldOf<M::Domain>,
    taken: Option<Taken<M>>,
) -> bool {
    match choice {
        None => taken is None && tag_after == tag && after == before,
        Some(i) => {
            let e = M::EDGES@[i];
            &&& taken is Some
            &&& taken->0.edge == e.id
            &&& taken->0.emit == e.emit
            &&& match e.goto {
                Goto::To(next) => {
                    &&& tag_after == next
                    &&& taken->0.exit == state_of::<M>(tag).exit
                    &&& taken->0.entry == state_of::<M>(next).entry
                },
                Goto::Internal => {
                    &&& tag_after == tag
                    &&& taken->0.exit@.len() == 0
                    &&& taken->0.entry@.len() == 0
                },
            }
            &&& runs_in_order::<M>(
                taken->0.exit@,
                taken->0.emit@,
                taken->0.entry@,
                ev,
                before,
                after,
            )
        },
    }
}

/// The state a run of dispatches from `initial` ends in, when the k-th one
/// takes the edge `choices[k]`, or none: the target of the last edge to a
/// state taken, or `initial` if there is none.
pub open spec fn run_tag<M: MachineSpec>(initial: M::Tag, choices: Seq<Option<int>>) -> M::Tag
    decreases choices.len(),
{
    if choices.len() == 0 {
        initial
    } else {
        match choices.last() {
            Some(i) => match M::EDGES@[i].goto {
                Goto::To(next) => next,
                Goto::Internal => run_tag::<M>(initial, choices.drop_last()),
            },
            None => run_tag::<M>(initial, choices.drop_last()),
        }
    }
}

/// Only dispatch moves a machine, and only along the edges it takes: over a
/// run of dispatches, the state is the initial one until an edge to a state
/// is taken, and after that the target of the last such edge.
pub proof fn lemma_tag_follows_taken_edges<M: MachineSpec>(
    tags: Seq<M::Tag>,
    evs: Seq<EventOf<M::Domain>>,
    worlds: Seq<WorldOf<M::Domain>>,
    choices: Seq<Option<int>>,
    takens: Seq<Option<Taken<M>>>,
)
    requires
        tags.len() == choices.len() + 1,
        worlds.len() == choices.len() + 1,
        evs.len() == choices.len(),
        takens.len() == choices.len(),
        forall|k: int|
            #![trigger choices[k]]
            0 <= k < choices.len() ==> dispatched::<M>(
                tags[k],
                evs[k],
                worlds[k],
                choices[k],
                tags[k + 1],
                worlds[k + 1],
                takens[k],
            ),
    ensures
        tags.last() == run_tag::<M>(tags[0], choices),
    decreases choices.len(),
{
    if choices.len() > 0 {
        let n = choices.len() - 1;
        lemma_tag_follows_taken_edges::<M>(
            tags.drop_last(),
            evs.drop_last(),
            worlds.drop_last(),
            choices.drop_last(),
            takens.drop_last(),
        );
        assert(choices[n] == choices.last());
        assert(dispatched::<M>(tags[n], evs[n], worlds[n], choices[n], tags[n + 1], worlds[n + 1], takens[n]));
    }
}

/// What matching an event against the table produced: which edge to take, or
/// why none.
enum Selected {
    /// Take the edge at this index.
    Take(usize),
    /// Rows cover this combination, but every guard declined. Ordinary.
    Declined,
    /// No row covers this combination at all.
    NoRow,
}

/// The current state of one machine. The table it runs is
/// [`MachineSpec::EDGES`], so this holds nothing but the tag.
pub struct Machine<M: MachineSpec> {
    tag: M::Tag,
}

impl<M: MachineSpec> View for Machine<M> {
    type V = M::Tag;

    /// The state the machine is in.
    closed spec fn view(&self) -> M::Tag {
        self.tag
    }
}

impl<M: MachineSpec> Machine<M> {
    /// The machine's tag has a state table entry, and so does every edge's
    /// target: only an edge moves the tag.
    #[verifier::type_invariant]
    spec fn well_formed(self) -> bool {
        listed::<M>(self.tag) && targets_listed::<M>()
    }

    /// Builds a machine over `M`'s tables.
    ///
    /// - `initial`: the state the world is already in. A machine resumes
    ///   rather than starts, so its entry actions do not run and this call does
    ///   not touch the world.
    ///
    /// The state table must have an entry for `initial`, for every tag
    /// [`MachineSpec::all_tags`] lists, and for every edge target, and the
    /// tables walked from `initial` must pass [`crate::verify::coverage`]:
    /// every combination handled or ignored, never both, every state reached,
    /// no guard name or edge id used twice.
    pub fn new(initial: M::Tag) -> (machine: Self)
        where <M::Domain as Domain>::Guard: CondNode<M::Domain>
        requires
            listed::<M>(initial),
            forall|i: int|
                0 <= i < M::spec_all_tags().len() ==> listed::<M>(#[trigger] M::spec_all_tags()[i]),
            targets_listed::<M>(),
            crate::verify::coverage_clean::<M>(initial),
        ensures
            machine@ == initial,
    {
        Machine { tag: initial }
    }

    /// The state the machine is in. Only [`dispatch`] moves it, and it always
    /// has an entry in the state table.
    pub fn tag(&self) -> (tag: M::Tag)
        ensures
            tag == self@,
            listed::<M>(tag),
    {
        proof {
            use_type_invariant(self);
        }
        self.tag
    }

    /// Looks up the state table entry for `tag`.
    fn state_of(tag: M::Tag) -> (state: &'static State<M>)
        requires
            listed::<M>(tag),
        ensures
            *state == state_of::<M>(tag),
    {
        proof {
            lemma_state_index_from::<M>(tag, 0);
            lemma_listed_has_entry::<M>(tag);
        }
        let o = tag.ordinal();
        let mut i: usize = 0;
        while i < M::STATES.len()
            invariant
                0 <= i <= state_index_from::<M>(tag, 0) < M::STATES@.len(),
                o as nat == tag.spec_ordinal(),
                M::STATES@[state_index_from::<M>(tag, 0)].tag.spec_ordinal() == tag.spec_ordinal(),
                forall|j: int|
                    0 <= j < state_index_from::<M>(tag, 0) ==> (#[trigger] M::STATES@[j]).tag.spec_ordinal()
                        != tag.spec_ordinal(),
            decreases M::STATES@.len() - i,
        {
            if M::STATES[i].tag.ordinal() == o {
                return &M::STATES[i];
            }
            i = i + 1;
        }
        &M::STATES[0]
    }

    /// Matches `kind` against the table from the current state, evaluating
    /// guards against `memo`. Declaration order is priority.
    fn select(
        &self,
        ev: &EventOf<M::Domain>,
        world: &WorldOf<M::Domain>,
        kind: &KindOf<M::Domain>,
        memo: &mut Memo,
    ) -> (sel: Selected)
        where <M::Domain as Domain>::Guard: CondNode<M::Domain>
        requires
            old(memo)@ == Map::<Seq<char>, Cond>::empty(),
        ensures
            scan_edges::<M>(self@, *kind, *ev, *world, Map::empty(), 0) == (match sel {
                Selected::Take(i) => Some(i as int),
                _ => None,
            }, final(memo)@),
            answered_by::<M::Domain>(Map::empty(), final(memo)@, edges_nodes::<M>(M::EDGES@), *ev, *world),
            names_decide::<M::Domain>(edges_nodes::<M>(M::EDGES@), *ev, *world) ==> first_edge::<M>(
                self@,
                *kind,
                final(memo)@,
            ) == first_true_edge::<M>(self@, *kind, *ev, *world),
            match sel {
                Selected::Take(i) => first_edge::<M>(self@, *kind, final(memo)@) == Some(i as int),
                Selected::Declined => first_edge::<M>(self@, *kind, final(memo)@) is None && exists|t: int|
                    0 <= t < M::EDGES@.len() && considered(#[trigger] M::EDGES@[t], self@, *kind),
                Selected::NoRow => first_edge::<M>(self@, *kind, final(memo)@) is None && forall|t: int|
                    0 <= t < M::EDGES@.len() ==> !considered(#[trigger] M::EDGES@[t], self@, *kind),
            },
    {
        let cx = Cx::new(ev, world);
        let o = kind.ordinal();
        let mut saw_row = false;
        let mut i: usize = 0;
        while i < M::EDGES.len()
            invariant
                0 <= i <= M::EDGES@.len(),
                o as nat == kind.spec_ordinal(),
                saw_row == exists|t: int| 0 <= t < i && considered(#[trigger] M::EDGES@[t], self@, *kind),
                forall|t: int| 0 <= t < i ==> !fires(#[trigger] M::EDGES@[t], self@, *kind, memo@),
                forall|t: int|
                    0 <= t < i && considered(#[trigger] M::EDGES@[t], self@, *kind)
                        ==> M::EDGES@[t].check.asked(memo@).subset_of(memo@.dom()),
                cx.event == ev,
                cx.world == world,
                scan_edges::<M>(self@, *kind, *ev, *world, Map::empty(), 0) == scan_edges::<M>(
                    self@,
                    *kind,
                    *ev,
                    *world,
                    memo@,
                    i as int,
                ),
                answered_by::<M::Domain>(Map::empty(), memo@, edges_nodes::<M>(M::EDGES@), *ev, *world),
                names_decide::<M::Domain>(edges_nodes::<M>(M::EDGES@), *ev, *world) ==> forall|t: int|
                    0 <= t < i && considered(#[trigger] M::EDGES@[t], self@, *kind)
                        ==> M::EDGES@[t].check.value(memo@) == M::EDGES@[t].check.spec_truth(*ev, *world),
            decreases M::EDGES@.len() - i,
        {
            let e = &M::EDGES[i];
            if e.when.ordinal() == o && e.from.matches(self.tag) {
                let ghost m0 = memo@;
                let c = e.check.eval(&cx, memo);
                proof {
                    let all = edges_nodes::<M>(M::EDGES@);
                    let mine = M::EDGES@[i as int].check.spec_nodes();
                    lemma_edges_nodes_contain::<M>(M::EDGES@, i as int);
                    lemma_answered_chain::<M::Domain>(Map::empty(), m0, memo@, all, mine, all, *ev, *world);
                    if names_decide::<M::Domain>(all, *ev, *world) {
                        assert forall|g: <M::Domain as Domain>::Guard|
                            #[trigger] mine.contains(g) && memo@.contains_key(g.spec_name()) implies memo@[g.spec_name()]
                            == g.spec_eval(*ev, *world) by {
                            let h = choose|h: <M::Domain as Domain>::Guard|
                                #[trigger] all.contains(h) && h.spec_name() == g.spec_name() && memo@[g.spec_name()]
                                    == h.spec_eval(*ev, *world);
                            assert(all.contains(g));
                        }
                        M::EDGES@[i as int].check.lemma_true_answers_give_the_truth(memo@, *ev, *world);
                        assert forall|t: int|
                            0 <= t < i + 1 && considered(#[trigger] M::EDGES@[t], self@, *kind) implies M::EDGES@[t].check.value(
                            memo@,
                        ) == M::EDGES@[t].check.spec_truth(*ev, *world) by {
                            if t < i {
                                M::EDGES@[t].check.lemma_more_answers_change_nothing(m0, memo@);
                            }
                        }
                    }
                }
                proof {
                    assert(m0.submap_of(memo@));
                    assert forall|t: int|
                        0 <= t < i && considered(#[trigger] M::EDGES@[t], self@, *kind) implies (!fires(
                        M::EDGES@[t],
                        self@,
                        *kind,
                        memo@,
                    ) && M::EDGES@[t].check.asked(memo@).subset_of(memo@.dom())) by {
                        M::EDGES@[t].check.lemma_more_answers_change_nothing(m0, memo@);
                    }
                    assert forall|t: int| 0 <= t < i implies !fires(
                        #[trigger] M::EDGES@[t],
                        self@,
                        *kind,
                        memo@,
                    ) by {
                        if considered(M::EDGES@[t], self@, *kind) {
                            M::EDGES@[t].check.lemma_more_answers_change_nothing(m0, memo@);
                        }
                    }
                    assert(considered(M::EDGES@[i as int], self@, *kind));
                }
                saw_row = true;
                if e.unknown.accepts(c) {
                    proof {
                        lemma_first_edge_from::<M>(self@, *kind, memo@, 0);
                        assert(fires(M::EDGES@[i as int], self@, *kind, memo@));
                        if names_decide::<M::Domain>(edges_nodes::<M>(M::EDGES@), *ev, *world) {
                            lemma_true_answers_pick_the_edge::<M>(self@, *kind, memo@, *ev, *world, i + 1);
                        }
                    }
                    return Selected::Take(i);
                }
                assert(!fires(M::EDGES@[i as int], self@, *kind, memo@));
            } else {
                assert(!considered(M::EDGES@[i as int], self@, *kind));
            }
            assert(saw_row == exists|t: int|
                0 <= t < i + 1 && considered(#[trigger] M::EDGES@[t], self@, *kind)) by {
                if exists|t: int| 0 <= t < i + 1 && considered(#[trigger] M::EDGES@[t], self@, *kind) {
                    let t = choose|t: int| 0 <= t < i + 1 && considered(#[trigger] M::EDGES@[t], self@, *kind);
                    if t < i {
                        assert(exists|t: int| 0 <= t < i && considered(#[trigger] M::EDGES@[t], self@, *kind));
                    }
                }
            }
            i = i + 1;
        }
        proof {
            lemma_first_edge_from::<M>(self@, *kind, memo@, 0);
            if names_decide::<M::Domain>(edges_nodes::<M>(M::EDGES@), *ev, *world) {
                lemma_true_answers_pick_the_edge::<M>(self@, *kind, memo@, *ev, *world, M::EDGES@.len() as int);
            }
        }
        if saw_row {
            Selected::Declined
        } else {
            Selected::NoRow
        }
    }

    /// Runs each of an edge's actions in order.
    fn perform_all(
        to_run: &'static [ActionOf<M>],
        ev: &EventOf<M::Domain>,
        world: &mut WorldOf<M::Domain>,
    )
        ensures
            performs_actions::<M>(to_run@, *ev, *old(world), *final(world)),
    {
        let ghost w0 = *world;
        let mut j: usize = 0;
        assert(to_run@.take(0) =~= Seq::<ActionOf<M>>::empty());
        while j < to_run.len()
            invariant
                0 <= j <= to_run@.len(),
                performs_actions::<M>(to_run@.take(j as int), *ev, w0, *world),
            decreases to_run@.len() - j,
        {
            let ghost mid = *world;
            M::perform(to_run[j], ev, world);
            proof {
                let acts = to_run@.take(j + 1);
                assert(acts.drop_last() =~= to_run@.take(j as int));
                assert(acts.last() == to_run@[j as int]);
                assert(performs_actions::<M>(acts.drop_last(), *ev, w0, mid) && M::spec_performed(
                    acts.last(),
                    *ev,
                    mid,
                    *world,
                ));
            }
            j = j + 1;
        }
        assert(to_run@.take(to_run@.len() as int) =~= to_run@);
    }

    /// Runs each of a state's entry or exit actions in order.
    fn perform_state_all(to_run: &'static [StateActionOf<M>], world: &mut WorldOf<M::Domain>)
        ensures
            performs_states::<M>(to_run@, *old(world), *final(world)),
    {
        let ghost w0 = *world;
        let mut j: usize = 0;
        assert(to_run@.take(0) =~= Seq::<StateActionOf<M>>::empty());
        while j < to_run.len()
            invariant
                0 <= j <= to_run@.len(),
                performs_states::<M>(to_run@.take(j as int), w0, *world),
            decreases to_run@.len() - j,
        {
            let ghost mid = *world;
            M::perform_state(to_run[j], world);
            proof {
                let acts = to_run@.take(j + 1);
                assert(acts.drop_last() =~= to_run@.take(j as int));
                assert(acts.last() == to_run@[j as int]);
                assert(performs_states::<M>(acts.drop_last(), w0, mid) && M::spec_performed_state(
                    acts.last(),
                    mid,
                    *world,
                ));
            }
            j = j + 1;
        }
        assert(to_run@.take(to_run@.len() as int) =~= to_run@);
    }
}

/// Matches `ev` against `M`'s table from `m`'s current state and runs the
/// selected transition.
///
/// - `m`: the machine to advance. Its tag is the only thing that moves.
/// - `ev`: the event to handle.
/// - `world`: the outside world, mutated by whatever actions run.
///
/// The edges are scanned in declaration order ([`scan_edges`]): an edge that
/// does not apply in the current state or react to the event's kind has its
/// guard left alone, and no guard after the edge taken is evaluated. Guards
/// are evaluated with one [`Memo`] for the whole scan, so a node name is asked
/// once per dispatch and every later edge sees that answer: a second node
/// answering to the same name inherits the first's result. Where nodes sharing
/// a name answer alike, as they do when names are unique, the edge taken is
/// the first that applies and whose policy accepts its guard's value.
///
/// Effects run in this order: the current state's exit actions, the edge's
/// own actions, the target state's entry actions; for [`Goto::Internal`] only
/// the edge's own actions run.
///
/// Returns the [`Taken`] transition, or `None` if no edge matched, in which
/// case neither the machine nor the world changes.
pub fn dispatch<M: MachineSpec>(
    m: &mut Machine<M>,
    ev: &EventOf<M::Domain>,
    world: &mut WorldOf<M::Domain>,
) -> (taken: Option<Taken<M>>)
    where <M::Domain as Domain>::Guard: CondNode<M::Domain>
    ensures
        dispatched::<M>(
            old(m)@,
            *ev,
            *old(world),
            edge_choice::<M>(old(m)@, ev.spec_kind(), *ev, *old(world)),
            final(m)@,
            *final(world),
            taken,
        ),
        listed::<M>(final(m)@),
        names_decide::<M::Domain>(edges_nodes::<M>(M::EDGES@), *ev, *old(world)) ==> dispatched::<M>(
            old(m)@,
            *ev,
            *old(world),
            first_true_edge::<M>(old(m)@, ev.spec_kind(), *ev, *old(world)),
            final(m)@,
            *final(world),
            taken,
        ),
        taken is None ==> final(m)@ == old(m)@ && *final(world) == *old(world),
{
    proof {
        use_type_invariant(&*m);
    }
    let ghost tag0 = m@;
    let ghost w0 = *world;
    let kind = ev.kind();
    let mut memo = Memo::new();
    let hit = match m.select(ev, &*world, &kind, &mut memo) {
        Selected::Take(hit) => hit,
        Selected::Declined | Selected::NoRow => {
            assert(dispatched::<M>(tag0, *ev, w0, first_edge::<M>(tag0, kind, memo@), m@, *world, None));
            return None;
        },
    };
    proof {
        lemma_first_edge_from::<M>(tag0, kind, memo@, 0);
    }
    let edge = &M::EDGES[hit];
    let mut exit: &'static [StateActionOf<M>] = &[];
    let mut entry: &'static [StateActionOf<M>] = &[];
    match edge.goto {
        Goto::To(next) => {
            assert(listed::<M>(next)) by {
                assert(match M::EDGES@[hit as int].goto {
                    Goto::To(t) => listed::<M>(t),
                    Goto::Internal => true,
                });
            }
            exit = Machine::<M>::state_of(m.tag).exit;
            entry = Machine::<M>::state_of(next).entry;
            m.tag = next;
        },
        Goto::Internal => {},
    }
    let ghost w1 = *world;
    Machine::<M>::perform_state_all(exit, world);
    let ghost w2 = *world;
    Machine::<M>::perform_all(edge.emit, ev, world);
    let ghost w3 = *world;
    Machine::<M>::perform_state_all(entry, world);
    let taken = Taken { edge: edge.id, exit, emit: edge.emit, entry };
    proof {
        assert(performs_states::<M>(exit@, w1, w2) && performs_actions::<M>(edge.emit@, *ev, w2, w3));
        assert(runs_in_order::<M>(exit@, edge.emit@, entry@, *ev, w0, *world));
        assert(dispatched::<M>(tag0, *ev, w0, first_edge::<M>(tag0, kind, memo@), m@, *world, Some(taken)));
    }
    Some(taken)
}

/// Declaration order is priority, and an unguarded edge is a fallback: if
/// edge `i` is considered for `kind` in `tag` and unguarded, dispatch takes
/// edge `i` or one declared before it, whatever the nodes answer.
pub proof fn lemma_unguarded_edge_is_a_fallback<M: MachineSpec>(
    tag: M::Tag,
    kind: KindOf<M::Domain>,
    m: Map<Seq<char>, Cond>,
    i: int,
)
    where <M::Domain as Domain>::Guard: CondNode<M::Domain>
    requires
        0 <= i < M::EDGES@.len(),
        considered(M::EDGES@[i], tag, kind),
        *M::EDGES@[i].check == Expr::<M::Domain>::Always,
    ensures
        first_edge::<M>(tag, kind, m) matches Some(j) && j <= i,
{
    lemma_first_edge_from::<M>(tag, kind, m, 0);
    assert(fires(M::EDGES@[i], tag, kind, m));
}

/// The ignore list does not change what dispatch does: it only names the
/// combinations left unhandled on purpose. A combination no edge covers takes
/// no edge, whether or not an ignore lists it.
pub proof fn lemma_uncovered_takes_nothing<M: MachineSpec>(
    tag: M::Tag,
    kind: KindOf<M::Domain>,
    m: Map<Seq<char>, Cond>,
)
    where <M::Domain as Domain>::Guard: CondNode<M::Domain>
    requires
        forall|t: int| 0 <= t < M::EDGES@.len() ==> !considered(#[trigger] M::EDGES@[t], tag, kind),
    ensures
        first_edge::<M>(tag, kind, m) is None,
{
    lemma_first_edge_from::<M>(tag, kind, m, 0);
    if first_edge::<M>(tag, kind, m) is Some {
        let j = first_edge::<M>(tag, kind, m)->0;
        assert(considered(M::EDGES@[j], tag, kind));
    }
}

} // verus!
