//! Guard nodes, the per-dispatch answer cache, and the guard expression tree.

use vstd::prelude::*;

use crate::guard::Cond;
use crate::text::str_eq;
use crate::Domain;

verus! {

/// One guard node. A [`Domain::Guard`] value names one node; the domain's
/// guard type implements this trait.
///
/// Nodes are stateless: `eval` takes `&self`, and every input arrives through
/// [`Cx`].
pub trait CondNode<D: Domain>: Copy + 'static {
    /// The node's name, as characters.
    closed spec fn spec_name(&self) -> Seq<char> {
        // Unspecified unless the implementation states it.
        arbitrary()
    }

    /// The node's identity.
    closed spec fn spec_id(&self) -> nat {
        // Unspecified unless the implementation states it.
        arbitrary()
    }

    /// The name shown in diagrams and logs, and the [`Memo`] key. **Must be
    /// unique within a domain** — [`crate::verify::duplicate_node_names`]
    /// reports two nodes that share one.
    fn name(&self) -> (name: &'static str)
        ensures
            name@ == self.spec_name(),
    ;

    /// What the node answers for `event` in `world`.
    closed spec fn spec_eval(&self, event: D::Event, world: D::World) -> Cond {
        // Unspecified unless the implementation states it.
        arbitrary()
    }

    /// Tells nodes apart: two different nodes have different ids, one node
    /// reused on many rules always has the same one.
    fn id(&self) -> (id: usize)
        ensures
            id as nat == self.spec_id(),
    ;

    /// The identity is the node: two nodes with one id are the same node.
    proof fn lemma_id_identifies(a: Self, b: Self)
        requires
            a.spec_id() == b.spec_id(),
        ensures
            a == b,
    ;

    /// Evaluates the guard against `cx`. Must not modify the world.
    fn eval(&self, cx: &Cx<'_, D>) -> (c: Cond)
        ensures
            c == self.spec_eval(*cx.event, *cx.world),
    ;
}

/// Every answer `after` records beyond those of `before` is what a node of
/// `nodes` bearing that name answers for `event` in `world`.
pub open spec fn answered_by<D: Domain>(
    before: Map<Seq<char>, Cond>,
    after: Map<Seq<char>, Cond>,
    nodes: Seq<D::Guard>,
    event: D::Event,
    world: D::World,
) -> bool
    where D::Guard: CondNode<D>
{
    forall|name: Seq<char>|
        #[trigger] after.contains_key(name) && !before.contains_key(name) ==> exists|g: D::Guard|
            #[trigger] nodes.contains(g) && g.spec_name() == name && after[name] == g.spec_eval(
                event,
                world,
            )
}

/// Nodes of `nodes` that share a name also share their answer for `event` in
/// `world`; certainly so when names are unique.
pub open spec fn names_decide<D: Domain>(nodes: Seq<D::Guard>, event: D::Event, world: D::World) -> bool
    where D::Guard: CondNode<D>
{
    forall|a: D::Guard, b: D::Guard|
        #[trigger] nodes.contains(a) && #[trigger] nodes.contains(b) && a.spec_name() == b.spec_name()
            ==> a.spec_eval(event, world) == b.spec_eval(event, world)
}

/// Answers added in two steps come from the nodes of either step.
pub proof fn lemma_answered_chain<D: Domain>(
    m0: Map<Seq<char>, Cond>,
    m1: Map<Seq<char>, Cond>,
    m2: Map<Seq<char>, Cond>,
    n1: Seq<D::Guard>,
    n2: Seq<D::Guard>,
    n: Seq<D::Guard>,
    event: D::Event,
    world: D::World,
)
    where D::Guard: CondNode<D>
    requires
        answered_by::<D>(m0, m1, n1, event, world),
        answered_by::<D>(m1, m2, n2, event, world),
        forall|name: Seq<char>| #[trigger] m1.contains_key(name) ==> m2.contains_key(name) && m2[name] == m1[name],
        forall|g: D::Guard| #[trigger] n1.contains(g) ==> n.contains(g),
        forall|g: D::Guard| #[trigger] n2.contains(g) ==> n.contains(g),
    ensures
        answered_by::<D>(m0, m2, n, event, world),
{
    assert forall|name: Seq<char>| #[trigger] m2.contains_key(name) && !m0.contains_key(name) implies exists|
        g: D::Guard,
    | #[trigger] n.contains(g) && g.spec_name() == name && m2[name] == g.spec_eval(event, world) by {
        if m1.contains_key(name) {
            let g = choose|g: D::Guard|
                #[trigger] n1.contains(g) && g.spec_name() == name && m1[name] == g.spec_eval(event, world);
            assert(n.contains(g));
        } else {
            let g = choose|g: D::Guard|
                #[trigger] n2.contains(g) && g.spec_name() == name && m2[name] == g.spec_eval(event, world);
            assert(n.contains(g));
        }
    }
}

/// What either part of a concatenation holds, the whole holds.
pub proof fn lemma_concat_contains<A>(a: Seq<A>, b: Seq<A>)
    ensures
        forall|x: A| #[trigger] a.contains(x) ==> (a + b).contains(x),
        forall|x: A| #[trigger] b.contains(x) ==> (a + b).contains(x),
{
    assert forall|x: A| #[trigger] a.contains(x) implies (a + b).contains(x) by {
        let i = choose|i: int| 0 <= i < a.len() && a[i] == x;
        assert((a + b)[i] == x);
    }
    assert forall|x: A| #[trigger] b.contains(x) implies (a + b).contains(x) by {
        let i = choose|i: int| 0 <= i < b.len() && b[i] == x;
        assert((a + b)[a.len() + i] == x);
    }
}

/// The inputs handed to a guard node: the event and the world.
pub struct Cx<'a, D: Domain> {
    /// The event, including payload.
    pub event: &'a D::Event,
    /// The outside world, read-only.
    pub world: &'a D::World,
}

impl<'a, D: Domain> Cx<'a, D> {
    /// Bundles the event and the world for the guards.
    pub fn new(event: &'a D::Event, world: &'a D::World) -> (cx: Self)
        ensures
            cx.event == event,
            cx.world == world,
    {
        Cx { event, world }
    }
}

/// The answers recorded so far, later entries taking precedence.
pub open spec fn answers_of(entries: Seq<(&'static str, Cond)>) -> Map<Seq<char>, Cond>
    decreases entries.len(),
{
    if entries.len() == 0 {
        Map::empty()
    } else {
        answers_of(entries.drop_last()).insert(entries.last().0@, entries.last().1)
    }
}

/// The answer recorded for a name is the one at the last position holding it.
proof fn lemma_last_answer(entries: Seq<(&'static str, Cond)>, name: Seq<char>, k: int)
    requires
        0 <= k < entries.len(),
        entries[k].0@ == name,
        forall|j: int| k < j < entries.len() ==> (#[trigger] entries[j]).0@ != name,
    ensures
        answers_of(entries).contains_key(name),
        answers_of(entries)[name] == entries[k].1,
    decreases entries.len(),
{
    if k < entries.len() - 1 {
        let init = entries.drop_last();
        assert(entries[entries.len() - 1].0@ != name);
        assert forall|j: int| k < j < init.len() implies (#[trigger] init[j]).0@ != name by {
            assert(init[j] == entries[j]);
        }
        lemma_last_answer(init, name, k);
    }
}

/// A name no entry holds has no answer.
proof fn lemma_no_answer(entries: Seq<(&'static str, Cond)>, name: Seq<char>)
    requires
        forall|j: int| 0 <= j < entries.len() ==> (#[trigger] entries[j]).0@ != name,
    ensures
        !answers_of(entries).contains_key(name),
    decreases entries.len(),
{
    if entries.len() > 0 {
        let init = entries.drop_last();
        assert(entries[entries.len() - 1].0@ != name);
        assert forall|j: int| 0 <= j < init.len() implies (#[trigger] init[j]).0@ != name by {
            assert(init[j] == entries[j]);
        }
        lemma_no_answer(init, name);
    }
}

/// Guard evaluation cache, valid for one dispatch, so a node shared by several
/// rules is evaluated only once per event. Keyed by node name.
pub struct Memo {
    cache: Vec<(&'static str, Cond)>,
}

impl View for Memo {
    type V = Map<Seq<char>, Cond>;

    /// The answer recorded for each node name.
    closed spec fn view(&self) -> Map<Seq<char>, Cond> {
        answers_of(self.cache@)
    }
}

impl Memo {
    /// An empty cache.
    pub fn new() -> (memo: Self)
        ensures
            memo@ == Map::<Seq<char>, Cond>::empty(),
    {
        Memo { cache: Vec::new() }
    }

    /// The answer recorded for `name`, if any.
    fn lookup(&self, name: &'static str) -> (found: Option<Cond>)
        ensures
            found == (if self@.contains_key(name@) {
                Some(self@[name@])
            } else {
                None
            }),
    {
        let mut i: usize = self.cache.len();
        while i > 0
            invariant
                0 <= i <= self.cache@.len(),
                forall|j: int| i <= j < self.cache@.len() ==> (#[trigger] self.cache@[j]).0@ != name@,
            decreases i,
        {
            if str_eq(self.cache[i - 1].0, name) {
                proof {
                    lemma_last_answer(self.cache@, name@, i - 1);
                }
                return Some(self.cache[i - 1].1);
            }
            i = i - 1;
        }
        proof {
            lemma_no_answer(self.cache@, name@);
        }
        None
    }

    /// Records `cond` as the answer for `name`.
    fn store(&mut self, name: &'static str, cond: Cond)
        ensures
            final(self)@ == old(self)@.insert(name@, cond),
    {
        self.cache.push((name, cond));
        proof {
            assert(self.cache@.drop_last() =~= old(self).cache@);
        }
    }
}

/// A guard expression tree.
pub enum Expr<D: Domain> {
    /// No guard: always true.
    Always,
    /// One guard node.
    Node(D::Guard),
    And(&'static Expr<D>, &'static Expr<D>),
    Or(&'static Expr<D>, &'static Expr<D>),
    Not(&'static Expr<D>),
}

/// The answers `m` gives for the nodes it knows; `Unknown` for any other.
pub open spec fn answer_for(m: Map<Seq<char>, Cond>, name: Seq<char>) -> Cond {
    if m.contains_key(name) {
        m[name]
    } else {
        Cond::Unknown
    }
}

/// The (name, identity) pairs as plain values.
pub open spec fn ids_view(ids: Seq<(&'static str, usize)>) -> Seq<(Seq<char>, nat)> {
    ids.map_values(|p: (&'static str, usize)| (p.0@, p.1 as nat))
}

impl<D: Domain> Expr<D> where D::Guard: CondNode<D> {
    /// The tree's value when each node answers what `m` records for its name:
    /// Kleene logic throughout.
    pub open spec fn value(self, m: Map<Seq<char>, Cond>) -> Cond
        decreases self,
    {
        match self {
            Expr::Always => Cond::True,
            Expr::Node(g) => answer_for(m, g.spec_name()),
            Expr::And(l, r) => l.value(m).spec_and(r.value(m)),
            Expr::Or(l, r) => l.value(m).spec_or(r.value(m)),
            Expr::Not(x) => x.value(m).spec_not(),
        }
    }

    /// The node names evaluation asks for under the answers `m`: `And` does not
    /// ask its right side once its left side is `False`, nor `Or` once it is
    /// `True`.
    pub open spec fn asked(self, m: Map<Seq<char>, Cond>) -> Set<Seq<char>>
        decreases self,
    {
        match self {
            Expr::Always => Set::empty(),
            Expr::Node(g) => set![g.spec_name()],
            Expr::And(l, r) => if l.value(m) == Cond::False {
                l.asked(m)
            } else {
                l.asked(m).union(r.asked(m))
            },
            Expr::Or(l, r) => if l.value(m) == Cond::True {
                l.asked(m)
            } else {
                l.asked(m).union(r.asked(m))
            },
            Expr::Not(x) => x.asked(m),
        }
    }

    /// The rendered guard: `&&` plain, `||` parenthesised, and a negation of
    /// anything but a single node parenthesised too.
    pub open spec fn spec_render(self) -> Seq<char>
        decreases self,
    {
        match self {
            Expr::Always => Seq::empty(),
            Expr::Node(g) => g.spec_name(),
            Expr::And(l, r) => l.spec_render() + " && "@ + r.spec_render(),
            Expr::Or(l, r) => "("@ + l.spec_render() + " || "@ + r.spec_render() + ")"@,
            Expr::Not(x) => match *x {
                Expr::Node(g) => "!"@ + g.spec_name(),
                _ => "!("@ + x.spec_render() + ")"@,
            },
        }
    }

    /// What evaluating the tree does, step by step, starting from the answers
    /// `m` records, for `event` in `world`: the value it returns and the
    /// answers it ends with. A node whose name `m` answers is not asked and
    /// takes that answer; any other node is asked once and its answer is
    /// recorded under its name. `And` stops at a `False` left side and `Or` at
    /// a `True` one.
    pub open spec fn replay(self, m: Map<Seq<char>, Cond>, event: D::Event, world: D::World) -> (
        Cond,
        Map<Seq<char>, Cond>,
    )
        decreases self,
    {
        match self {
            Expr::Always => (Cond::True, m),
            Expr::Node(g) => if m.contains_key(g.spec_name()) {
                (m[g.spec_name()], m)
            } else {
                (g.spec_eval(event, world), m.insert(g.spec_name(), g.spec_eval(event, world)))
            },
            Expr::And(l, r) => {
                let (lc, m1) = l.replay(m, event, world);
                if lc == Cond::False {
                    (Cond::False, m1)
                } else {
                    let (rc, m2) = r.replay(m1, event, world);
                    (lc.spec_and(rc), m2)
                }
            },
            Expr::Or(l, r) => {
                let (lc, m1) = l.replay(m, event, world);
                if lc == Cond::True {
                    (Cond::True, m1)
                } else {
                    let (rc, m2) = r.replay(m1, event, world);
                    (lc.spec_or(rc), m2)
                }
            },
            Expr::Not(x) => {
                let (c, m1) = x.replay(m, event, world);
                (c.spec_not(), m1)
            },
        }
    }

    /// Evaluation keeps every answer already recorded: a name answered once is
    /// not asked again, and its answer stands.
    pub proof fn lemma_replay_keeps_answers(self, m: Map<Seq<char>, Cond>, event: D::Event, world: D::World)
        ensures
            forall|name: Seq<char>|
                #[trigger] m.contains_key(name) ==> self.replay(m, event, world).1.contains_key(name)
                    && self.replay(m, event, world).1[name] == m[name],
        decreases self,
    {
        match self {
            Expr::Always => {},
            Expr::Node(g) => {},
            Expr::And(l, r) => {
                l.lemma_replay_keeps_answers(m, event, world);
                r.lemma_replay_keeps_answers(l.replay(m, event, world).1, event, world);
            },
            Expr::Or(l, r) => {
                l.lemma_replay_keeps_answers(m, event, world);
                r.lemma_replay_keeps_answers(l.replay(m, event, world).1, event, world);
            },
            Expr::Not(x) => {
                x.lemma_replay_keeps_answers(m, event, world);
            },
        }
    }

    /// Every node the tree references, left to right.
    pub open spec fn spec_nodes(self) -> Seq<D::Guard>
        decreases self,
    {
        match self {
            Expr::Always => Seq::empty(),
            Expr::Node(g) => seq![g],
            Expr::And(l, r) => l.spec_nodes() + r.spec_nodes(),
            Expr::Or(l, r) => l.spec_nodes() + r.spec_nodes(),
            Expr::Not(x) => x.spec_nodes(),
        }
    }

    /// The tree's value for `event` in `world`, each node answering what it
    /// answers: Kleene logic throughout.
    pub open spec fn spec_truth(self, event: D::Event, world: D::World) -> Cond
        decreases self,
    {
        match self {
            Expr::Always => Cond::True,
            Expr::Node(g) => g.spec_eval(event, world),
            Expr::And(l, r) => l.spec_truth(event, world).spec_and(r.spec_truth(event, world)),
            Expr::Or(l, r) => l.spec_truth(event, world).spec_or(r.spec_truth(event, world)),
            Expr::Not(x) => x.spec_truth(event, world).spec_not(),
        }
    }

    /// When the answers `m` records are the nodes' own, for every node of the
    /// tree whose name it records, and it records every name evaluation asks,
    /// the tree's value under `m` is its value for the event and world.
    pub proof fn lemma_true_answers_give_the_truth(
        self,
        m: Map<Seq<char>, Cond>,
        event: D::Event,
        world: D::World,
    )
        requires
            self.asked(m).subset_of(m.dom()),
            forall|g: D::Guard|
                #[trigger] self.spec_nodes().contains(g) && m.contains_key(g.spec_name())
                    ==> m[g.spec_name()] == g.spec_eval(event, world),
        ensures
            self.value(m) == self.spec_truth(event, world),
        decreases self,
    {
        match self {
            Expr::Always => {},
            Expr::Node(g) => {
                assert(self.asked(m).contains(g.spec_name()));
                assert(self.spec_nodes()[0] == g);
                assert(self.spec_nodes().contains(g));
            },
            Expr::And(l, r) => {
                lemma_concat_contains(l.spec_nodes(), r.spec_nodes());
                assert(self.spec_nodes() == l.spec_nodes() + r.spec_nodes());
                assert forall|g: D::Guard|
                    #[trigger] l.spec_nodes().contains(g) && m.contains_key(g.spec_name()) implies m[g.spec_name()]
                    == g.spec_eval(event, world) by {
                    assert(self.spec_nodes().contains(g));
                }
                assert forall|g: D::Guard|
                    #[trigger] r.spec_nodes().contains(g) && m.contains_key(g.spec_name()) implies m[g.spec_name()]
                    == g.spec_eval(event, world) by {
                    assert(self.spec_nodes().contains(g));
                }
                l.lemma_true_answers_give_the_truth(m, event, world);
                if l.value(m) != Cond::False {
                    r.lemma_true_answers_give_the_truth(m, event, world);
                }
            },
            Expr::Or(l, r) => {
                lemma_concat_contains(l.spec_nodes(), r.spec_nodes());
                assert(self.spec_nodes() == l.spec_nodes() + r.spec_nodes());
                assert forall|g: D::Guard|
                    #[trigger] l.spec_nodes().contains(g) && m.contains_key(g.spec_name()) implies m[g.spec_name()]
                    == g.spec_eval(event, world) by {
                    assert(self.spec_nodes().contains(g));
                }
                assert forall|g: D::Guard|
                    #[trigger] r.spec_nodes().contains(g) && m.contains_key(g.spec_name()) implies m[g.spec_name()]
                    == g.spec_eval(event, world) by {
                    assert(self.spec_nodes().contains(g));
                }
                l.lemma_true_answers_give_the_truth(m, event, world);
                if l.value(m) != Cond::True {
                    r.lemma_true_answers_give_the_truth(m, event, world);
                }
            },
            Expr::Not(x) => {
                assert(self.spec_nodes() == x.spec_nodes());
                x.lemma_true_answers_give_the_truth(m, event, world);
            },
        }
    }

    /// Every node the tree references, left to right, as (name, identity).
    pub open spec fn spec_node_ids(self) -> Seq<(Seq<char>, nat)>
        decreases self,
    {
        match self {
            Expr::Always => Seq::empty(),
            Expr::Node(g) => seq![(g.spec_name(), g.spec_id())],
            Expr::And(l, r) => l.spec_node_ids() + r.spec_node_ids(),
            Expr::Or(l, r) => l.spec_node_ids() + r.spec_node_ids(),
            Expr::Not(x) => x.spec_node_ids(),
        }
    }

    /// The (name, identity) list of a tree holds exactly its nodes, in order,
    /// each with its own name and identity: a node under a negation, or on
    /// either side of a connective, is listed like any other.
    pub proof fn lemma_node_ids_are_the_nodes(self)
        ensures
            self.spec_node_ids() == self.spec_nodes().map_values(|g: D::Guard| (g.spec_name(), g.spec_id())),
        decreases self,
    {
        match self {
            Expr::Always => {
                assert(self.spec_node_ids() =~= self.spec_nodes().map_values(
                    |g: D::Guard| (g.spec_name(), g.spec_id()),
                ));
            },
            Expr::Node(g) => {
                assert(self.spec_node_ids() =~= self.spec_nodes().map_values(
                    |g: D::Guard| (g.spec_name(), g.spec_id()),
                ));
            },
            Expr::And(l, r) | Expr::Or(l, r) => {
                l.lemma_node_ids_are_the_nodes();
                r.lemma_node_ids_are_the_nodes();
                assert(self.spec_node_ids() =~= self.spec_nodes().map_values(
                    |g: D::Guard| (g.spec_name(), g.spec_id()),
                ));
            },
            Expr::Not(x) => {
                x.lemma_node_ids_are_the_nodes();
            },
        }
    }

    /// Every name evaluation can ask is a name the tree's (name, identity)
    /// list holds, so the naming checks see every node a dispatch consults.
    pub proof fn lemma_asked_names_are_listed(self, m: Map<Seq<char>, Cond>)
        ensures
            forall|n: Seq<char>|
                #[trigger] self.asked(m).contains(n) ==> exists|i: int|
                    0 <= i < self.spec_node_ids().len() && (#[trigger] self.spec_node_ids()[i]).0 == n,
        decreases self,
    {
        match self {
            Expr::Always => {
                assert forall|n: Seq<char>| #[trigger] self.asked(m).contains(n) implies exists|i: int|
                    0 <= i < self.spec_node_ids().len() && (#[trigger] self.spec_node_ids()[i]).0 == n by {
                    assert(self.asked(m) =~= Set::<Seq<char>>::empty());
                    assert(!self.asked(m).contains(n));
                }
            },
            Expr::Node(g) => {
                assert forall|n: Seq<char>| #[trigger] self.asked(m).contains(n) implies exists|i: int|
                    0 <= i < self.spec_node_ids().len() && (#[trigger] self.spec_node_ids()[i]).0 == n by {
                    assert(self.spec_node_ids()[0].0 == n);
                }
            },
            Expr::And(l, r) => {
                l.lemma_asked_names_are_listed(m);
                r.lemma_asked_names_are_listed(m);
                let ids = self.spec_node_ids();
                assert(ids == l.spec_node_ids() + r.spec_node_ids());
                assert forall|n: Seq<char>| #[trigger] self.asked(m).contains(n) implies exists|i: int|
                    0 <= i < ids.len() && (#[trigger] ids[i]).0 == n by {
                    if l.asked(m).contains(n) {
                        let i = choose|i: int| 0 <= i < l.spec_node_ids().len() && (#[trigger] l.spec_node_ids()[i]).0 == n;
                        assert(ids[i] == l.spec_node_ids()[i]);
                    } else {
                        assert(r.asked(m).contains(n));
                        let i = choose|i: int| 0 <= i < r.spec_node_ids().len() && (#[trigger] r.spec_node_ids()[i]).0 == n;
                        assert(ids[l.spec_node_ids().len() + i] == r.spec_node_ids()[i]);
                    }
                }
            },
            Expr::Or(l, r) => {
                l.lemma_asked_names_are_listed(m);
                r.lemma_asked_names_are_listed(m);
                let ids = self.spec_node_ids();
                assert(ids == l.spec_node_ids() + r.spec_node_ids());
                assert forall|n: Seq<char>| #[trigger] self.asked(m).contains(n) implies exists|i: int|
                    0 <= i < ids.len() && (#[trigger] ids[i]).0 == n by {
                    if l.asked(m).contains(n) {
                        let i = choose|i: int| 0 <= i < l.spec_node_ids().len() && (#[trigger] l.spec_node_ids()[i]).0 == n;
                        assert(ids[i] == l.spec_node_ids()[i]);
                    } else {
                        assert(r.asked(m).contains(n));
                        let i = choose|i: int| 0 <= i < r.spec_node_ids().len() && (#[trigger] r.spec_node_ids()[i]).0 == n;
                        assert(ids[l.spec_node_ids().len() + i] == r.spec_node_ids()[i]);
                    }
                }
            },
            Expr::Not(x) => {
                x.lemma_asked_names_are_listed(m);
                assert(self.spec_node_ids() == x.spec_node_ids());
                assert(self.asked(m) == x.asked(m));
            },
        }
    }

    /// Answers recorded beyond those evaluation asks for change neither the
    /// value nor what is asked.
    pub proof fn lemma_more_answers_change_nothing(
        self,
        m1: Map<Seq<char>, Cond>,
        m2: Map<Seq<char>, Cond>,
    )
        requires
            m1.submap_of(m2),
            self.asked(m1).subset_of(m1.dom()),
        ensures
            self.value(m2) == self.value(m1),
            self.asked(m2) == self.asked(m1),
        decreases self,
    {
        match self {
            Expr::Always => {},
            Expr::Node(g) => {
                assert(self.asked(m1).contains(g.spec_name()));
            },
            Expr::And(l, r) => {
                l.lemma_more_answers_change_nothing(m1, m2);
                if l.value(m1) != Cond::False {
                    r.lemma_more_answers_change_nothing(m1, m2);
                }
            },
            Expr::Or(l, r) => {
                l.lemma_more_answers_change_nothing(m1, m2);
                if l.value(m1) != Cond::True {
                    r.lemma_more_answers_change_nothing(m1, m2);
                }
            },
            Expr::Not(x) => {
                x.lemma_more_answers_change_nothing(m1, m2);
            },
        }
    }

    /// Evaluates the tree against `cx`. `And`/`Or` short-circuit, and a node
    /// whose name `memo` already answers is not evaluated again.
    ///
    /// Returns the combined guard result.
    pub fn eval(&self, cx: &Cx<'_, D>, memo: &mut Memo) -> (c: Cond)
        ensures
            forall|name: Seq<char>| #[trigger] old(memo)@.contains_key(name)
                ==> final(memo)@[name] == old(memo)@[name],
            final(memo)@.dom() == old(memo)@.dom().union(self.asked(final(memo)@)),
            c == self.value(final(memo)@),
            answered_by::<D>(old(memo)@, final(memo)@, self.spec_nodes(), *cx.event, *cx.world),
            (c, final(memo)@) == self.replay(old(memo)@, *cx.event, *cx.world),
        decreases self,
    {
        match self {
            Expr::Always => {
                assert(memo@.dom() =~= old(memo)@.dom().union(self.asked(memo@)));
                Cond::True
            },
            Expr::Node(g) => {
                let name = g.name();
                match memo.lookup(name) {
                    Some(cached) => {
                        assert(memo@.dom() =~= old(memo)@.dom().union(self.asked(memo@)));
                        cached
                    },
                    None => {
                        let cond = g.eval(cx);
                        memo.store(name, cond);
                        assert(memo@.dom() =~= old(memo)@.dom().union(self.asked(memo@)));
                        assert(self.spec_nodes()[0] == *g);
                        assert(self.spec_nodes().contains(*g));
                        cond
                    },
                }
            },
            Expr::And(l, r) => {
                let ghost m0 = memo@;
                let left = l.eval(cx, memo);
                let ghost m1 = memo@;
                proof {
                    lemma_concat_contains(l.spec_nodes(), r.spec_nodes());
                }
                if left == Cond::False {
                    assert(memo@.dom() =~= m0.dom().union(self.asked(m1)));
                    proof {
                        lemma_answered_chain::<D>(m0, m1, m1, l.spec_nodes(), r.spec_nodes(), self.spec_nodes(), *cx.event, *cx.world);
                    }
                    return Cond::False;
                }
                let right = r.eval(cx, memo);
                proof {
                    lemma_answered_chain::<D>(m0, m1, memo@, l.spec_nodes(), r.spec_nodes(), self.spec_nodes(), *cx.event, *cx.world);
                    assert(m1.submap_of(memo@));
                    l.lemma_more_answers_change_nothing(m1, memo@);
                    assert(memo@.dom() =~= m0.dom().union(self.asked(memo@)));
                    assert forall|name: Seq<char>| #[trigger] m0.contains_key(name) implies memo@[name]
                        == m0[name] by {
                        assert(m1.contains_key(name));
                    }
                }
                left.and(right)
            },
            Expr::Or(l, r) => {
                let ghost m0 = memo@;
                let left = l.eval(cx, memo);
                let ghost m1 = memo@;
                proof {
                    lemma_concat_contains(l.spec_nodes(), r.spec_nodes());
                }
                if left == Cond::True {
                    assert(memo@.dom() =~= m0.dom().union(self.asked(m1)));
                    proof {
                        lemma_answered_chain::<D>(m0, m1, m1, l.spec_nodes(), r.spec_nodes(), self.spec_nodes(), *cx.event, *cx.world);
                    }
                    return Cond::True;
                }
                let right = r.eval(cx, memo);
                proof {
                    lemma_answered_chain::<D>(m0, m1, memo@, l.spec_nodes(), r.spec_nodes(), self.spec_nodes(), *cx.event, *cx.world);
                    assert(m1.submap_of(memo@));
                    l.lemma_more_answers_change_nothing(m1, memo@);
                    assert(memo@.dom() =~= m0.dom().union(self.asked(memo@)));
                    assert forall|name: Seq<char>| #[trigger] m0.contains_key(name) implies memo@[name]
                        == m0[name] by {
                        assert(m1.contains_key(name));
                    }
                }
                left.or(right)
            },
            Expr::Not(x) => {
                let inner = x.eval(cx, memo);
                inner.not()
            },
        }
    }

    /// Renders the expression for diagrams, e.g. `A && !B`. `Not` is
    /// parenthesised so `!(A && B)` doesn't read as `!A && B`.
    ///
    /// Returns the rendered guard, or empty for [`Expr::Always`].
    pub fn render(&self) -> (s: String)
        ensures
            s@ == self.spec_render(),
        decreases self,
    {
        let mut s = String::new();
        match self {
            Expr::Always => {},
            Expr::Node(g) => {
                s.append(g.name());
            },
            Expr::And(l, r) => {
                let left = l.render();
                let right = r.render();
                s.append(left.as_str());
                s.append(" && ");
                s.append(right.as_str());
            },
            Expr::Or(l, r) => {
                let left = l.render();
                let right = r.render();
                s.append("(");
                s.append(left.as_str());
                s.append(" || ");
                s.append(right.as_str());
                s.append(")");
            },
            Expr::Not(x) => match x {
                Expr::Node(g) => {
                    s.append("!");
                    s.append(g.name());
                },
                other => {
                    let inner = other.render();
                    s.append("!(");
                    s.append(inner.as_str());
                    s.append(")");
                },
            },
        }
        s
    }

    /// Appends (name, identity) for every node this expression references,
    /// left to right.
    pub fn node_ids(&self, out: &mut Vec<(&'static str, usize)>)
        ensures
            ids_view(final(out)@) == ids_view(old(out)@) + self.spec_node_ids(),
        decreases self,
    {
        match self {
            Expr::Always => {
                assert(ids_view(out@) =~= ids_view(out@) + self.spec_node_ids());
            },
            Expr::Node(g) => {
                let ghost before = out@;
                out.push((g.name(), g.id()));
                assert(ids_view(out@) =~= ids_view(before) + self.spec_node_ids());
            },
            Expr::And(l, r) | Expr::Or(l, r) => {
                let ghost before = out@;
                l.node_ids(out);
                r.node_ids(out);
                assert(ids_view(out@) =~= ids_view(before) + self.spec_node_ids());
            },
            Expr::Not(x) => {
                x.node_ids(out);
            },
        }
    }
}

/// Node answers are keyed by name: two nodes answering to one name get one
/// answer, so within a dispatch the second inherits the first's result.
pub proof fn lemma_one_name_one_answer<D: Domain>(a: D::Guard, b: D::Guard, m: Map<Seq<char>, Cond>)
    where D::Guard: CondNode<D>
    requires
        a.spec_name() == b.spec_name(),
    ensures
        Expr::<D>::Node(a).value(m) == Expr::<D>::Node(b).value(m),
{
}

} // verus!
