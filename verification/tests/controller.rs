//! A reverse-camera controller, exercising dispatch, guards, rendering and the
//! reports.

#![allow(clippy::enum_variant_names)]

use std::cell::Cell;

use declared::feature::{AnyFeature, Feature, Rule};
use declared::guard::{Cond, CondNode, Cx, Expr, Memo, OnUnknown};
use declared::{render, report, verify};
use declared::{Domain, Enumerable, HasKind, Named};

// ─────────────────────────────────────────── domain

#[derive(Clone, Debug)]
enum Event {
    GearChanged(Gear),
    SpeedChanged,
    PowerChanged,
}

#[derive(Copy, Clone, PartialEq, Eq, Debug)]
enum Kind {
    GearChanged,
    SpeedChanged,
    PowerChanged,
}

impl Named for Kind {
    fn name(&self) -> String {
        format!("{self:?}")
    }
}

impl Enumerable for Kind {
    const ALL: &'static [Self] = &[Self::GearChanged, Self::SpeedChanged, Self::PowerChanged];

    fn ordinal(&self) -> usize {
        *self as usize
    }
}

impl HasKind for Event {
    type Kind = Kind;

    fn kind(&self) -> Kind {
        match self {
            Event::GearChanged(_) => Kind::GearChanged,
            Event::SpeedChanged => Kind::SpeedChanged,
            Event::PowerChanged => Kind::PowerChanged,
        }
    }
}

#[derive(Copy, Clone, PartialEq, Eq, Debug)]
enum Gear {
    Reverse,
    Drive,
}

#[derive(Copy, Clone, PartialEq, Eq, Debug)]
enum Action {
    ShowCamera,
    HideCamera,
    UpdateOverlay,
}

#[derive(Default)]
struct World {
    /// `None` models a failed lookup, which yields `Cond::Unknown`.
    speed: Option<f32>,
    camera_visible: bool,
    performed: Vec<Action>,
    /// The event kind each action was performed for.
    performed_for: Vec<Kind>,
    /// How many times `SpeedBelowLimit` looked the speed up.
    speed_lookups: Cell<u32>,
}

/// The controller's guard nodes. `OtherSpeedBelowLimit` is a second node that
/// answers to the name `SpeedBelowLimit`: declared somewhere else, meaning
/// something else.
#[derive(Copy, Clone, PartialEq, Eq, Debug)]
enum Guard {
    GearIsReverse,
    SpeedBelowLimit,
    OtherSpeedBelowLimit,
}

struct RearCam;

impl Domain for RearCam {
    type Event = Event;
    type EventKind = Kind;
    type World = World;
    type Guard = Guard;

    fn all_kinds() -> &'static [Kind] {
        Kind::ALL
    }
}

impl CondNode<RearCam> for Guard {
    fn name(&self) -> &'static str {
        match self {
            Guard::GearIsReverse => "GearIsReverse",
            Guard::SpeedBelowLimit | Guard::OtherSpeedBelowLimit => "SpeedBelowLimit",
        }
    }

    fn id(&self) -> usize {
        *self as usize
    }

    /// Ids are the enum's discriminants, so equal ids mean the same variant.
    fn lemma_id_identifies(_a: Self, _b: Self) {}

    fn eval(&self, cx: &Cx<'_, RearCam>) -> Cond {
        match self {
            // A payload guard: pure, and can never be Unknown.
            Guard::GearIsReverse => match cx.event {
                Event::GearChanged(g) => Cond::from(*g == Gear::Reverse),
                _ => Cond::False,
            },
            // A context guard: Unknown when the lookup fails. Counts its lookups
            // so that short-circuiting is observable.
            Guard::SpeedBelowLimit => {
                cx.world.speed_lookups.set(cx.world.speed_lookups.get() + 1);
                match cx.world.speed {
                    Some(v) => Cond::from(v < 15.0),
                    None => Cond::Unknown,
                }
            }
            Guard::OtherSpeedBelowLimit => Cond::True,
        }
    }
}

fn perform_action(action: Action, world: &mut World) {
    world.performed.push(action);
    match action {
        Action::ShowCamera => world.camera_visible = true,
        Action::HideCamera => world.camera_visible = false,
        Action::UpdateOverlay => {}
    }
}

/// Records the kind the action was performed for.
fn perform_for_event(action: Action, ev: &Event, world: &mut World) {
    world.performed_for.push(ev.kind());
    perform_action(action, world);
}

// ─────────────────────────────────────────── features

#[derive(Copy, Clone, PartialEq, Eq, Debug)]
enum CamAction {
    ShowCamera,
    HideCamera,
}

impl Named for CamAction {
    fn name(&self) -> String {
        format!("{self:?}")
    }
}

impl Enumerable for CamAction {
    const ALL: &'static [Self] = &[Self::ShowCamera, Self::HideCamera];

    fn ordinal(&self) -> usize {
        *self as usize
    }
}

struct Camera;

impl Feature for Camera {
    type Domain = RearCam;
    type Action = CamAction;

    const NAME: &'static str = "Camera";

    const RULES: &'static [Rule<RearCam, CamAction>] = &[
        Rule {
            id: "CAMERA_1",
            when: &[Kind::GearChanged],
            check: &Expr::Node(Guard::GearIsReverse),
            unknown: OnUnknown::Deny,
            emit: &[CamAction::ShowCamera],
        },
        Rule {
            id: "CAMERA_2",
            when: &[Kind::GearChanged],
            check: &Expr::Always,
            unknown: OnUnknown::Deny,
            emit: &[CamAction::HideCamera],
        },
    ];

    fn perform(action: CamAction, ev: &Event, world: &mut World) {
        perform_for_event(
            match action {
                CamAction::ShowCamera => Action::ShowCamera,
                CamAction::HideCamera => Action::HideCamera,
            },
            ev,
            world,
        );
    }
}

#[derive(Copy, Clone, PartialEq, Eq, Debug)]
enum OverlayAction {
    UpdateOverlay,
}

impl Named for OverlayAction {
    fn name(&self) -> String {
        format!("{self:?}")
    }
}

impl Enumerable for OverlayAction {
    const ALL: &'static [Self] = &[Self::UpdateOverlay];

    fn ordinal(&self) -> usize {
        *self as usize
    }
}

struct Overlay;

impl Feature for Overlay {
    type Domain = RearCam;
    type Action = OverlayAction;

    const NAME: &'static str = "Overlay";

    const RULES: &'static [Rule<RearCam, OverlayAction>] = &[Rule {
        id: "OVERLAY_1",
        when: &[Kind::SpeedChanged],
        check: &Expr::Node(Guard::SpeedBelowLimit),
        unknown: OnUnknown::Deny,
        emit: &[OverlayAction::UpdateOverlay],
    }];

    fn perform(action: OverlayAction, ev: &Event, world: &mut World) {
        match action {
            OverlayAction::UpdateOverlay => perform_for_event(Action::UpdateOverlay, ev, world),
        }
    }
}

const CAMERA_FEATURES: &[&dyn AnyFeature<RearCam>] = &[&Camera, &Overlay];

#[test]
fn dispatch_runs_only_the_declared_kinds() {
    let mut w = World::default();

    // Declared: a rule matches and dispatch carries its effect out.
    Camera.dispatch(&Event::GearChanged(Gear::Reverse), &mut w);
    assert_eq!(w.performed, vec![Action::ShowCamera]);
    assert!(w.camera_visible);

    // Not declared: no rule is even considered, so no guard runs.
    w.speed = Some(10.0);
    Camera.dispatch(&Event::SpeedChanged, &mut w);
    assert_eq!(w.performed, vec![Action::ShowCamera]);
}

/// The event reaches `perform`, so an action may read a value off its payload.
#[test]
fn dispatch_performs_with_the_event_that_caused_it() {
    let mut w = World::default();

    Camera.dispatch(&Event::GearChanged(Gear::Drive), &mut w);

    assert_eq!(w.performed, vec![Action::HideCamera]);
    assert_eq!(w.performed_for, vec![Kind::GearChanged]);
}

/// Declaration order is priority: the guarded rule wins and the fallback below
/// it never runs.
#[test]
fn dispatch_takes_the_first_rule_that_matches() {
    let mut w = World::default();

    Camera.dispatch(&Event::GearChanged(Gear::Reverse), &mut w);

    assert_eq!(w.performed, vec![Action::ShowCamera]);
}

/// An unguarded rule below a guarded one is the `else` branch.
#[test]
fn dispatch_falls_through_to_an_unguarded_rule() {
    let mut w = World::default();

    Camera.dispatch(&Event::GearChanged(Gear::Drive), &mut w);

    assert_eq!(w.performed, vec![Action::HideCamera]);
}

/// `speed` is `None`, so the guard is `Unknown`. `Deny` holds the rule back and
/// nothing below it matches either.
#[test]
fn dispatch_denies_an_undecidable_guard() {
    let mut w = World::default();

    Overlay.dispatch(&Event::SpeedChanged, &mut w);

    assert!(w.performed.is_empty());
}

/// The same feature, told to act when the lookup fails.
struct Optimist;

impl Feature for Optimist {
    type Domain = RearCam;
    type Action = OverlayAction;

    const NAME: &'static str = "Optimist";

    const RULES: &'static [Rule<RearCam, OverlayAction>] = &[Rule {
        id: "OPTIMIST_1",
        when: &[Kind::SpeedChanged],
        check: &Expr::Node(Guard::SpeedBelowLimit),
        unknown: OnUnknown::Allow,
        emit: &[OverlayAction::UpdateOverlay],
    }];

    fn perform(action: OverlayAction, ev: &Event, world: &mut World) {
        Overlay::perform(action, ev, world);
    }
}

#[test]
fn dispatch_allows_an_undecidable_guard_when_told_to() {
    let mut w = World::default();

    Optimist.dispatch(&Event::SpeedChanged, &mut w);

    assert_eq!(w.performed, vec![Action::UpdateOverlay]);
}

/// Two rules naming the same node. The `Memo` is per dispatch, so the lookup
/// happens once even though the node is reached twice.
struct Shared;

impl Feature for Shared {
    type Domain = RearCam;
    type Action = CamAction;

    const NAME: &'static str = "Shared";

    const RULES: &'static [Rule<RearCam, CamAction>] = &[
        Rule {
            id: "SHARED_1",
            when: &[Kind::SpeedChanged],
            check: &Expr::And(&Expr::Node(Guard::SpeedBelowLimit), &Expr::Node(Guard::GearIsReverse)),
            unknown: OnUnknown::Deny,
            emit: &[CamAction::ShowCamera],
        },
        Rule {
            id: "SHARED_2",
            when: &[Kind::SpeedChanged],
            check: &Expr::Node(Guard::SpeedBelowLimit),
            unknown: OnUnknown::Deny,
            emit: &[CamAction::HideCamera],
        },
    ];

    fn perform(action: CamAction, ev: &Event, world: &mut World) {
        Camera::perform(action, ev, world);
    }
}

#[test]
fn dispatch_evaluates_a_shared_node_once() {
    let mut w = World {
        speed: Some(10.0),
        ..Default::default()
    };

    // The first rule fails on `GearIsReverse`, the second re-reads the speed
    // node and hits the cache.
    Shared.dispatch(&Event::SpeedChanged, &mut w);

    assert_eq!(w.performed, vec![Action::HideCamera]);
    assert_eq!(w.speed_lookups.get(), 1);
}

/// An action carrying a value, whose name puts punctuation in the middle of
/// what becomes a node id.
#[derive(Copy, Clone, PartialEq, Eq, Debug)]
enum PayloadAction {
    Show(u8),
}

impl Named for PayloadAction {
    fn name(&self) -> String {
        format!("{self:?}")
    }
}

struct Payload;

impl Feature for Payload {
    type Domain = RearCam;
    type Action = PayloadAction;

    const NAME: &'static str = "Payload";

    const RULES: &'static [Rule<RearCam, PayloadAction>] = &[Rule {
        id: "PAYLOAD_1",
        when: &[Kind::GearChanged],
        check: &Expr::Node(Guard::GearIsReverse),
        unknown: OnUnknown::Deny,
        emit: &[PayloadAction::Show(7)],
    }];

    fn perform(action: PayloadAction, ev: &Event, world: &mut World) {
        match action {
            PayloadAction::Show(_) => perform_for_event(Action::ShowCamera, ev, world),
        }
    }
}

/// Rules that overlap in both columns. `handles` and `emits` are the union, so
/// the summary table does not repeat itself.
struct Noisy;

impl Feature for Noisy {
    type Domain = RearCam;
    type Action = CamAction;

    const NAME: &'static str = "Noisy";

    const RULES: &'static [Rule<RearCam, CamAction>] = &[
        Rule {
            id: "NOISY_1",
            when: &[Kind::SpeedChanged, Kind::GearChanged],
            check: &Expr::Node(Guard::GearIsReverse),
            unknown: OnUnknown::Deny,
            emit: &[CamAction::ShowCamera, CamAction::ShowCamera],
        },
        Rule {
            id: "NOISY_2",
            when: &[Kind::GearChanged, Kind::PowerChanged],
            check: &Expr::Always,
            unknown: OnUnknown::Deny,
            emit: &[CamAction::ShowCamera],
        },
    ];

    fn perform(action: CamAction, ev: &Event, world: &mut World) {
        Camera::perform(action, ev, world);
    }
}

/// Kinds come back in the domain's declaration order, not the order the rules
/// happen to list them.
#[test]
fn handles_is_the_union_in_domain_order() {
    assert_eq!(
        Noisy.handles(),
        vec![Kind::GearChanged, Kind::SpeedChanged, Kind::PowerChanged]
    );
}

#[test]
fn emits_drops_repeats() {
    assert_eq!(Noisy.emits(), vec!["ShowCamera".to_string()]);
}

/// A feature with no rules at all.
struct Idle;

impl Feature for Idle {
    type Domain = RearCam;
    type Action = CamAction;

    const NAME: &'static str = "Idle";

    const RULES: &'static [Rule<RearCam, CamAction>] = &[];

    fn perform(action: CamAction, ev: &Event, world: &mut World) {
        Camera::perform(action, ev, world);
    }
}

/// A rule with nothing before it really is unconditional.
struct Always;

impl Feature for Always {
    type Domain = RearCam;
    type Action = OverlayAction;

    const NAME: &'static str = "Always";

    const RULES: &'static [Rule<RearCam, OverlayAction>] = &[Rule {
        id: "ALWAYS_1",
        when: &[Kind::PowerChanged],
        check: &Expr::Always,
        unknown: OnUnknown::Deny,
        emit: &[OverlayAction::UpdateOverlay],
    }];

    fn perform(action: OverlayAction, ev: &Event, world: &mut World) {
        Overlay::perform(action, ev, world);
    }
}

#[test]
fn io_table_lists_each_feature() {
    let table = render::io_table(CAMERA_FEATURES);

    assert!(
        table.contains("| `Camera` | `GearChanged` | `ShowCamera`, `HideCamera` |"),
        "{table}"
    );
    assert!(
        table.contains("| `Overlay` | `SpeedChanged` | `UpdateOverlay` |"),
        "{table}"
    );
}

/// A feature with no rules at all: both columns render as a dash rather than an
/// empty cell.
#[test]
fn io_table_dashes_a_feature_that_declares_nothing() {
    let table = render::io_table(&[&Idle]);

    assert!(table.contains("| `Idle` | — | — |"), "{table}");
}

#[test]
fn rule_table_shows_the_guard_of_each_rule() {
    let table = render::rule_table(CAMERA_FEATURES);

    assert!(
        table.contains("| `Camera` | `CAMERA_1` | `GearChanged` | `GearIsReverse` | `ShowCamera` |"),
        "{table}"
    );
    assert!(
        table.contains("| `Overlay` | `OVERLAY_1` | `SpeedChanged` | `SpeedBelowLimit` | `UpdateOverlay` |"),
        "{table}"
    );
}

/// An unguarded rule under a rule covering the same kind is a fallback, and is
/// labelled as one so the row does not read as unconditional.
#[test]
fn rule_table_calls_a_covered_unguarded_rule_else() {
    let table = render::rule_table(&[&Camera]);

    assert!(
        table.contains("| `Camera` | `CAMERA_2` | `GearChanged` | else | `HideCamera` |"),
        "{table}"
    );
}

#[test]
fn rule_table_dashes_a_rule_nothing_precedes() {
    let table = render::rule_table(&[&Always]);

    assert!(
        table.contains("| `Always` | `ALWAYS_1` | `PowerChanged` | — | `UpdateOverlay` |"),
        "{table}"
    );
}

/// `unknown = Allow` is a decision the reader has to see, so it rides along in
/// the guard column.
#[test]
fn rule_table_marks_an_allowing_rule() {
    let table = render::rule_table(&[&Optimist]);

    assert!(
        table.contains("`SpeedBelowLimit` (unknown=Allow)"),
        "{table}"
    );
}

/// The whole table, header and line order included.
#[test]
fn rule_table_is_the_header_then_every_rule_in_order() {
    let table = render::rule_table(CAMERA_FEATURES);

    assert_eq!(
        table,
        "| feature | rule | when | guard | emits |\n\
         |---|---|---|---|---|\n\
         | `Camera` | `CAMERA_1` | `GearChanged` | `GearIsReverse` | `ShowCamera` |\n\
         | `Camera` | `CAMERA_2` | `GearChanged` | else | `HideCamera` |\n\
         | `Overlay` | `OVERLAY_1` | `SpeedChanged` | `SpeedBelowLimit` | `UpdateOverlay` |\n"
    );
}

// ─────────────────────────────────────────── one event at a time

/// One signal's whole answer, features included, and nothing else.
#[test]
fn event_table_gathers_one_kind_across_features() {
    let table = render::event_table(CAMERA_FEATURES, Kind::GearChanged);

    assert!(table.contains("`CAMERA_1`"), "{table}");
    assert!(table.contains("`CAMERA_2`"), "{table}");
    // Overlay reacts to SpeedChanged alone, so it contributes no row here.
    assert!(!table.contains("`OVERLAY_1`"), "{table}");
}

/// The `when` column survives the filter, so a rule appearing under two signals
/// says why.
#[test]
fn event_table_keeps_the_whole_trigger_set() {
    let table = render::event_table(&[&Noisy], Kind::PowerChanged);

    assert!(
        table.contains("| `Noisy` | `NOISY_2` | `GearChanged`, `PowerChanged` |"),
        "{table}"
    );
}

/// Shadowing is a question about one signal, not about a feature: `NOISY_2` is
/// `NOISY_1`'s fallback on `GearChanged` and unconditional on `PowerChanged`.
#[test]
fn event_table_decides_else_against_the_event_not_the_feature() {
    let gear = render::event_table(&[&Noisy], Kind::GearChanged);
    let power = render::event_table(&[&Noisy], Kind::PowerChanged);

    assert!(gear.contains("| `NOISY_2` | `GearChanged`, `PowerChanged` | else |"), "{gear}");
    assert!(power.contains("| `NOISY_2` | `GearChanged`, `PowerChanged` | — |"), "{power}");
}

#[test]
fn event_table_is_empty_for_a_kind_nothing_takes() {
    let table = render::event_table(CAMERA_FEATURES, Kind::PowerChanged);

    assert!(table.lines().count() == 2, "header only, got:\n{table}");
}

/// Only the features and rules that react to this kind appear.
#[test]
fn event_flowchart_draws_one_kind_and_its_features() {
    let declared = render::event_flowchart(CAMERA_FEATURES, Kind::GearChanged);

    assert!(declared.contains(r#"ev_GearChanged["GearChanged"] --> ft_Camera["Camera"]"#));
    assert!(
        declared.contains(
            r#"ft_Camera["Camera"] -->|"CAMERA_1<br/>GearIsReverse"| ac_Camera_ShowCamera["ShowCamera"]"#
        ),
        "{declared}"
    );
    assert!(!declared.contains("ft_Overlay"), "{declared}");
    assert!(!declared.contains("ev_SpeedChanged"), "{declared}");
}

/// An action node id carries its feature: two features that name an effect
/// alike are drawing two different effects, so the nodes must not merge.
#[test]
fn event_flowchart_scopes_action_nodes_to_their_feature() {
    let declared = render::event_flowchart(&[&Camera, &Noisy], Kind::GearChanged);

    assert!(declared.contains("ac_Camera_ShowCamera"), "{declared}");
    assert!(declared.contains("ac_Noisy_ShowCamera"), "{declared}");
}

/// An arrow names the rule that produced the action, then its guard.
#[test]
fn event_flowchart_labels_arrows_with_their_rule_and_guard() {
    let declared = render::event_flowchart(&[&Camera], Kind::GearChanged);

    assert!(
        declared.contains(
            r#"ft_Camera["Camera"] -->|"CAMERA_2<br/>else"| ac_Camera_HideCamera["HideCamera"]"#
        ),
        "{declared}"
    );
}

/// An unconditional rule's arrow carries its id and nothing else.
#[test]
fn event_flowchart_labels_an_unconditional_arrow_with_the_id_alone() {
    let declared = render::event_flowchart(&[&Always], Kind::PowerChanged);

    assert!(
        declared.contains(
            r#"ft_Always["Always"] -->|"ALWAYS_1"| ac_Always_UpdateOverlay["UpdateOverlay"]"#
        ),
        "{declared}"
    );
}

/// A node id may not carry punctuation — mermaid ends the identifier at `(`
/// and fails to parse the line. The quoted label keeps it.
#[test]
fn event_flowchart_folds_punctuation_out_of_node_ids() {
    let declared = render::event_flowchart(&[&Payload], Kind::GearChanged);

    assert!(
        declared.contains(r#"ac_Payload_Show_7_["Show(7)"]"#),
        "{declared}"
    );
    assert!(!declared.contains("ac_Payload_Show(7)"), "{declared}");
}

#[test]
fn event_flowchart_is_bare_for_a_kind_nothing_takes() {
    assert_eq!(
        render::event_flowchart(CAMERA_FEATURES, Kind::PowerChanged),
        "flowchart LR\n"
    );
}

/// A feature's emits repeat per action, so one rule emitting two actions
/// draws two arrows.
#[test]
fn event_flowchart_draws_one_arrow_per_emitted_action() {
    let declared = render::event_flowchart(&[&Noisy], Kind::SpeedChanged);

    assert_eq!(
        declared,
        "flowchart LR\n    ev_SpeedChanged[\"SpeedChanged\"] --> ft_Noisy[\"Noisy\"]\n    \
         ft_Noisy[\"Noisy\"] -->|\"NOISY_1<br/>GearIsReverse\"| ac_Noisy_ShowCamera[\"ShowCamera\"]\n    \
         ft_Noisy[\"Noisy\"] -->|\"NOISY_1<br/>GearIsReverse\"| ac_Noisy_ShowCamera[\"ShowCamera\"]\n"
    );
}

#[test]
fn unhandled_kinds_reports_what_no_feature_takes() {
    // PowerChanged is in the event enum but no feature declares it.
    assert_eq!(
        verify::unhandled_kinds(CAMERA_FEATURES),
        vec![Kind::PowerChanged]
    );
}

/// An effect a feature declares but never emits is dead.
#[test]
fn unemitted_actions_reports_what_a_feature_never_produces() {
    assert_eq!(
        verify::unemitted_actions::<Overlay>(),
        Vec::<OverlayAction>::new()
    );
    assert_eq!(
        verify::unemitted_actions::<Always>(),
        Vec::<OverlayAction>::new()
    );
    // `Idle` emits neither of `CamAction`'s variants.
    assert_eq!(
        verify::unemitted_actions::<Idle>(),
        vec![CamAction::ShowCamera, CamAction::HideCamera]
    );
}

// ─────────────────────────────────────────── guard names

/// A feature whose two rules reach two different nodes sharing a name.
struct Colliding;

impl Feature for Colliding {
    type Domain = RearCam;
    type Action = OverlayAction;

    const NAME: &'static str = "Colliding";

    const RULES: &'static [Rule<RearCam, OverlayAction>] = &[
        Rule {
            id: "COLLIDING_1",
            when: &[Kind::SpeedChanged],
            check: &Expr::Node(Guard::SpeedBelowLimit),
            unknown: OnUnknown::Deny,
            emit: &[OverlayAction::UpdateOverlay],
        },
        Rule {
            id: "COLLIDING_2",
            when: &[Kind::SpeedChanged],
            check: &Expr::Node(Guard::OtherSpeedBelowLimit),
            unknown: OnUnknown::Deny,
            emit: &[OverlayAction::UpdateOverlay],
        },
    ];

    fn perform(action: OverlayAction, ev: &Event, world: &mut World) {
        Overlay::perform(action, ev, world);
    }
}

/// Names only the other node, so it is clean on its own.
struct Colliding2;

impl Feature for Colliding2 {
    type Domain = RearCam;
    type Action = OverlayAction;

    const NAME: &'static str = "Colliding2";

    const RULES: &'static [Rule<RearCam, OverlayAction>] = &[Rule {
        id: "COLLIDING2_1",
        when: &[Kind::SpeedChanged],
        check: &Expr::Node(Guard::OtherSpeedBelowLimit),
        unknown: OnUnknown::Deny,
        emit: &[OverlayAction::UpdateOverlay],
    }];

    fn perform(action: OverlayAction, ev: &Event, world: &mut World) {
        Overlay::perform(action, ev, world);
    }
}

/// Reuse is the normal case and must not be reported.
#[test]
fn duplicate_node_names_passes_a_node_reused_across_rules_and_features() {
    assert!(verify::duplicate_node_names(&[&Shared]).is_empty());
    assert!(verify::duplicate_node_names(CAMERA_FEATURES).is_empty());
}

/// Two nodes, one name.
#[test]
fn duplicate_node_names_reports_two_types_sharing_a_name() {
    assert_eq!(
        verify::duplicate_node_names(&[&Colliding]),
        vec!["SpeedBelowLimit"]
    );
}

/// The collision no single feature can see.
#[test]
fn duplicate_node_names_spans_two_features() {
    assert!(verify::duplicate_node_names(&[&Colliding2]).is_empty());
    assert!(verify::duplicate_node_names(&[&Overlay]).is_empty());

    assert_eq!(
        verify::duplicate_node_names(&[&Colliding2, &Overlay]),
        vec!["SpeedBelowLimit"]
    );
}

/// With two nodes sharing a name, the second rule never evaluates its own
/// guard.
#[test]
fn a_shared_name_makes_the_second_node_inherit_the_first_answer() {
    let mut w = World {
        // `SpeedBelowLimit` is False here; the other node is always True, so
        // rule two would emit if it were the one being asked.
        speed: Some(200.0),
        ..Default::default()
    };

    Colliding.dispatch(&Event::SpeedChanged, &mut w);

    assert!(
        w.performed.is_empty(),
        "rule two inherited the cached False: {:?}",
        w.performed
    );
    // One lookup, not two: the second node's `eval` was never reached.
    assert_eq!(w.speed_lookups.get(), 1);
}

// ─────────────────────────────────────────── dispatch reports what ran

#[test]
fn feature_dispatch_returns_the_rule_that_ran() {
    let mut w = World::default();

    assert_eq!(
        Camera.dispatch(&Event::GearChanged(Gear::Reverse), &mut w),
        Some("CAMERA_1")
    );
    // The fallback below it, when the guard above does not hold.
    assert_eq!(
        Camera.dispatch(&Event::GearChanged(Gear::Drive), &mut w),
        Some("CAMERA_2")
    );
    // A kind no rule is considered for.
    assert_eq!(Camera.dispatch(&Event::PowerChanged, &mut w), None);
}

/// `Camera` and `Twin` both declare `CAMERA_1`.
struct Twin;

impl Feature for Twin {
    type Domain = RearCam;
    type Action = CamAction;
    const NAME: &'static str = "Twin";
    const RULES: &'static [Rule<RearCam, CamAction>] = &[Rule {
        id: "CAMERA_1",
        when: &[Kind::PowerChanged],
        check: &Expr::Always,
        unknown: OnUnknown::Deny,
        emit: &[CamAction::ShowCamera],
    }];
    fn perform(action: CamAction, ev: &Event, world: &mut World) {
        Camera::perform(action, ev, world);
    }
}

#[test]
fn duplicate_rule_ids_reports_a_repeat_across_features() {
    assert!(verify::duplicate_rule_ids(CAMERA_FEATURES).is_empty());

    assert_eq!(
        verify::duplicate_rule_ids(&[&Camera, &Twin]),
        vec!["CAMERA_1"]
    );
}

/// A guard saying no is not the same as nothing covering the event.
#[test]
fn a_declining_guard_is_not_a_missing_rule() {
    let mut w = World {
        speed: Some(200.0),
        ..Default::default()
    };

    assert!(Optimist.dispatch(&Event::SpeedChanged, &mut w).is_none());
    assert!(w.performed.is_empty());
    assert!(Optimist.handles().contains(&Kind::SpeedChanged));
}

// ─────────────────────────────────────────── guard expressions

/// `Not` is parenthesised so `!(A && B)` cannot be read as `!A && B`.
#[test]
fn render_parenthesises_negated_subexpressions() {
    let inner: &'static Expr<RearCam> =
        &Expr::And(&Expr::Node(Guard::GearIsReverse), &Expr::Node(Guard::SpeedBelowLimit));
    let negated = Expr::Not(inner);

    assert_eq!(negated.render(), "!(GearIsReverse && SpeedBelowLimit)");
    assert_eq!(
        Expr::<RearCam>::Not(&Expr::Node(Guard::GearIsReverse)).render(),
        "!GearIsReverse"
    );
}

/// An unguarded rule is always true, renders to nothing, and names no node.
#[test]
fn always_is_true_renders_empty_and_references_no_nodes() {
    let always: &'static Expr<RearCam> = &Expr::Always;
    let w = World::default();
    let mut memo = Memo::new();
    let cx = Cx::new(&Event::SpeedChanged, &w);

    assert_eq!(always.eval(&cx, &mut memo), Cond::True);
    assert_eq!(always.render(), "");

    let mut ids = Vec::new();
    always.node_ids(&mut ids);
    assert!(ids.is_empty());
}

/// `Or` stops at the first `True`, so the right side is never asked.
#[test]
fn or_short_circuits_on_true() {
    let w = World {
        // Would be Unknown if it were reached.
        speed: None,
        ..Default::default()
    };
    let mut memo = Memo::new();
    let cx = Cx::new(&Event::GearChanged(Gear::Reverse), &w);
    let expr: Expr<RearCam> = Expr::Or(&Expr::Node(Guard::GearIsReverse), &Expr::Node(Guard::SpeedBelowLimit));

    assert_eq!(expr.eval(&cx, &mut memo), Cond::True);
    assert_eq!(w.speed_lookups.get(), 0, "right side was evaluated");
}

/// `And` stops at the first `False`, likewise.
#[test]
fn and_short_circuits_on_false() {
    let w = World {
        speed: None,
        ..Default::default()
    };
    let mut memo = Memo::new();
    let cx = Cx::new(&Event::GearChanged(Gear::Drive), &w);
    let expr: Expr<RearCam> = Expr::And(&Expr::Node(Guard::GearIsReverse), &Expr::Node(Guard::SpeedBelowLimit));

    assert_eq!(expr.eval(&cx, &mut memo), Cond::False);
    assert_eq!(w.speed_lookups.get(), 0, "right side was evaluated");
}

// ─────────────────────────────────────────── declarations

/// The kind list the reports walk is complete.
#[test]
fn events_generates_an_exhaustive_kind_list() {
    assert_eq!(
        <Kind as Enumerable>::ALL,
        &[Kind::GearChanged, Kind::SpeedChanged, Kind::PowerChanged]
    );
}

/// One `HasKind` arm per variant, whether or not the variant carries a payload.
#[test]
fn generated_kind_maps_payload_and_unit_variants() {
    assert_eq!(Event::GearChanged(Gear::Reverse).kind(), Kind::GearChanged);
    assert_eq!(Event::SpeedChanged.kind(), Kind::SpeedChanged);
}

/// Dispatch is not re-entrant: a rule's effects land in `World` before the next
/// event is looked at, so a follow-up event is queued by the caller and handled
/// in turn.
#[test]
fn caller_side_queue_processes_events_in_order() {
    let mut w = World::default();
    let queue = [Event::GearChanged(Gear::Reverse), Event::GearChanged(Gear::Drive)];

    for ev in &queue {
        Camera.dispatch(ev, &mut w);
    }

    assert_eq!(
        w.performed,
        vec![Action::ShowCamera, Action::HideCamera],
        "each event was handled to completion before the next"
    );
    assert!(!w.camera_visible);
}

// ─────────────────────────────────────────── more of the same, by law

/// Reuses two ids that `Camera` and `Overlay` already declare.
struct Echo;

impl Feature for Echo {
    type Domain = RearCam;
    type Action = CamAction;
    const NAME: &'static str = "Echo";
    const RULES: &'static [Rule<RearCam, CamAction>] = &[
        Rule {
            id: "OVERLAY_1",
            when: &[Kind::PowerChanged],
            check: &Expr::Or(&Expr::Node(Guard::GearIsReverse), &Expr::Not(&Expr::Node(Guard::SpeedBelowLimit))),
            unknown: OnUnknown::Allow,
            emit: &[CamAction::HideCamera, CamAction::ShowCamera],
        },
        Rule {
            id: "CAMERA_2",
            when: &[Kind::PowerChanged],
            check: &Expr::Always,
            unknown: OnUnknown::Deny,
            emit: &[],
        },
    ];
    fn perform(action: CamAction, ev: &Event, world: &mut World) {
        Camera::perform(action, ev, world);
    }
}

/// Repeats come back sorted by name and each once, whatever order the
/// features are listed in.
#[test]
fn duplicate_rule_ids_are_sorted_and_listed_once() {
    assert_eq!(
        verify::duplicate_rule_ids(&[&Overlay, &Camera, &Echo, &Echo]),
        vec!["CAMERA_2", "OVERLAY_1"]
    );
    assert!(verify::duplicate_rule_ids::<RearCam>(&[]).is_empty());
}

/// An empty controller handles nothing, and reports every kind.
#[test]
fn an_empty_controller_leaves_every_kind_unhandled() {
    assert_eq!(
        verify::unhandled_kinds::<RearCam>(&[]),
        vec![Kind::GearChanged, Kind::SpeedChanged, Kind::PowerChanged]
    );
    assert!(verify::duplicate_node_names::<RearCam>(&[]).is_empty());
    assert_eq!(render::io_table::<RearCam>(&[]), "| feature | handles | emits |\n|---|---|---|\n");
}

/// `||` is parenthesised and a negated node is not, and an allowing rule says
/// so after its guard.
#[test]
fn rule_table_renders_or_and_not() {
    let table = render::rule_table(&[&Echo]);

    assert!(
        table.contains(
            "| `Echo` | `OVERLAY_1` | `PowerChanged` | `(GearIsReverse || !SpeedBelowLimit)` (unknown=Allow) | `HideCamera`, `ShowCamera` |"
        ),
        "{table}"
    );
    // A rule that emits nothing shows a dash, and its guard is a fallback.
    assert!(table.contains("| `Echo` | `CAMERA_2` | `PowerChanged` | else | — |"), "{table}");
}

/// Node references come out left to right, each with its own identity.
#[test]
fn node_ids_lists_every_reference_in_order() {
    let expr: Expr<RearCam> = Expr::And(
        &Expr::Node(Guard::SpeedBelowLimit),
        &Expr::Or(&Expr::Node(Guard::GearIsReverse), &Expr::Node(Guard::OtherSpeedBelowLimit)),
    );
    let mut ids = vec![("Before", 99)];
    expr.node_ids(&mut ids);

    assert_eq!(
        ids,
        vec![("Before", 99), ("SpeedBelowLimit", 1), ("GearIsReverse", 0), ("SpeedBelowLimit", 2)]
    );
}

/// An answer already in the memo is not asked for again.
#[test]
fn a_memo_answers_a_name_once() {
    let w = World {
        speed: Some(3.0),
        ..Default::default()
    };
    let mut memo = Memo::new();
    let cx = Cx::new(&Event::SpeedChanged, &w);
    let expr: Expr<RearCam> = Expr::Node(Guard::SpeedBelowLimit);

    assert_eq!(expr.eval(&cx, &mut memo), Cond::True);
    assert_eq!(expr.eval(&cx, &mut memo), Cond::True);
    // The other node shares the name, so it gets the recorded answer too.
    assert_eq!(Expr::<RearCam>::Node(Guard::OtherSpeedBelowLimit).eval(&cx, &mut memo), Cond::True);
    assert_eq!(w.speed_lookups.get(), 1);
}

/// Kleene NOT of an undecidable guard stays undecidable, so a negated failed
/// lookup is denied too.
#[test]
fn a_negated_unknown_is_still_unknown() {
    let w = World::default();
    let mut memo = Memo::new();
    let cx = Cx::new(&Event::SpeedChanged, &w);
    let expr: Expr<RearCam> = Expr::Not(&Expr::Node(Guard::SpeedBelowLimit));

    assert_eq!(expr.eval(&cx, &mut memo), Cond::Unknown);
    assert!(!OnUnknown::Deny.accepts(expr.eval(&cx, &mut memo)));
}

/// The emitted actions run in order, every one of them.
#[test]
fn dispatch_runs_every_emitted_action_in_order() {
    let mut w = World {
        speed: Some(50.0),
        ..Default::default()
    };

    // `Echo`'s first rule is `GearIsReverse || !SpeedBelowLimit`: the speed
    // is over the limit, so it holds.
    assert_eq!(Echo.dispatch(&Event::PowerChanged, &mut w), Some("OVERLAY_1"));
    assert_eq!(w.performed, vec![Action::HideCamera, Action::ShowCamera]);
    assert!(w.camera_visible);
}

/// `handles` lists a kind once however many rules cover it, and the summary
/// table agrees with it.
#[test]
fn io_table_agrees_with_handles_and_emits() {
    assert_eq!(Camera.handles(), vec![Kind::GearChanged]);
    assert_eq!(Camera.emits(), vec!["ShowCamera".to_string(), "HideCamera".to_string()]);
    assert_eq!(
        render::io_table(&[&Noisy]),
        "| feature | handles | emits |\n|---|---|---|\n| `Noisy` | `GearChanged`, `SpeedChanged`, `PowerChanged` | `ShowCamera` |\n"
    );
}

/// The rows are the rules, flattened, in priority order.
#[test]
fn rows_flatten_every_rule() {
    let rows = Camera.rows();

    assert_eq!(rows.len(), 2);
    assert_eq!(rows[0].id, "CAMERA_1");
    assert_eq!(rows[0].when, &[Kind::GearChanged]);
    assert_eq!(rows[0].guard, "GearIsReverse");
    assert_eq!(rows[0].unknown, OnUnknown::Deny);
    assert_eq!(rows[0].emit, vec!["ShowCamera".to_string()]);
    assert_eq!(rows[1].guard, "");
    assert_eq!(Camera.name(), "Camera");
}


// ─────────────────────────────────────────── report

#[test]
fn features_report_assembles_every_document_and_is_clean() {
    let r = report::features("Rear camera", CAMERA_FEATURES);
    assert!(r.is_clean());
    let mut by_feature = String::new();
    for f in CAMERA_FEATURES {
        by_feature.push_str(&format!("### {}\n\n", f.name()));
        for group in render::when_groups(*f) {
            let names: Vec<String> = group.iter().map(|k| format!("`{k:?}`")).collect();
            by_feature.push_str(&format!(
                "#### When {}\n\n{}\n```mermaid\n{}```\n\n",
                names.join(", "),
                render::when_table(*f, group),
                render::when_flowchart(*f, group),
            ));
        }
    }
    let unhandled = verify::unhandled_kinds(CAMERA_FEATURES);
    let expected = format!(
        "# Rear camera\n\n## Features\n\n{}\n## Rules\n\n{}\n## By feature\n\n{by_feature}## Checks\n\n| Check | Result |\n|---|---|\n| Events nothing handles | {unhandled:?} |\n| Guard names used by two node types | [] |\n| Rule ids used twice | [] |\n| Rules with no event or no action | [] |\n",
        render::io_table(CAMERA_FEATURES),
        render::rule_table(CAMERA_FEATURES),
    );
    assert_eq!(r.markdown, expected);
}

#[test]
fn when_groups_split_a_feature_by_trigger_set() {
    let groups = render::when_groups(&Camera);
    assert_eq!(groups, vec![&[Kind::GearChanged][..]]);
    assert_eq!(
        render::when_table(&Camera, groups[0]),
        "| rule | guard | emits |\n|---|---|---|\n| `CAMERA_1` | `GearIsReverse` | `ShowCamera` |\n| `CAMERA_2` | else | `HideCamera` |\n"
    );
    assert_eq!(
        render::when_flowchart(&Camera, groups[0]),
        "flowchart LR\n    ev_GearChanged[\"GearChanged\"] --> ft_Camera[\"Camera\"]\n    ft_Camera[\"Camera\"] -->|\"CAMERA_1<br/>GearIsReverse\"| ac_Camera_ShowCamera[\"ShowCamera\"]\n    ft_Camera[\"Camera\"] -->|\"CAMERA_2<br/>else\"| ac_Camera_HideCamera[\"HideCamera\"]\n"
    );
    // Echo's two rules react to the same kind: one group.
    assert_eq!(render::when_groups(&Echo), vec![&[Kind::PowerChanged][..]]);
    // A kind list that no rule reacts to selects nothing.
    assert_eq!(render::when_table(&Camera, &[Kind::PowerChanged]), "| rule | guard | emits |\n|---|---|---|\n");
}

#[test]
fn features_report_lists_its_defects() {
    let r = report::features("Messy", &[&Camera, &Twin, &Echo, &Colliding]);
    assert!(!r.is_clean());
    assert_eq!(
        r.defects,
        vec![
            "Guard names used by two node types: [\"SpeedBelowLimit\"]",
            "Rule ids used twice: [\"CAMERA_1\", \"CAMERA_2\"]",
            "Rules with no event or no action: [\"CAMERA_2\"]",
        ]
    );
}

#[test]
fn empty_rules_lists_rules_that_can_do_nothing() {
    assert!(verify::empty_rules(CAMERA_FEATURES).is_empty());
    assert_eq!(verify::empty_rules(&[&Camera, &Echo]), vec!["CAMERA_2"]);
}
