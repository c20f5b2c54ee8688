//! The state machine layer: a light switch and a door lock, dispatched and
//! drawn.

use declared::guard::{Cond, CondNode, Cx, Expr, OnUnknown};
use declared::machine::{self, Edge, Goto, Ignore, Machine, Source, State};
use declared::{render, report, verify};
use declared::{Domain, Enumerable, HasKind, MachineSpec, Named};

// ─────────────────────────────────────────── light switch

#[derive(Copy, Clone, PartialEq, Eq, Debug)]
enum LightTag {
    Off,
    On,
}

impl Named for LightTag {
    fn name(&self) -> String {
        format!("{self:?}")
    }
}

impl Enumerable for LightTag {
    const ALL: &'static [Self] = &[Self::Off, Self::On];

    fn ordinal(&self) -> usize {
        *self as usize
    }
}

#[derive(Clone, Debug)]
enum LightEvent {
    Toggle,
}

#[derive(Copy, Clone, PartialEq, Eq, Debug)]
enum LightKind {
    Toggle,
}

impl Named for LightKind {
    fn name(&self) -> String {
        format!("{self:?}")
    }
}

impl Enumerable for LightKind {
    const ALL: &'static [Self] = &[Self::Toggle];

    fn ordinal(&self) -> usize {
        *self as usize
    }
}

impl HasKind for LightEvent {
    type Kind = LightKind;

    fn kind(&self) -> LightKind {
        match self {
            LightEvent::Toggle => LightKind::Toggle,
        }
    }
}

/// Reactions to an event. Only these are handed the event.
#[derive(Copy, Clone, PartialEq, Eq, Debug)]
enum LightAction {
    Click,
}

impl Named for LightAction {
    fn name(&self) -> String {
        format!("{self:?}")
    }
}

/// Effects of being in a state, run whichever edge led there.
#[derive(Copy, Clone, PartialEq, Eq, Debug)]
enum LightStateAction {
    TurnOn,
    TurnOff,
}

impl Named for LightStateAction {
    fn name(&self) -> String {
        format!("{self:?}")
    }
}

#[derive(Default)]
struct Room {
    log: Vec<String>,
    /// `None` models a failed reading, which the guard answers `Unknown`.
    power: Option<bool>,
}

#[derive(Copy, Clone, PartialEq, Eq, Debug)]
enum LightGuard {
    PowerOk,
}

struct Light;

impl Domain for Light {
    type Event = LightEvent;
    type EventKind = LightKind;
    type World = Room;
    type Guard = LightGuard;

    fn all_kinds() -> &'static [LightKind] {
        LightKind::ALL
    }
}

impl CondNode<Light> for LightGuard {
    fn name(&self) -> &'static str {
        "PowerOk"
    }

    fn id(&self) -> usize {
        *self as usize
    }

    /// Ids are the enum's discriminants, so equal ids mean the same variant.
    fn lemma_id_identifies(_a: Self, _b: Self) {}

    fn eval(&self, cx: &Cx<'_, Light>) -> Cond {
        match cx.world.power {
            Some(ok) => Cond::from(ok),
            None => Cond::Unknown,
        }
    }
}

fn log_action(action: LightAction, world: &mut Room) {
    world.log.push(format!("{action:?}"));
}

fn log_state_action(action: LightStateAction, world: &mut Room) {
    world.log.push(format!("{action:?}"));
}

const LIGHT_STATES: &[State<Switch>] = &[
    State { tag: LightTag::Off, entry: &[LightStateAction::TurnOff], exit: &[] },
    State { tag: LightTag::On, entry: &[LightStateAction::TurnOn], exit: &[] },
];

/// The two-state switch of the quick start.
struct Switch;

impl MachineSpec for Switch {
    type Domain = Light;
    type Tag = LightTag;
    type Action = LightAction;
    type StateAction = LightStateAction;

    const NAME: &'static str = "Switch";
    const STATES: &'static [State<Switch>] = LIGHT_STATES;
    const EDGES: &'static [Edge<Switch>] = &[
        Edge {
            id: "TURN_ON",
            from: Source::These(&[LightTag::Off]),
            when: LightKind::Toggle,
            check: &Expr::Always,
            unknown: OnUnknown::Deny,
            emit: &[LightAction::Click],
            goto: Goto::To(LightTag::On),
        },
        Edge {
            id: "TURN_OFF",
            from: Source::These(&[LightTag::On]),
            when: LightKind::Toggle,
            check: &Expr::Always,
            unknown: OnUnknown::Deny,
            emit: &[LightAction::Click],
            goto: Goto::To(LightTag::Off),
        },
    ];
    const IGNORES: &'static [Ignore<Switch>] = &[];

    fn all_tags() -> &'static [LightTag] {
        LightTag::ALL
    }

    fn perform(action: LightAction, _ev: &LightEvent, world: &mut Room) {
        log_action(action, world);
    }

    fn perform_state(action: LightStateAction, world: &mut Room) {
        log_state_action(action, world);
    }
}

const GUARDED_STATES: &[State<GuardedSwitch>] = &[
    State { tag: LightTag::Off, entry: &[LightStateAction::TurnOff], exit: &[] },
    State { tag: LightTag::On, entry: &[LightStateAction::TurnOn], exit: &[] },
];

/// A switch that only turns on with power, and turns on anyway when the power
/// reading fails.
struct GuardedSwitch;

impl MachineSpec for GuardedSwitch {
    type Domain = Light;
    type Tag = LightTag;
    type Action = LightAction;
    type StateAction = LightStateAction;

    const NAME: &'static str = "GuardedSwitch";
    const STATES: &'static [State<GuardedSwitch>] = GUARDED_STATES;
    const EDGES: &'static [Edge<GuardedSwitch>] = &[
        Edge {
            id: "TURN_ON",
            from: Source::These(&[LightTag::Off]),
            when: LightKind::Toggle,
            check: &Expr::Node(LightGuard::PowerOk),
            unknown: OnUnknown::Allow,
            emit: &[LightAction::Click],
            goto: Goto::To(LightTag::On),
        },
        Edge {
            id: "TURN_OFF",
            from: Source::Any,
            when: LightKind::Toggle,
            check: &Expr::Not(&Expr::Node(LightGuard::PowerOk)),
            unknown: OnUnknown::Deny,
            emit: &[],
            goto: Goto::To(LightTag::Off),
        },
    ];
    const IGNORES: &'static [Ignore<GuardedSwitch>] = &[];

    fn all_tags() -> &'static [LightTag] {
        LightTag::ALL
    }

    fn perform(action: LightAction, _ev: &LightEvent, world: &mut Room) {
        log_action(action, world);
    }

    fn perform_state(action: LightStateAction, world: &mut Room) {
        log_state_action(action, world);
    }
}

// ─────────────────────────────────────────── door lock

#[derive(Copy, Clone, PartialEq, Eq, Debug)]
enum DoorTag {
    Locked,
    Unlocked,
    Alarm,
    Maintenance,
}

impl Named for DoorTag {
    fn name(&self) -> String {
        format!("{self:?}")
    }
}

impl Enumerable for DoorTag {
    const ALL: &'static [Self] = &[Self::Locked, Self::Unlocked, Self::Alarm, Self::Maintenance];

    fn ordinal(&self) -> usize {
        *self as usize
    }
}

#[derive(Clone, Debug)]
enum DoorEvent {
    EnterCode(u32),
    Timeout,
    Reset,
    MaintenanceToggle,
}

#[derive(Copy, Clone, PartialEq, Eq, Debug)]
enum DoorKind {
    EnterCode,
    Timeout,
    Reset,
    MaintenanceToggle,
}

impl Named for DoorKind {
    fn name(&self) -> String {
        format!("{self:?}")
    }
}

impl Enumerable for DoorKind {
    const ALL: &'static [Self] =
        &[Self::EnterCode, Self::Timeout, Self::Reset, Self::MaintenanceToggle];

    fn ordinal(&self) -> usize {
        *self as usize
    }
}

impl HasKind for DoorEvent {
    type Kind = DoorKind;

    fn kind(&self) -> DoorKind {
        match self {
            DoorEvent::EnterCode(_) => DoorKind::EnterCode,
            DoorEvent::Timeout => DoorKind::Timeout,
            DoorEvent::Reset => DoorKind::Reset,
            DoorEvent::MaintenanceToggle => DoorKind::MaintenanceToggle,
        }
    }
}

#[derive(Copy, Clone, PartialEq, Eq, Debug)]
enum DoorAction {
    Unlock,
    CountAttempt,
}

impl Named for DoorAction {
    fn name(&self) -> String {
        format!("{self:?}")
    }
}

#[derive(Copy, Clone, PartialEq, Eq, Debug)]
enum DoorStateAction {
    Lock,
    ResetAttempts,
    ClearUnlockCode,
    SoundAlarm,
    MaintenanceOn,
    MaintenanceOff,
}

impl Named for DoorStateAction {
    fn name(&self) -> String {
        format!("{self:?}")
    }
}

#[derive(Copy, Clone, PartialEq, Eq, Debug)]
enum DoorGuard {
    CodeCorrect,
    AttemptsExceeded,
}

struct Door {
    code: u32,
    attempts: u32,
    log: Vec<String>,
}

impl Door {
    fn new() -> Self {
        Door { code: 1234, attempts: 0, log: Vec::new() }
    }
}

struct Keypad;

impl Domain for Keypad {
    type Event = DoorEvent;
    type EventKind = DoorKind;
    type World = Door;
    type Guard = DoorGuard;

    fn all_kinds() -> &'static [DoorKind] {
        DoorKind::ALL
    }
}

impl CondNode<Keypad> for DoorGuard {
    fn name(&self) -> &'static str {
        match self {
            DoorGuard::CodeCorrect => "CodeCorrect",
            DoorGuard::AttemptsExceeded => "AttemptsExceeded",
        }
    }

    fn id(&self) -> usize {
        *self as usize
    }

    /// Ids are the enum's discriminants, so equal ids mean the same variant.
    fn lemma_id_identifies(_a: Self, _b: Self) {}

    fn eval(&self, cx: &Cx<'_, Keypad>) -> Cond {
        match self {
            DoorGuard::CodeCorrect => match cx.event {
                DoorEvent::EnterCode(c) => Cond::from(*c == cx.world.code),
                _ => Cond::False,
            },
            DoorGuard::AttemptsExceeded => Cond::from(cx.world.attempts >= 2),
        }
    }
}

const CODE_CORRECT: Expr<Keypad> = Expr::Node(DoorGuard::CodeCorrect);
const ATTEMPTS_EXCEEDED: Expr<Keypad> = Expr::Node(DoorGuard::AttemptsExceeded);

const DOOR_STATES: &[State<DoorLock>] = &[
    State {
        tag: DoorTag::Locked,
        entry: &[DoorStateAction::Lock, DoorStateAction::ResetAttempts],
        exit: &[],
    },
    State { tag: DoorTag::Unlocked, entry: &[], exit: &[DoorStateAction::ClearUnlockCode] },
    State { tag: DoorTag::Alarm, entry: &[DoorStateAction::SoundAlarm], exit: &[] },
    State {
        tag: DoorTag::Maintenance,
        entry: &[DoorStateAction::MaintenanceOn],
        exit: &[DoorStateAction::MaintenanceOff],
    },
];

const DOOR_EDGES: &[Edge<DoorLock>] = &[
    Edge {
        id: "UNLOCK",
        from: Source::These(&[DoorTag::Locked]),
        when: DoorKind::EnterCode,
        check: &CODE_CORRECT,
        unknown: OnUnknown::Deny,
        emit: &[DoorAction::Unlock],
        goto: Goto::To(DoorTag::Unlocked),
    },
    Edge {
        id: "ALARM",
        from: Source::These(&[DoorTag::Locked]),
        when: DoorKind::EnterCode,
        check: &Expr::And(&Expr::Not(&CODE_CORRECT), &ATTEMPTS_EXCEEDED),
        unknown: OnUnknown::Deny,
        emit: &[],
        goto: Goto::To(DoorTag::Alarm),
    },
    Edge {
        id: "WRONG_CODE",
        from: Source::These(&[DoorTag::Locked]),
        when: DoorKind::EnterCode,
        check: &Expr::Always,
        unknown: OnUnknown::Deny,
        emit: &[DoorAction::CountAttempt],
        goto: Goto::Internal,
    },
    Edge {
        id: "RELOCK",
        from: Source::These(&[DoorTag::Unlocked]),
        when: DoorKind::Timeout,
        check: &Expr::Always,
        unknown: OnUnknown::Deny,
        emit: &[],
        goto: Goto::To(DoorTag::Locked),
    },
    Edge {
        id: "RESET",
        from: Source::These(&[DoorTag::Alarm]),
        when: DoorKind::Reset,
        check: &Expr::Always,
        unknown: OnUnknown::Deny,
        emit: &[],
        goto: Goto::To(DoorTag::Locked),
    },
    Edge {
        id: "MAINTENANCE_ON",
        from: Source::These(&[DoorTag::Locked]),
        when: DoorKind::MaintenanceToggle,
        check: &Expr::Always,
        unknown: OnUnknown::Deny,
        emit: &[],
        goto: Goto::To(DoorTag::Maintenance),
    },
    Edge {
        id: "MAINTENANCE_OFF",
        from: Source::These(&[DoorTag::Maintenance]),
        when: DoorKind::MaintenanceToggle,
        check: &Expr::Always,
        unknown: OnUnknown::Deny,
        emit: &[],
        goto: Goto::To(DoorTag::Locked),
    },
];

const DOOR_IGNORES: &[Ignore<DoorLock>] = &[
    Ignore {
        from: Source::These(&[DoorTag::Unlocked, DoorTag::Alarm, DoorTag::Maintenance]),
        when: &[DoorKind::EnterCode],
        why: "the keypad is off",
    },
    Ignore {
        from: Source::These(&[DoorTag::Locked, DoorTag::Alarm, DoorTag::Maintenance]),
        when: &[DoorKind::Timeout],
        why: "nothing to time out",
    },
    Ignore {
        from: Source::These(&[DoorTag::Locked, DoorTag::Unlocked, DoorTag::Maintenance]),
        when: &[DoorKind::Reset],
        why: "no alarm to reset",
    },
    Ignore {
        from: Source::These(&[DoorTag::Unlocked, DoorTag::Alarm]),
        when: &[DoorKind::MaintenanceToggle],
        why: "maintenance starts from locked",
    },
];

struct DoorLock;

impl MachineSpec for DoorLock {
    type Domain = Keypad;
    type Tag = DoorTag;
    type Action = DoorAction;
    type StateAction = DoorStateAction;

    const NAME: &'static str = "Door lock";
    const STATES: &'static [State<DoorLock>] = DOOR_STATES;
    const EDGES: &'static [Edge<DoorLock>] = DOOR_EDGES;
    const IGNORES: &'static [Ignore<DoorLock>] = DOOR_IGNORES;

    fn all_tags() -> &'static [DoorTag] {
        DoorTag::ALL
    }

    fn perform(action: DoorAction, _ev: &DoorEvent, world: &mut Door) {
        if action == DoorAction::CountAttempt {
            world.attempts += 1;
        }
        world.log.push(format!("{action:?}"));
    }

    fn perform_state(action: DoorStateAction, world: &mut Door) {
        if action == DoorStateAction::ResetAttempts {
            world.attempts = 0;
        }
        world.log.push(format!("{action:?}"));
    }
}

// ─────────────────────────────────────────── tests

#[test]
fn quick_start_switch_toggles_with_click_then_entry() {
    let mut world = Room::default();
    let mut m = Machine::<Switch>::new(LightTag::Off);
    assert_eq!(m.tag(), LightTag::Off);
    // A machine resumes rather than starts: no entry action ran.
    assert!(world.log.is_empty());

    let taken = machine::dispatch(&mut m, &LightEvent::Toggle, &mut world).unwrap();
    assert_eq!(taken.edge, "TURN_ON");
    assert!(taken.exit.is_empty());
    assert_eq!(taken.emit, &[LightAction::Click]);
    assert_eq!(taken.entry, &[LightStateAction::TurnOn]);
    assert_eq!(m.tag(), LightTag::On);
    assert_eq!(world.log, vec!["Click", "TurnOn"]);

    let taken = machine::dispatch(&mut m, &LightEvent::Toggle, &mut world).unwrap();
    let kept = taken;
    assert!(kept == taken);
    let first = machine::dispatch(&mut Machine::<Switch>::new(LightTag::Off), &LightEvent::Toggle, &mut Room::default())
        .unwrap();
    assert!(first != taken);
    assert_eq!(taken.edge, "TURN_OFF");
    assert_eq!(taken.entry, &[LightStateAction::TurnOff]);
    assert_eq!(m.tag(), LightTag::Off);
    assert_eq!(world.log, vec!["Click", "TurnOn", "Click", "TurnOff"]);
}

#[test]
fn declined_guard_changes_nothing() {
    let mut world = Room { log: Vec::new(), power: Some(false) };
    let mut m = Machine::<GuardedSwitch>::new(LightTag::Off);
    // Without power TURN_ON declines, and TURN_OFF, which applies in every
    // state, is taken in its place.
    let taken = machine::dispatch(&mut m, &LightEvent::Toggle, &mut world).unwrap();
    assert_eq!(taken.edge, "TURN_OFF");
    assert_eq!(taken.entry, &[LightStateAction::TurnOff]);
    assert_eq!(m.tag(), LightTag::Off);

    let mut world = Room { log: Vec::new(), power: Some(true) };
    let mut m = Machine::<GuardedSwitch>::new(LightTag::On);
    let taken = machine::dispatch(&mut m, &LightEvent::Toggle, &mut world);
    assert!(taken.is_none());
    assert_eq!(m.tag(), LightTag::On);
    assert!(world.log.is_empty());
}

#[test]
fn unknown_allow_edge_is_taken_when_the_guard_cannot_tell() {
    let mut world = Room { log: Vec::new(), power: None };
    let mut m = Machine::<GuardedSwitch>::new(LightTag::Off);
    let taken = machine::dispatch(&mut m, &LightEvent::Toggle, &mut world).unwrap();
    assert_eq!(taken.edge, "TURN_ON");
    assert_eq!(m.tag(), LightTag::On);
    assert_eq!(world.log, vec!["Click", "TurnOn"]);
}

#[test]
fn guarded_switch_diagram_marks_fail_open_edges() {
    let chart =
        render::state_diagram::<GuardedSwitch>(LightTag::Off, GuardedSwitch::EDGES, GuardedSwitch::STATES);
    assert_eq!(
        chart,
        "stateDiagram-v2\n    [*] --> Off\n    Off : Off<br/>entry / TurnOff\n    On : On<br/>entry / TurnOn\n    Off --> On: Toggle<br/>[PowerOk]<br/>unknown=Allow<br/>/ Click\n    Off --> Off: Toggle<br/>[!PowerOk]\n    On --> Off: Toggle<br/>[!PowerOk]\n"
    );
}

#[test]
fn door_lock_diagram_matches_its_document() {
    let chart = render::state_diagram::<DoorLock>(DoorTag::Locked, DoorLock::EDGES, DoorLock::STATES);
    let expected = "stateDiagram-v2\n    [*] --> Locked\n    Locked : Locked<br/>entry / Lock, ResetAttempts\n    Unlocked : Unlocked<br/>exit / ClearUnlockCode\n    Alarm : Alarm<br/>entry / SoundAlarm\n    Maintenance : Maintenance<br/>entry / MaintenanceOn<br/>exit / MaintenanceOff\n    Locked --> Unlocked: EnterCode<br/>[CodeCorrect]<br/>/ Unlock\n    Locked --> Alarm: EnterCode<br/>[!CodeCorrect && AttemptsExceeded]\n    Unlocked --> Locked: Timeout\n    Alarm --> Locked: Reset\n    Locked --> Maintenance: MaintenanceToggle\n    Maintenance --> Locked: MaintenanceToggle\n";
    assert_eq!(chart, expected);
}

#[test]
fn door_lock_correct_code_unlocks() {
    let mut door = Door::new();
    let mut m = Machine::<DoorLock>::new(DoorTag::Locked);
    let taken = machine::dispatch(&mut m, &DoorEvent::EnterCode(1234), &mut door).unwrap();
    assert_eq!(taken.edge, "UNLOCK");
    assert!(taken.exit.is_empty());
    assert_eq!(taken.emit, &[DoorAction::Unlock]);
    assert!(taken.entry.is_empty());
    assert_eq!(m.tag(), DoorTag::Unlocked);
    assert_eq!(door.log, vec!["Unlock"]);
}

#[test]
fn door_lock_wrong_code_is_counted_in_place() {
    let mut door = Door::new();
    let mut m = Machine::<DoorLock>::new(DoorTag::Locked);
    let taken = machine::dispatch(&mut m, &DoorEvent::EnterCode(1), &mut door).unwrap();
    assert_eq!(taken.edge, "WRONG_CODE");
    // An in-place transition runs neither exit nor entry.
    assert!(taken.exit.is_empty());
    assert!(taken.entry.is_empty());
    assert_eq!(taken.emit, &[DoorAction::CountAttempt]);
    assert_eq!(m.tag(), DoorTag::Locked);
    assert_eq!(door.attempts, 1);
    assert_eq!(door.log, vec!["CountAttempt"]);
}

#[test]
fn door_lock_earlier_edge_wins_once_attempts_run_out() {
    let mut door = Door::new();
    let mut m = Machine::<DoorLock>::new(DoorTag::Locked);
    machine::dispatch(&mut m, &DoorEvent::EnterCode(1), &mut door);
    machine::dispatch(&mut m, &DoorEvent::EnterCode(2), &mut door);
    assert_eq!(door.attempts, 2);
    // ALARM is declared before the unguarded WRONG_CODE, so it is chosen.
    let taken = machine::dispatch(&mut m, &DoorEvent::EnterCode(3), &mut door).unwrap();
    assert_eq!(taken.edge, "ALARM");
    assert_eq!(taken.entry, &[DoorStateAction::SoundAlarm]);
    assert_eq!(m.tag(), DoorTag::Alarm);

    let taken = machine::dispatch(&mut m, &DoorEvent::Reset, &mut door).unwrap();
    assert_eq!(taken.edge, "RESET");
    assert_eq!(m.tag(), DoorTag::Locked);
    assert_eq!(door.attempts, 0);
}

#[test]
fn door_lock_runs_exit_then_emit_then_entry() {
    let mut door = Door::new();
    let mut m = Machine::<DoorLock>::new(DoorTag::Locked);
    machine::dispatch(&mut m, &DoorEvent::MaintenanceToggle, &mut door);
    assert_eq!(m.tag(), DoorTag::Maintenance);
    let taken = machine::dispatch(&mut m, &DoorEvent::MaintenanceToggle, &mut door).unwrap();
    assert_eq!(taken.edge, "MAINTENANCE_OFF");
    assert_eq!(taken.exit, &[DoorStateAction::MaintenanceOff]);
    assert_eq!(taken.entry, &[DoorStateAction::Lock, DoorStateAction::ResetAttempts]);
    assert_eq!(
        door.log,
        vec!["MaintenanceOn", "MaintenanceOff", "Lock", "ResetAttempts"]
    );

    let mut door = Door::new();
    let mut m = Machine::<DoorLock>::new(DoorTag::Unlocked);
    let taken = machine::dispatch(&mut m, &DoorEvent::Timeout, &mut door).unwrap();
    assert_eq!(taken.edge, "RELOCK");
    assert_eq!(door.log, vec!["ClearUnlockCode", "Lock", "ResetAttempts"]);
}

#[test]
fn door_lock_uncovered_event_changes_nothing() {
    let mut door = Door::new();
    door.attempts = 1;
    let mut m = Machine::<DoorLock>::new(DoorTag::Alarm);
    // Ignored on purpose.
    assert!(machine::dispatch(&mut m, &DoorEvent::EnterCode(1234), &mut door).is_none());
    // Reset is handled in Alarm, and ignored in Unlocked.
    let mut other = Machine::<DoorLock>::new(DoorTag::Unlocked);
    assert!(machine::dispatch(&mut other, &DoorEvent::Reset, &mut door).is_none());
    assert_eq!(m.tag(), DoorTag::Alarm);
    assert_eq!(other.tag(), DoorTag::Unlocked);
    assert_eq!(door.attempts, 1);
    assert!(door.log.is_empty());
}

#[test]
fn door_lock_internal_table_lists_in_place_edges() {
    let table = render::internal_table::<DoorLock>(DoorLock::EDGES);
    assert_eq!(
        table,
        "| state | event | guard | actions | edge id |\n|---|---|---|---|---|\n| `Locked` | `EnterCode` | `—` | CountAttempt | `WRONG_CODE` |\n"
    );
}

#[test]
fn internal_table_prints_guards_and_every_source() {
    const EDGES: &[Edge<GuardedSwitch>] = &[Edge {
        id: "BLINK",
        from: Source::Any,
        when: LightKind::Toggle,
        check: &Expr::Node(LightGuard::PowerOk),
        unknown: OnUnknown::Deny,
        emit: &[LightAction::Click, LightAction::Click],
        goto: Goto::Internal,
    }];
    let table = render::internal_table::<GuardedSwitch>(EDGES);
    assert_eq!(
        table,
        "| state | event | guard | actions | edge id |\n|---|---|---|---|---|\n| `Off` | `Toggle` | `PowerOk` | Click, Click | `BLINK` |\n| `On` | `Toggle` | `PowerOk` | Click, Click | `BLINK` |\n"
    );
}

#[test]
fn door_lock_ignore_table_lists_each_state_and_kind() {
    let table = render::ignore_table::<DoorLock>(DoorLock::IGNORES);
    assert_eq!(
        table,
        "| state | event | reason |\n|---|---|---|\n\
| `Unlocked` | `EnterCode` | the keypad is off |\n\
| `Alarm` | `EnterCode` | the keypad is off |\n\
| `Maintenance` | `EnterCode` | the keypad is off |\n\
| `Locked` | `Timeout` | nothing to time out |\n\
| `Alarm` | `Timeout` | nothing to time out |\n\
| `Maintenance` | `Timeout` | nothing to time out |\n\
| `Locked` | `Reset` | no alarm to reset |\n\
| `Unlocked` | `Reset` | no alarm to reset |\n\
| `Maintenance` | `Reset` | no alarm to reset |\n\
| `Unlocked` | `MaintenanceToggle` | maintenance starts from locked |\n\
| `Alarm` | `MaintenanceToggle` | maintenance starts from locked |\n"
    );
}

#[test]
fn ignore_table_expands_any_to_every_state() {
    const IGNORES: &[Ignore<Switch>] =
        &[Ignore { from: Source::Any, when: &[LightKind::Toggle], why: "unused" }];
    let table = render::ignore_table::<Switch>(IGNORES);
    assert_eq!(
        table,
        "| state | event | reason |\n|---|---|---|\n| `Off` | `Toggle` | unused |\n| `On` | `Toggle` | unused |\n"
    );
    assert_eq!(render::ignore_table::<Switch>(Switch::IGNORES), "| state | event | reason |\n|---|---|---|\n");
}

#[test]
fn sources_and_ignores_match_by_state_and_kind() {
    let any: Source<DoorLock> = Source::Any;
    assert!(any.matches(DoorTag::Alarm));
    assert_eq!(any.expand(), DoorTag::ALL);
    let these: Source<DoorLock> = Source::These(&[DoorTag::Locked, DoorTag::Alarm]);
    assert!(these.matches(DoorTag::Alarm));
    assert!(!these.matches(DoorTag::Unlocked));
    assert_eq!(these.expand(), &[DoorTag::Locked, DoorTag::Alarm]);

    let ignore = &DoorLock::IGNORES[3];
    assert!(ignore.matches(DoorTag::Alarm, DoorKind::MaintenanceToggle));
    assert!(!ignore.matches(DoorTag::Alarm, DoorKind::Reset));
    assert!(!ignore.matches(DoorTag::Locked, DoorKind::MaintenanceToggle));
}

#[test]
fn state_without_actions_draws_no_description() {
    const STATES: &[State<Switch>] = &[State { tag: LightTag::On, entry: &[], exit: &[] }];
    const EDGES: &[Edge<Switch>] = &[];
    let chart = render::state_diagram::<Switch>(LightTag::On, EDGES, STATES);
    assert_eq!(chart, "stateDiagram-v2\n    [*] --> On\n");
}

// ─────────────────────────────────────────── coverage and reports

const RESET_ONLY: &[Edge<DoorLock>] = &[Edge {
    id: "RESET",
    from: Source::These(&[DoorTag::Alarm]),
    when: DoorKind::Reset,
    check: &Expr::Always,
    unknown: OnUnknown::Deny,
    emit: &[],
    goto: Goto::To(DoorTag::Locked),
}];

const LOCKED_CODE_IGNORED: &[Ignore<DoorLock>] = &[Ignore {
    from: Source::These(&[DoorTag::Alarm, DoorTag::Locked]),
    when: &[DoorKind::Reset, DoorKind::EnterCode],
    why: "test",
}];

const TWICE: &[Edge<DoorLock>] = &[
    Edge {
        id: "SAME",
        from: Source::Any,
        when: DoorKind::Reset,
        check: &CODE_CORRECT,
        unknown: OnUnknown::Deny,
        emit: &[],
        goto: Goto::Internal,
    },
    Edge {
        id: "SAME",
        from: Source::Any,
        when: DoorKind::Reset,
        check: &CODE_CORRECT,
        unknown: OnUnknown::Deny,
        emit: &[],
        goto: Goto::Internal,
    },
];

#[test]
fn door_lock_coverage_is_clean() {
    let c = verify::coverage::<DoorLock>(DoorTag::Locked, DoorLock::EDGES, DoorLock::IGNORES);
    assert!(c.holes.is_empty());
    assert!(c.ignored_but_handled.is_empty());
    assert!(c.unreachable.is_empty());
    assert!(c.duplicate_node_names.is_empty());
    assert!(c.duplicate_edge_ids.is_empty());
    // The three edges on a code entered while locked overlap; that is listed,
    // not a defect.
    assert_eq!(
        c.overlaps,
        vec![("UNLOCK", "ALARM"), ("UNLOCK", "WRONG_CODE"), ("ALARM", "WRONG_CODE")]
    );
    assert!(c.is_clean());
}

#[test]
fn coverage_lists_edges_that_overlap_in_some_state() {
    // TURN_OFF applies in every state, so it overlaps TURN_ON in Off.
    let c = verify::coverage::<GuardedSwitch>(LightTag::Off, GuardedSwitch::EDGES, GuardedSwitch::IGNORES);
    assert_eq!(c.overlaps, vec![("TURN_ON", "TURN_OFF")]);
    // Same event, different states: no overlap.
    let c = verify::coverage::<Switch>(LightTag::Off, Switch::EDGES, Switch::IGNORES);
    assert!(c.overlaps.is_empty());
    assert!(c.is_clean());
}

#[test]
fn coverage_lists_holes_state_by_state() {
    let c = verify::coverage::<DoorLock>(DoorTag::Alarm, RESET_ONLY, LOCKED_CODE_IGNORED);
    assert_eq!(
        c.holes,
        vec![
            (DoorTag::Locked, DoorKind::Timeout),
            (DoorTag::Locked, DoorKind::MaintenanceToggle),
            (DoorTag::Unlocked, DoorKind::EnterCode),
            (DoorTag::Unlocked, DoorKind::Timeout),
            (DoorTag::Unlocked, DoorKind::Reset),
            (DoorTag::Unlocked, DoorKind::MaintenanceToggle),
            (DoorTag::Alarm, DoorKind::Timeout),
            (DoorTag::Alarm, DoorKind::MaintenanceToggle),
            (DoorTag::Maintenance, DoorKind::EnterCode),
            (DoorTag::Maintenance, DoorKind::Timeout),
            (DoorTag::Maintenance, DoorKind::Reset),
            (DoorTag::Maintenance, DoorKind::MaintenanceToggle),
        ]
    );
    // Reset in Alarm has an edge and an ignore.
    assert_eq!(c.ignored_but_handled, vec![(DoorTag::Alarm, DoorKind::Reset)]);
    // From Alarm only Locked is reached.
    assert_eq!(c.unreachable, vec![DoorTag::Unlocked, DoorTag::Maintenance]);
    assert!(!c.is_clean());
}

#[test]
fn coverage_follows_edges_from_the_initial_state() {
    let c = verify::coverage::<DoorLock>(DoorTag::Unlocked, DoorLock::EDGES, DoorLock::IGNORES);
    assert!(c.unreachable.is_empty());
    let c = verify::coverage::<DoorLock>(DoorTag::Locked, RESET_ONLY, DoorLock::IGNORES);
    assert_eq!(c.unreachable, vec![DoorTag::Unlocked, DoorTag::Alarm, DoorTag::Maintenance]);
}

#[test]
fn coverage_reports_repeated_edge_ids() {
    let c = verify::coverage::<DoorLock>(DoorTag::Locked, TWICE, &[]);
    assert_eq!(c.duplicate_edge_ids, vec!["SAME"]);
    assert!(c.duplicate_node_names.is_empty());
}

#[test]
fn door_lock_report_is_clean_and_holds_every_document() {
    let r = report::machine::<DoorLock>(DoorTag::Locked);
    assert!(r.is_clean());
    assert!(r.defects.is_empty());
    let expected = format!(
        "# Door lock\n\n## Transitions\n\n```mermaid\n{}```\n\n## In-place transitions\n\n{}\n## Deliberately unhandled\n\n{}\n## Checks\n\n| Check | Result |\n|---|---|\n| Uncovered combinations | [] |\n| Ignored but handled | [] |\n| Unreachable states | [] |\n| Guard names used by two node types | [] |\n| Edge ids used twice | [] |\n| Overlapping edges | [(\"UNLOCK\", \"ALARM\"), (\"UNLOCK\", \"WRONG_CODE\"), (\"ALARM\", \"WRONG_CODE\")] |\n",
        render::state_diagram::<DoorLock>(DoorTag::Locked, DoorLock::EDGES, DoorLock::STATES),
        render::internal_table::<DoorLock>(DoorLock::EDGES),
        render::ignore_table::<DoorLock>(DoorLock::IGNORES),
    );
    assert_eq!(r.markdown, expected);
}

/// A switch that only turns on: nothing covers toggling while on.
struct HalfSwitch;

impl MachineSpec for HalfSwitch {
    type Domain = Light;
    type Tag = LightTag;
    type Action = LightAction;
    type StateAction = LightStateAction;

    const NAME: &'static str = "HalfSwitch";
    const STATES: &'static [State<HalfSwitch>] = &[
        State { tag: LightTag::Off, entry: &[], exit: &[] },
        State { tag: LightTag::On, entry: &[], exit: &[] },
    ];
    const EDGES: &'static [Edge<HalfSwitch>] = &[Edge {
        id: "TURN_ON",
        from: Source::These(&[LightTag::Off]),
        when: LightKind::Toggle,
        check: &Expr::Always,
        unknown: OnUnknown::Deny,
        emit: &[LightAction::Click],
        goto: Goto::To(LightTag::On),
    }];
    const IGNORES: &'static [Ignore<HalfSwitch>] = &[];

    fn all_tags() -> &'static [LightTag] {
        LightTag::ALL
    }

    fn perform(action: LightAction, _ev: &LightEvent, world: &mut Room) {
        log_action(action, world);
    }

    fn perform_state(action: LightStateAction, world: &mut Room) {
        log_state_action(action, world);
    }
}

#[test]
fn machine_report_names_each_defect() {
    let r = report::machine::<HalfSwitch>(LightTag::Off);
    assert!(!r.is_clean());
    assert_eq!(r.defects, vec!["Uncovered combinations: [(On, Toggle)]"]);
    assert!(r.markdown.ends_with(
        "| Uncovered combinations | [(On, Toggle)] |\n| Ignored but handled | [] |\n| Unreachable states | [] |\n| Guard names used by two node types | [] |\n| Edge ids used twice | [] |\n| Overlapping edges | [] |\n"
    ));
    // Started in On, Off is never reached.
    let r = report::machine::<HalfSwitch>(LightTag::On);
    assert_eq!(
        r.defects,
        vec!["Uncovered combinations: [(On, Toggle)]", "Unreachable states: [Off]"]
    );
}
