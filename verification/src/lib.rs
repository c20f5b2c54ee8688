//! A declarative controller framework.
//!
//! A controller declares what it reacts to and what it does about it as static
//! data: a list of features, each a table of rules. Dispatch, the documents
//! drawn from a controller and the reports over it all read that one
//! declaration, so it is the only place the logic lives.
//!
//! | Module | For |
//! |---|---|
//! | [`guard`] | The conditions a controller decides by, shared per [`Domain`] |
//! | [`feature`] | One feature of a controller: a rule table over its effects |
//! | [`machine`] | A transition table, for when the same event means different things in different states |
//! | [`render`] | Tables and diagrams derived from that declaration |
//! | [`verify`] | Checks over that declaration |
//! | [`report`] | One document per controller: the tables, diagrams and checks |
//!
//! Both layers share a [`Domain`]: the events, the world and the guard nodes a
//! controller works with. A stateless feature that later needs history does
//! not change; a [`MachineSpec`] is added next to it.

mod enums;
mod text;

pub mod feature;
pub mod guard;
pub mod machine;
pub mod prelude;
pub mod render;
pub mod report;
pub mod verify;

pub use enums::{lists, Enumerable, HasKind, Named};
pub use text::{lex_lt, strictly_sorted, strings_view, strs_view};

use vstd::prelude::*;

verus! {

/// What one controller's parts have in common: its events, its world and the
/// guard nodes it decides by. Every other item in this crate is generic over
/// `D: Domain`.
///
/// Actions are deliberately absent: an effect belongs to whoever emits it, so
/// the action vocabulary is named by [`feature::Feature::Action`], one per
/// feature.
pub trait Domain: Sized + 'static {
    /// Event body, including payload.
    type Event: HasKind<Kind = Self::EventKind>;

    /// Payload-free event tag that rules match on.
    type EventKind: Enumerable;

    /// The outside world this controller reads and changes, and where a
    /// controller that keeps state keeps it.
    type World;

    /// The guard nodes of this controller. Implements
    /// [`guard::CondNode`]`<Self>`; one value per node.
    type Guard: Copy + 'static;

    /// The event kinds the reports walk, as a sequence.
    closed spec fn spec_all_kinds() -> Seq<Self::EventKind> {
        // Unspecified unless the implementation states it.
        arbitrary()
    }

    /// The event kinds the reports walk: normally `EventKind::ALL`, or a subset
    /// of it to scope the reports. Dispatch still matches every kind.
    fn all_kinds() -> (kinds: &'static [Self::EventKind])
        ensures
            kinds@ == Self::spec_all_kinds(),
    ;
}

/// A state machine: its domain, its state tags, its own effects, and the
/// tables that drive it.
pub trait MachineSpec: Sized + Sync + 'static {
    /// The vocabulary this machine works in.
    type Domain: Domain;

    /// The state tags.
    type Tag: Enumerable;

    /// Reactions to an event, run by an edge. Only these are handed the event.
    type Action: Named + Copy + 'static;

    /// Effects of entering or leaving a state, run whichever edge led there.
    type StateAction: Named + Copy + 'static;

    /// Display name, used in documents.
    const NAME: &'static str;

    /// One entry per state: its entry and exit actions.
    const STATES: &'static [machine::State<Self>];

    /// The transitions, in priority order.
    const EDGES: &'static [machine::Edge<Self>];

    /// The (state, event) combinations deliberately left unhandled.
    const IGNORES: &'static [machine::Ignore<Self>];

    /// The state tags the reports walk, as a sequence.
    closed spec fn spec_all_tags() -> Seq<Self::Tag> {
        // Unspecified unless the implementation states it.
        arbitrary()
    }

    /// The state tags the reports walk: normally `Tag::ALL`.
    fn all_tags() -> (tags: &'static [Self::Tag])
        ensures
            tags@ == Self::spec_all_tags(),
    ;

    /// How running `action` for `ev` turns the world `before` into `after`.
    closed spec fn spec_performed(
        action: Self::Action,
        ev: EventOf<Self::Domain>,
        before: WorldOf<Self::Domain>,
        after: WorldOf<Self::Domain>,
    ) -> bool {
        // Unspecified unless the implementation states it.
        arbitrary()
    }

    /// Carries out one of an edge's actions.
    fn perform(
        action: Self::Action,
        ev: &EventOf<Self::Domain>,
        world: &mut WorldOf<Self::Domain>,
    )
        ensures
            Self::spec_performed(action, *ev, *old(world), *final(world)),
    ;

    /// How running the state action `action` turns the world `before` into
    /// `after`.
    closed spec fn spec_performed_state(
        action: Self::StateAction,
        before: WorldOf<Self::Domain>,
        after: WorldOf<Self::Domain>,
    ) -> bool {
        // Unspecified unless the implementation states it.
        arbitrary()
    }

    /// Carries out one of a state's entry or exit actions. It is handed no
    /// event: an effect that needs one goes on an edge.
    fn perform_state(action: Self::StateAction, world: &mut WorldOf<Self::Domain>)
        ensures
            Self::spec_performed_state(action, *old(world), *final(world)),
    ;
}

/// The edge action type of machine `M`.
pub type ActionOf<M> = <M as MachineSpec>::Action;

/// The state action type of machine `M`.
pub type StateActionOf<M> = <M as MachineSpec>::StateAction;

/// The event type of domain `D`.
pub type EventOf<D> = <D as Domain>::Event;

/// The event kind type of domain `D`.
pub type KindOf<D> = <D as Domain>::EventKind;

/// The world type of domain `D`.
pub type WorldOf<D> = <D as Domain>::World;

} // verus!
