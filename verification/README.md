# declared

A declarative controller framework, verified with Verus. A controller declares
what it reacts to and what it does about it as static data — a list of
features, each a table of rules, and, where the same event means different
things in different states, a transition table — and that one declaration
drives dispatch, the generated tables and diagrams, and the reports over the
controller.

## Layout

```
src/
  lib.rs          Domain: a controller's events, world and guard nodes;
                  MachineSpec: a state machine's tags, effects and tables
  enums.rs        Named, Enumerable, HasKind
  guard.rs        OnUnknown and its laws
  guard/cond.rs   Cond: Kleene three-valued logic, with its laws
  guard/node.rs   CondNode, Cx, Memo, Expr: evaluation, rendering, node lists
  feature.rs      Rule, Feature, AnyFeature: handles, emits, rows, dispatch
  machine.rs      State, Source, Goto, Edge, Ignore, Machine, Taken, dispatch
  render.rs       io_table, rule_table, event_table, event_flowchart,
                  when_groups, when_table, when_flowchart,
                  state_diagram, internal_table, ignore_table
  verify.rs       duplicate_node_names, duplicate_rule_ids, empty_rules,
                  unhandled_kinds, unemitted_actions; coverage, the gap
                  check of a transition table
  report.rs       Report: one document per feature list or machine
  text.rs         string comparison and the sorted-name helpers
  prelude.rs      the names a declaration file uses
tests/            a reverse-camera controller, a light switch and a door
                  lock, driven end to end
```

## What is proved

- `Cond`'s operations are Kleene logic (`False` decides an AND, `True` an
  OR, `Unknown` survives NOT), with commutativity, associativity, De Morgan and
  the embedding of `bool` proved as lemmas.
- `Expr::eval` returns the Kleene value of the tree under the answers its
  `Memo` ends with, asks only the nodes short-circuiting reaches, never
  changes an answer already recorded — a node name is answered once per
  dispatch — and records for each new name what a node of that name answers
  for the event and the world (`CondNode::spec_eval`). Where every node asked
  is answered by its own name, the value is the tree's value over the nodes'
  own answers.
- `Expr::eval` is stated step by step by `Expr::replay`: the value it
  returns and the answers it records, node by node.
- `AnyFeature::dispatch` does exactly what `scan_rules` replays: it walks the
  rules in declaration order, leaves the guards of rules not considered for
  the event's kind alone, evaluates each considered guard against one memo
  (a node name is asked once, and a second node answering to that name
  inherits the first's answer), stops at the first rule whose `OnUnknown`
  policy accepts its guard, runs that rule's actions in order and returns its
  id, or changes nothing and returns `None`. Where nodes sharing a name answer
  alike (as they do when names are unique), the rule taken is the first whose
  guard's true value its policy accepts.
- `machine::dispatch` chooses the same way (`scan_edges`) among the edges
  that apply in the current state and react to the event's kind; it runs the
  left state's exit actions, the edge's actions and the entered state's entry
  actions in that order (only the edge's actions for an in-place edge), moves
  the tag, and reports what ran. With no such edge it changes neither the
  machine nor the world. A machine's tag always has an entry in the state
  table, and over a run of dispatches it is the target of the last edge to a
  state taken.
- `handles`, `emits`, `rows` and `node_ids` are exactly what the rule table
  says; every table and diagram in `render` is stated character for character.
- The checks return exactly the offending names, sorted and without repeats,
  and exactly the kinds and actions nothing accounts for. `coverage` returns
  exactly the (state, kind) combinations no edge and no ignore covers, those
  both cover, the states no path of edges reaches from the initial one, and
  the pairs of edges that apply to one combination.
- `report::features` and `report::machine` are stated character for
  character over those documents and checks, and a report is clean exactly
  when its defect checks find nothing.

## Using it

A domain implements `Domain`, its kinds `Enumerable`, its events `HasKind`,
its guard type `CondNode`, each feature `Feature` and each state machine
`MachineSpec`; see `tests/controller.rs` and `tests/machine.rs`. Assert
`verify::coverage(..).is_clean()` in a test to keep a transition table free
of gaps.
