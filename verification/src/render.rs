//! Tables and diagrams derived from a controller's declaration.
//!
//! In this module a `*_flowchart` returns mermaid source and a `*_table`
//! returns markdown. Each reads a list of [`AnyFeature`], so the list a
//! controller documents is the list it runs.

use vstd::prelude::*;
use vstd::string::{StrSliceExecFns, StringExecFns};

use crate::enums::{contains_value, lists, Enumerable, Named};
use crate::feature::{considers, emitted_names, handled_by, handled_kinds, row_of, AnyFeature, RuleRow, RuleSpec};
use crate::guard::{CondNode, OnUnknown};
use crate::machine::{Edge, Goto, Ignore, State};
use crate::text::{push_char, strings_view};
use crate::{Domain, MachineSpec};

verus! {

// ─────────────────────────────────────────── cells

/// `parts` joined by `sep`.
pub open spec fn join(parts: Seq<Seq<char>>, sep: Seq<char>) -> Seq<char>
    decreases parts.len(),
{
    if parts.len() == 0 {
        Seq::empty()
    } else if parts.len() == 1 {
        parts[0]
    } else {
        join(parts.drop_last(), sep) + sep + parts.last()
    }
}

/// `s` in backticks.
pub open spec fn ticked(s: Seq<char>) -> Seq<char> {
    "`"@ + s + "`"@
}

/// A list of names as one table cell: each in backticks, comma separated, or a
/// dash for none.
pub open spec fn names_cell(names: Seq<Seq<char>>) -> Seq<char> {
    if names.len() == 0 {
        "—"@
    } else {
        join(names.map_values(|n: Seq<char>| ticked(n)), ", "@)
    }
}

/// A list of values as one table cell, by name.
pub open spec fn values_cell<K: Named>(values: Seq<K>) -> Seq<char> {
    names_cell(values.map_values(|k: K| k.spec_name()))
}

/// The guard column of one rule: the expression, `else` for a fallback, or a
/// dash for a rule that is genuinely unconditional.
pub open spec fn guard_cell_of(guard: Seq<char>, fallback: bool) -> Seq<char> {
    if guard.len() > 0 {
        ticked(guard)
    } else if fallback {
        "else"@
    } else {
        "—"@
    }
}

/// The label on a rule's arrow: its id, then the guard it decides by, or
/// `else` for a fallback. An unconditional rule is its id alone.
pub open spec fn edge_label_of(id: Seq<char>, guard: Seq<char>, fallback: bool) -> Seq<char> {
    if guard.len() > 0 {
        id + "<br/>"@ + guard
    } else if fallback {
        id + "<br/>else"@
    } else {
        id
    }
}

/// What a rule's guard column adds when it acts on an undecidable guard.
pub open spec fn unknown_note(unknown: OnUnknown) -> Seq<char> {
    if unknown == OnUnknown::Allow {
        " (unknown=Allow)"@
    } else {
        Seq::empty()
    }
}

/// Whether `c` is an ASCII letter or digit.
pub open spec fn is_ascii_alphanumeric(c: char) -> bool {
    ('0' as int <= c as int <= '9' as int) || ('a' as int <= c as int <= 'z' as int) || ('A' as int
        <= c as int <= 'Z' as int)
}

/// `raw` as a mermaid node identifier: every character but an ASCII letter or
/// digit becomes `_`.
pub open spec fn node_id_of(raw: Seq<char>) -> Seq<char> {
    raw.map_values(|c: char| if is_ascii_alphanumeric(c) { c } else { '_' })
}

/// Whether an unguarded rule `i` is a fallback rather than an unconditional
/// one: an earlier rule covers one of its kinds.
pub open spec fn shadowed<D: Domain>(rules: Seq<RuleSpec<D>>, i: int) -> bool {
    exists|j: int, t: int|
        0 <= j < i && 0 <= t < rules[i].when.len() && lists(
            (#[trigger] rules[j]).when,
            #[trigger] rules[i].when[t],
        )
}

/// An unguarded rule reads as a fallback exactly when some earlier rule of
/// its feature is considered for a kind it is considered for: one shared kind
/// is enough, the two kind lists need not be the same.
pub proof fn lemma_fallback_shares_a_kind<D: Domain>(rules: Seq<RuleSpec<D>>, i: int)
    requires
        0 <= i < rules.len(),
    ensures
        shadowed(rules, i) <==> exists|j: int, k: D::EventKind|
            #![trigger considers(rules[j], k), considers(rules[i], k)]
            0 <= j < i && considers(rules[j], k) && considers(rules[i], k),
{
    if shadowed(rules, i) {
        let (j, t) = choose|j: int, t: int|
            0 <= j < i && 0 <= t < rules[i].when.len() && lists(
                (#[trigger] rules[j]).when,
                #[trigger] rules[i].when[t],
            );
        let k = rules[i].when[t];
        assert(lists(rules[i].when, k));
        assert(considers(rules[j], k) && considers(rules[i], k));
    }
    if exists|j: int, k: D::EventKind|
        #![trigger considers(rules[j], k), considers(rules[i], k)]
        0 <= j < i && considers(rules[j], k) && considers(rules[i], k) {
        let (j, k) = choose|j: int, k: D::EventKind|
            #![trigger considers(rules[j], k), considers(rules[i], k)]
            0 <= j < i && considers(rules[j], k) && considers(rules[i], k);
        let t = choose|t: int| 0 <= t < rules[i].when.len() && (#[trigger] rules[i].when[t]).spec_ordinal() == k.spec_ordinal();
        let u = choose|u: int| 0 <= u < rules[j].when.len() && (#[trigger] rules[j].when[u]).spec_ordinal() == k.spec_ordinal();
        assert(rules[j].when[u].spec_ordinal() == rules[i].when[t].spec_ordinal());
        assert(lists(rules[j].when, rules[i].when[t]));
    }
}

fn append_ticked(s: &mut String, name: &str)
    ensures
        final(s)@ == old(s)@ + ticked(name@),
{
    s.append("`");
    s.append(name);
    s.append("`");
    assert(s@ =~= old(s)@ + ticked(name@));
}

/// Joins names already rendered to text into one cell.
fn join_names(items: &Vec<String>) -> (cell: String)
    ensures
        cell@ == names_cell(strings_view(items@)),
{
    let mut s = String::new();
    if items.len() == 0 {
        s.append("—");
        return s;
    }
    let ghost parts = strings_view(items@).map_values(|n: Seq<char>| ticked(n));
    let mut i: usize = 0;
    while i < items.len()
        invariant
            0 <= i <= items@.len(),
            items@.len() > 0,
            parts == strings_view(items@).map_values(|n: Seq<char>| ticked(n)),
            i == 0 ==> s@ == Seq::<char>::empty(),
            i > 0 ==> s@ == join(parts.take(i as int), ", "@),
        decreases items@.len() - i,
    {
        let ghost prev = s@;
        if i > 0 {
            s.append(", ");
        }
        append_ticked(&mut s, items[i].as_str());
        proof {
            assert(parts[i as int] == ticked(items@[i as int]@));
            let t = parts.take(i + 1);
            if i == 0 {
                assert(s@ =~= t[0]);
            } else {
                assert(t.drop_last() =~= parts.take(i as int));
                assert(s@ =~= join(parts.take(i as int), ", "@) + ", "@ + t.last());
            }
        }
        i = i + 1;
    }
    assert(parts.take(items@.len() as int) =~= parts);
    s
}

/// Joins strings with `sep` between them.
pub(crate) fn join_with(parts: &Vec<String>, sep: &str) -> (joined: String)
    ensures
        joined@ == join(strings_view(parts@), sep@),
{
    let ghost all = strings_view(parts@);
    let mut s = String::new();
    let mut i: usize = 0;
    while i < parts.len()
        invariant
            0 <= i <= parts@.len(),
            all == strings_view(parts@),
            s@ == join(all.take(i as int), sep@),
        decreases parts@.len() - i,
    {
        let ghost prev = s@;
        if i > 0 {
            s.append(sep);
        }
        s.append(parts[i].as_str());
        proof {
            let t = all.take(i + 1);
            assert(all[i as int] == parts@[i as int]@);
            if i == 0 {
                assert(s@ =~= t[0]);
            } else {
                assert(t.drop_last() =~= all.take(i as int));
                assert(s@ =~= join(all.take(i as int), sep@) + sep@ + t.last());
            }
        }
        i = i + 1;
    }
    assert(all.take(parts@.len() as int) =~= all);
    s
}

/// The names of `items`, in order.
pub(crate) fn names_of<K: Named>(items: &[K]) -> (names: Vec<String>)
    ensures
        strings_view(names@) == items@.map_values(|k: K| k.spec_name()),
{
    let mut names: Vec<String> = Vec::new();
    let mut i: usize = 0;
    while i < items.len()
        invariant
            0 <= i <= items@.len(),
            strings_view(names@) == items@.take(i as int).map_values(|k: K| k.spec_name()),
        decreases items@.len() - i,
    {
        let n = items[i].name();
        let ghost prev = names@;
        names.push(n);
        assert(strings_view(names@) =~= strings_view(prev).push(n@));
        assert(strings_view(names@) =~= items@.take(i + 1).map_values(|k: K| k.spec_name()));
        i = i + 1;
    }
    assert(items@.take(items@.len() as int) =~= items@);
    names
}

/// Joins values into one cell, by name.
pub(crate) fn join_values<K: Named>(items: &[K]) -> (cell: String)
    ensures
        cell@ == values_cell(items@),
{
    let names = names_of(items);
    join_names(&names)
}

/// The guard column of one rule.
fn guard_cell(guard: &String, fallback: bool) -> (cell: String)
    ensures
        cell@ == guard_cell_of(guard@, fallback),
{
    let mut s = String::new();
    if guard.as_str().unicode_len() > 0 {
        append_ticked(&mut s, guard.as_str());
    } else if fallback {
        s.append("else");
    } else {
        s.append("—");
    }
    s
}

/// The label on a rule's arrow.
fn edge_label(id: &str, guard: &String, fallback: bool) -> (label: String)
    ensures
        label@ == edge_label_of(id@, guard@, fallback),
{
    let mut s = String::new();
    s.append(id);
    if guard.as_str().unicode_len() > 0 {
        s.append("<br/>");
        s.append(guard.as_str());
        assert(s@ =~= id@ + "<br/>"@ + guard@);
    } else if fallback {
        s.append("<br/>else");
    }
    s
}

/// What a rule's guard column adds for its undecidable-guard policy.
fn append_unknown_note(s: &mut String, unknown: OnUnknown)
    ensures
        final(s)@ == old(s)@ + unknown_note(unknown),
{
    if unknown == OnUnknown::Allow {
        s.append(" (unknown=Allow)");
    } else {
        assert(s@ =~= old(s)@ + Seq::<char>::empty());
    }
}

fn is_ascii_alnum(c: char) -> (alnum: bool)
    ensures
        alnum == is_ascii_alphanumeric(c),
{
    ('0' <= c && c <= '9') || ('a' <= c && c <= 'z') || ('A' <= c && c <= 'Z')
}

/// Folds a name into a mermaid node identifier, replacing every character
/// mermaid could read as syntax. Identifiers only — a label is quoted and
/// keeps the text unchanged.
fn node_id(raw: &String) -> (id: String)
    ensures
        id@ == node_id_of(raw@),
{
    let text = raw.as_str();
    let n = text.unicode_len();
    let mut s = String::new();
    let mut i: usize = 0;
    while i < n
        invariant
            0 <= i <= n,
            n as nat == raw@.len(),
            text@ == raw@,
            s@ == node_id_of(raw@.take(i as int)),
        decreases n - i,
    {
        let c = text.get_char(i);
        if is_ascii_alnum(c) {
            push_char(&mut s, c);
        } else {
            push_char(&mut s, '_');
        }
        assert(raw@.take(i + 1) =~= raw@.take(i as int).push(c));
        assert(s@ =~= node_id_of(raw@.take(i + 1)));
        i = i + 1;
    }
    assert(raw@.take(n as int) =~= raw@);
    s
}

/// Whether the unguarded row `i` is a fallback: an earlier row of the same
/// feature covers one of its kinds.
fn is_fallback<D: Domain>(rows: &Vec<RuleRow<D>>, i: usize, Ghost(rules): Ghost<Seq<RuleSpec<D>>>) -> (fallback: bool)
    where D::Guard: CondNode<D>
    requires
        i < rows@.len(),
        rows@.len() == rules.len(),
        forall|t: int| 0 <= t < rows@.len() ==> row_of(#[trigger] rows@[t], rules[t]),
    ensures
        fallback == shadowed(rules, i as int),
{
    let kinds = rows[i].when;
    let mut j: usize = 0;
    while j < i
        invariant
            0 <= j <= i < rows@.len(),
            rows@.len() == rules.len(),
            forall|t: int| 0 <= t < rows@.len() ==> row_of(#[trigger] rows@[t], rules[t]),
            kinds@ == rules[i as int].when,
            forall|a: int, t: int|
                0 <= a < j && 0 <= t < kinds@.len() ==> !lists((#[trigger] rules[a]).when, #[trigger] kinds@[t]),
        decreases i - j,
    {
        let earlier = rows[j].when;
        assert(row_of(rows@[j as int], rules[j as int]));
        let mut t: usize = 0;
        while t < kinds.len()
            invariant
                0 <= t <= kinds@.len(),
                0 <= j < i < rows@.len(),
                rows@.len() == rules.len(),
                kinds@ == rules[i as int].when,
                earlier@ == rules[j as int].when,
                forall|a: int, b: int|
                    0 <= a < j && 0 <= b < kinds@.len() ==> !lists((#[trigger] rules[a]).when, #[trigger] kinds@[b]),
                forall|b: int| 0 <= b < t ==> !lists(rules[j as int].when, #[trigger] kinds@[b]),
            decreases kinds@.len() - t,
        {
            if contains_value(earlier, &kinds[t]) {
                assert(lists(rules[j as int].when, rules[i as int].when[t as int]));
                return true;
            }
            t = t + 1;
        }
        j = j + 1;
    }
    false
}


// ─────────────────────────────────────────── whole controller

/// The header of the feature summary table.
pub open spec fn io_header() -> Seq<char> {
    "| feature | handles | emits |\n|---|---|---|\n"@
}

/// One feature's line in the summary table: what it handles and emits.
pub open spec fn io_line<D: Domain>(feature: Seq<char>, rules: Seq<RuleSpec<D>>) -> Seq<char>
    where D::Guard: CondNode<D>
{
    "| `"@ + feature + "` | "@ + values_cell(handled_kinds(D::spec_all_kinds(), rules)) + " | "@
        + names_cell(emitted_names(rules)) + " |\n"@
}

/// The summary lines of `features`, in order.
pub open spec fn io_lines<D: Domain>(features: Seq<&dyn AnyFeature<D>>) -> Seq<char>
    where D::Guard: CondNode<D>
    decreases features.len(),
{
    if features.len() == 0 {
        Seq::empty()
    } else {
        io_lines(features.drop_last()) + io_line(features.last().spec_name(), features.last().spec_rules())
    }
}

/// Tabulates what each feature reacts to and emits.
///
/// Returns a markdown table: a header, then one line per feature in list
/// order.
pub fn io_table<D: Domain>(features: &[&dyn AnyFeature<D>]) -> (table: String)
    where D::Guard: CondNode<D>
    ensures
        table@ == io_header() + io_lines(features@),
{
    let mut s = String::new();
    s.append("| feature | handles | emits |\n|---|---|---|\n");
    let mut i: usize = 0;
    assert(s@ =~= io_header() + io_lines(features@.take(0)));
    while i < features.len()
        invariant
            0 <= i <= features@.len(),
            s@ == io_header() + io_lines(features@.take(i as int)),
        decreases features@.len() - i,
    {
        let f = features[i];
        let ghost prev = s@;
        let handles = f.handles();
        let handled = join_values(handles.as_slice());
        let emits = f.emits();
        let emitted = join_names(&emits);
        let fname = f.name();
        s.append("| `");
        s.append(fname);
        s.append("` | ");
        s.append(handled.as_str());
        s.append(" | ");
        s.append(emitted.as_str());
        s.append(" |\n");
        assert(features@.take(i + 1).drop_last() =~= features@.take(i as int));
        assert(s@ =~= prev + io_line(f.spec_name(), f.spec_rules()));
        i = i + 1;
    }
    assert(features@.take(features@.len() as int) =~= features@);
    s
}

/// The header of the rule tables.
pub open spec fn rule_header() -> Seq<char> {
    "| feature | rule | when | guard | emits |\n|---|---|---|---|---|\n"@
}

/// One rule's line in a rule table.
pub open spec fn rule_line<D: Domain>(feature: Seq<char>, rule: RuleSpec<D>, fallback: bool) -> Seq<
    char,
>
    where D::Guard: CondNode<D>
{
    "| `"@ + feature + "` | `"@ + rule.id + "` | "@ + values_cell(rule.when) + " | "@
        + guard_cell_of(rule.check.spec_render(), fallback) + unknown_note(rule.unknown) + " | "@
        + names_cell(rule.emit) + " |\n"@
}

/// The lines of the first `n` rules of one feature, in order.
pub open spec fn rule_lines<D: Domain>(feature: Seq<char>, rules: Seq<RuleSpec<D>>, n: int) -> Seq<
    char,
>
    where D::Guard: CondNode<D>
    decreases n,
{
    if n <= 0 {
        Seq::empty()
    } else {
        rule_lines(feature, rules, n - 1) + rule_line(feature, rules[n - 1], shadowed(rules, n - 1))
    }
}

/// Every rule line of `features`, feature after feature.
pub open spec fn rule_table_lines<D: Domain>(features: Seq<&dyn AnyFeature<D>>) -> Seq<char>
    where D::Guard: CondNode<D>
    decreases features.len(),
{
    if features.len() == 0 {
        Seq::empty()
    } else {
        rule_table_lines(features.drop_last()) + rule_lines(
            features.last().spec_name(),
            features.last().spec_rules(),
            features.last().spec_rules().len() as int,
        )
    }
}

/// Appends the line of one rule, given as its row.
fn append_rule_line<D: Domain>(
    s: &mut String,
    feature: &str,
    row: &RuleRow<D>,
    fallback: bool,
    Ghost(rule): Ghost<RuleSpec<D>>,
)
    where D::Guard: CondNode<D>
    requires
        row_of(*row, rule),
    ensures
        final(s)@ == old(s)@ + rule_line(feature@, rule, fallback),
{
    let when = join_values(row.when);
    let guard = guard_cell(&row.guard, fallback);
    let emit = join_names(&row.emit);
    s.append("| `");
    s.append(feature);
    s.append("` | `");
    s.append(row.id);
    s.append("` | ");
    s.append(when.as_str());
    s.append(" | ");
    s.append(guard.as_str());
    append_unknown_note(s, row.unknown);
    s.append(" | ");
    s.append(emit.as_str());
    s.append(" |\n");
    assert(s@ =~= old(s)@ + rule_line(feature@, rule, fallback));
}

/// Tabulates every rule of every feature: the `input -> output` lines a feature
/// is made of.
///
/// Returns a markdown table. Row order is declaration order, which is also
/// priority — the first matching rule of a feature is the one that runs. An
/// unguarded rule reads `else` when an earlier rule of its feature covers one
/// of its kinds, and a dash when nothing does.
pub fn rule_table<D: Domain>(features: &[&dyn AnyFeature<D>]) -> (table: String)
    where D::Guard: CondNode<D>
    ensures
        table@ == rule_header() + rule_table_lines(features@),
{
    let mut s = String::new();
    s.append("| feature | rule | when | guard | emits |\n|---|---|---|---|---|\n");
    let mut i: usize = 0;
    assert(s@ =~= rule_header() + rule_table_lines(features@.take(0)));
    while i < features.len()
        invariant
            0 <= i <= features@.len(),
            s@ == rule_header() + rule_table_lines(features@.take(i as int)),
        decreases features@.len() - i,
    {
        let f = features[i];
        let name = f.name();
        let rows = f.rows();
        let ghost rules = f.spec_rules();
        let ghost start = s@;
        let mut j: usize = 0;
        while j < rows.len()
            invariant
                0 <= j <= rows@.len(),
                rows@.len() == rules.len(),
                name@ == f.spec_name(),
                forall|t: int| 0 <= t < rows@.len() ==> row_of(#[trigger] rows@[t], rules[t]),
                s@ == start + rule_lines(name@, rules, j as int),
            decreases rows@.len() - j,
        {
            let fallback = is_fallback(&rows, j, Ghost(rules));
            assert(row_of(rows@[j as int], rules[j as int]));
            append_rule_line(&mut s, name, &rows[j], fallback, Ghost(rules[j as int]));
            assert(s@ =~= start + rule_lines(name@, rules, j + 1));
            j = j + 1;
        }
        assert(features@.take(i + 1).drop_last() =~= features@.take(i as int));
        assert(s@ =~= rule_header() + rule_table_lines(features@.take(i + 1)));
        i = i + 1;
    }
    assert(features@.take(features@.len() as int) =~= features@);
    s
}

// ─────────────────────────────────────────── one event at a time

/// Whether a rule before `i` is considered for `kind`.
pub open spec fn considered_before<D: Domain>(rules: Seq<RuleSpec<D>>, kind: D::EventKind, i: int) -> bool {
    exists|j: int| 0 <= j < i && considers(#[trigger] rules[j], kind)
}

/// The lines of those of the first `n` rules of one feature that are
/// considered for `kind`. A rule is a fallback exactly when it is not the
/// feature's first line here.
pub open spec fn event_lines<D: Domain>(
    feature: Seq<char>,
    rules: Seq<RuleSpec<D>>,
    kind: D::EventKind,
    n: int,
) -> Seq<char>
    where D::Guard: CondNode<D>
    decreases n,
{
    if n <= 0 {
        Seq::empty()
    } else if considers(rules[n - 1], kind) {
        event_lines(feature, rules, kind, n - 1) + rule_line(
            feature,
            rules[n - 1],
            considered_before(rules, kind, n - 1),
        )
    } else {
        event_lines(feature, rules, kind, n - 1)
    }
}

/// Every line of `kind`'s table, feature after feature.
pub open spec fn event_table_lines<D: Domain>(
    features: Seq<&dyn AnyFeature<D>>,
    kind: D::EventKind,
) -> Seq<char>
    where D::Guard: CondNode<D>
    decreases features.len(),
{
    if features.len() == 0 {
        Seq::empty()
    } else {
        event_table_lines(features.drop_last(), kind) + event_lines(
            features.last().spec_name(),
            features.last().spec_rules(),
            kind,
            features.last().spec_rules().len() as int,
        )
    }
}

/// Tabulates one event kind's rules, across every feature that reacts to it.
///
/// Returns a markdown table, empty of rows if nothing reacts to `kind`. Row
/// order is dispatch order. A rule reacting to several kinds appears under each
/// of them, which the `when` column shows.
pub fn event_table<D: Domain>(features: &[&dyn AnyFeature<D>], kind: D::EventKind) -> (table: String)
    where D::Guard: CondNode<D>
    ensures
        table@ == rule_header() + event_table_lines(features@, kind),
{
    let mut s = String::new();
    s.append("| feature | rule | when | guard | emits |\n|---|---|---|---|---|\n");
    let mut i: usize = 0;
    assert(s@ =~= rule_header() + event_table_lines(features@.take(0), kind));
    while i < features.len()
        invariant
            0 <= i <= features@.len(),
            s@ == rule_header() + event_table_lines(features@.take(i as int), kind),
        decreases features@.len() - i,
    {
        let f = features[i];
        let name = f.name();
        let rows = f.rows();
        let ghost rules = f.spec_rules();
        let ghost start = s@;
        let mut seen = false;
        let mut j: usize = 0;
        while j < rows.len()
            invariant
                0 <= j <= rows@.len(),
                rows@.len() == rules.len(),
                name@ == f.spec_name(),
                forall|t: int| 0 <= t < rows@.len() ==> row_of(#[trigger] rows@[t], rules[t]),
                seen == considered_before(rules, kind, j as int),
                s@ == start + event_lines(name@, rules, kind, j as int),
            decreases rows@.len() - j,
        {
            assert(row_of(rows@[j as int], rules[j as int]));
            if contains_value(rows[j].when, &kind) {
                append_rule_line(&mut s, name, &rows[j], seen, Ghost(rules[j as int]));
                seen = true;
            }
            assert(s@ =~= start + event_lines(name@, rules, kind, j + 1));
            assert(seen == considered_before(rules, kind, j + 1)) by {
                if considered_before(rules, kind, j + 1) && !considers(rules[j as int], kind) {
                    let t = choose|t: int| 0 <= t < j + 1 && considers(#[trigger] rules[t], kind);
                    assert(t < j);
                }
            }
            j = j + 1;
        }
        assert(features@.take(i + 1).drop_last() =~= features@.take(i as int));
        assert(s@ =~= rule_header() + event_table_lines(features@.take(i + 1), kind));
        i = i + 1;
    }
    assert(features@.take(features@.len() as int) =~= features@);
    s
}


/// One arrow from a feature to one of its actions.
pub open spec fn action_line(feature: Seq<char>, ft: Seq<char>, label: Seq<char>, action: Seq<char>) -> Seq<
    char,
> {
    "    "@ + ft + "[\""@ + feature + "\"] -->|\""@ + label + "\"| "@ + node_id_of(
        "ac_"@ + feature + "_"@ + action,
    ) + "[\""@ + action + "\"]\n"@
}

/// One arrow per action, in order.
pub open spec fn action_lines(
    feature: Seq<char>,
    ft: Seq<char>,
    label: Seq<char>,
    actions: Seq<Seq<char>>,
) -> Seq<char>
    decreases actions.len(),
{
    if actions.len() == 0 {
        Seq::empty()
    } else {
        action_lines(feature, ft, label, actions.drop_last()) + action_line(
            feature,
            ft,
            label,
            actions.last(),
        )
    }
}

/// The arrows of those of the first `n` rules of one feature that are
/// considered for `kind`, each labelled with its rule.
pub open spec fn flow_rule_lines<D: Domain>(
    feature: Seq<char>,
    ft: Seq<char>,
    rules: Seq<RuleSpec<D>>,
    kind: D::EventKind,
    n: int,
) -> Seq<char>
    where D::Guard: CondNode<D>
    decreases n,
{
    if n <= 0 {
        Seq::empty()
    } else if considers(rules[n - 1], kind) {
        flow_rule_lines(feature, ft, rules, kind, n - 1) + action_lines(
            feature,
            ft,
            edge_label_of(
                rules[n - 1].id,
                rules[n - 1].check.spec_render(),
                considered_before(rules, kind, n - 1),
            ),
            rules[n - 1].emit,
        )
    } else {
        flow_rule_lines(feature, ft, rules, kind, n - 1)
    }
}

/// One feature's part of `kind`'s flowchart: nothing if no rule of it is
/// considered for `kind`, else the arrow from the event to the feature and
/// the arrows to its actions.
pub open spec fn flow_feature<D: Domain>(
    feature: Seq<char>,
    rules: Seq<RuleSpec<D>>,
    kind: D::EventKind,
) -> Seq<char>
    where D::Guard: CondNode<D>
{
    if !handled_by(rules, kind) {
        Seq::empty()
    } else {
        let ft = node_id_of("ft_"@ + feature);
        "    "@ + node_id_of("ev_"@ + kind.spec_name()) + "[\""@ + kind.spec_name() + "\"] --> "@
            + ft + "[\""@ + feature + "\"]\n"@ + flow_rule_lines(
            feature,
            ft,
            rules,
            kind,
            rules.len() as int,
        )
    }
}

/// Every feature's part of `kind`'s flowchart, in list order.
pub open spec fn flow_lines<D: Domain>(features: Seq<&dyn AnyFeature<D>>, kind: D::EventKind) -> Seq<
    char,
>
    where D::Guard: CondNode<D>
    decreases features.len(),
{
    if features.len() == 0 {
        Seq::empty()
    } else {
        flow_lines(features.drop_last(), kind) + flow_feature(
            features.last().spec_name(),
            features.last().spec_rules(),
            kind,
        )
    }
}

/// Appends `"    {ft}[\"{feature}\"] -->|\"{label}\"| {ac}[\"{a}\"]\n"` for each
/// action name.
fn append_action_lines(s: &mut String, feature: &str, ft: &String, label: &String, actions: &Vec<String>)
    ensures
        final(s)@ == old(s)@ + action_lines(feature@, ft@, label@, strings_view(actions@)),
{
    let ghost acts = strings_view(actions@);
    let mut k: usize = 0;
    assert(acts.take(0) =~= Seq::<Seq<char>>::empty());
    while k < actions.len()
        invariant
            0 <= k <= actions@.len(),
            acts == strings_view(actions@),
            s@ == old(s)@ + action_lines(feature@, ft@, label@, acts.take(k as int)),
        decreases actions@.len() - k,
    {
        let a = actions[k].as_str();
        let mut raw = String::new();
        raw.append("ac_");
        raw.append(feature);
        raw.append("_");
        raw.append(a);
        let ac = node_id(&raw);
        let ghost prev = s@;
        s.append("    ");
        s.append(ft.as_str());
        s.append("[\"");
        s.append(feature);
        s.append("\"] -->|\"");
        s.append(label.as_str());
        s.append("\"| ");
        s.append(ac.as_str());
        s.append("[\"");
        s.append(a);
        s.append("\"]\n");
        proof {
            assert(raw@ =~= "ac_"@ + feature@ + "_"@ + a@);
            assert(acts.take(k + 1).drop_last() =~= acts.take(k as int));
            assert(acts.take(k + 1).last() == a@);
            assert(s@ =~= prev + action_line(feature@, ft@, label@, a@));
        }
        k = k + 1;
    }
    assert(acts.take(actions@.len() as int) =~= acts);
}

/// Draws one event kind's path through the controller: the event, the features
/// that react to it, and the actions their rules emit.
///
/// Returns the diagram source, holding nothing but the header if no feature
/// reacts to `kind`. Priority is not drawn; [`event_table`] is what orders the
/// rules. Node identifiers are folded to letters, digits and `_`; labels keep
/// the text unchanged.
pub fn event_flowchart<D: Domain>(features: &[&dyn AnyFeature<D>], kind: D::EventKind) -> (chart: String)
    where D::Guard: CondNode<D>
    ensures
        chart@ == "flowchart LR\n"@ + flow_lines(features@, kind),
{
    let mut s = String::new();
    s.append("flowchart LR\n");
    let kind_name = kind.name();
    let mut i: usize = 0;
    assert(s@ =~= "flowchart LR\n"@ + flow_lines(features@.take(0), kind));
    while i < features.len()
        invariant
            0 <= i <= features@.len(),
            kind_name@ == kind.spec_name(),
            s@ == "flowchart LR\n"@ + flow_lines(features@.take(i as int), kind),
        decreases features@.len() - i,
    {
        let f = features[i];
        let name = f.name();
        let rows = f.rows();
        let ghost rules = f.spec_rules();
        let ghost start = s@;
        // Whether any rule of this feature is considered for `kind`.
        let mut any = false;
        let mut j: usize = 0;
        while j < rows.len()
            invariant
                0 <= j <= rows@.len(),
                rows@.len() == rules.len(),
                forall|t: int| 0 <= t < rows@.len() ==> row_of(#[trigger] rows@[t], rules[t]),
                any == considered_before(rules, kind, j as int),
            decreases rows@.len() - j,
        {
            assert(row_of(rows@[j as int], rules[j as int]));
            if contains_value(rows[j].when, &kind) {
                any = true;
            }
            assert(any == considered_before(rules, kind, j + 1)) by {
                if considered_before(rules, kind, j + 1) && !considers(rules[j as int], kind) {
                    let t = choose|t: int| 0 <= t < j + 1 && considers(#[trigger] rules[t], kind);
                    assert(t < j);
                }
            }
            j = j + 1;
        }
        if any {
            let mut ev_raw = String::new();
            ev_raw.append("ev_");
            ev_raw.append(kind_name.as_str());
            let ev = node_id(&ev_raw);
            let mut ft_raw = String::new();
            ft_raw.append("ft_");
            ft_raw.append(name);
            let ft = node_id(&ft_raw);
            s.append("    ");
            s.append(ev.as_str());
            s.append("[\"");
            s.append(kind_name.as_str());
            s.append("\"] --> ");
            s.append(ft.as_str());
            s.append("[\"");
            s.append(name);
            s.append("\"]\n");
            let ghost head = s@;
            proof {
                assert(ev_raw@ =~= "ev_"@ + kind.spec_name());
                assert(ft_raw@ =~= "ft_"@ + name@);
            }
            let mut seen = false;
            let mut j: usize = 0;
            while j < rows.len()
                invariant
                    0 <= j <= rows@.len(),
                    rows@.len() == rules.len(),
                    name@ == f.spec_name(),
                    ft@ == node_id_of("ft_"@ + name@),
                    forall|t: int| 0 <= t < rows@.len() ==> row_of(#[trigger] rows@[t], rules[t]),
                    seen == considered_before(rules, kind, j as int),
                    s@ == head + flow_rule_lines(name@, ft@, rules, kind, j as int),
                decreases rows@.len() - j,
            {
                assert(row_of(rows@[j as int], rules[j as int]));
                if contains_value(rows[j].when, &kind) {
                    let label = edge_label(rows[j].id, &rows[j].guard, seen);
                    append_action_lines(&mut s, name, &ft, &label, &rows[j].emit);
                    seen = true;
                }
                assert(s@ =~= head + flow_rule_lines(name@, ft@, rules, kind, j + 1));
                assert(seen == considered_before(rules, kind, j + 1)) by {
                    if considered_before(rules, kind, j + 1) && !considers(rules[j as int], kind) {
                        let t = choose|t: int| 0 <= t < j + 1 && considers(#[trigger] rules[t], kind);
                        assert(t < j);
                    }
                }
                j = j + 1;
            }
            proof {
                assert(handled_by(rules, kind)) by {
                    let t = choose|t: int| 0 <= t < rules.len() && considers(#[trigger] rules[t], kind);
                    assert(considers(rules[t], kind));
                }
                assert(s@ =~= start + flow_feature(name@, rules, kind));
            }
        } else {
            proof {
                assert(!handled_by(rules, kind)) by {
                    if handled_by(rules, kind) {
                        let t = choose|t: int| 0 <= t < rules.len() && considers(#[trigger] rules[t], kind);
                        assert(considered_before(rules, kind, rules.len() as int));
                    }
                }
                assert(s@ =~= start + flow_feature(name@, rules, kind));
            }
        }
        assert(features@.take(i + 1).drop_last() =~= features@.take(i as int));
        assert(s@ =~= "flowchart LR\n"@ + flow_lines(features@.take(i + 1), kind));
        i = i + 1;
    }
    assert(features@.take(features@.len() as int) =~= features@);
    s
}


// ─────────────────────────────────────────── one feature, by trigger set

/// Whether `a` and `b` list the same kinds in the same order.
pub open spec fn same_kinds<K: Enumerable>(a: Seq<K>, b: Seq<K>) -> bool {
    a.len() == b.len() && forall|i: int| 0 <= i < a.len() ==> (#[trigger] a[i]).spec_ordinal() == b[i].spec_ordinal()
}

/// Whether `a` and `b` list the same kinds in the same order.
fn same_kinds_of<K: Enumerable>(a: &[K], b: &[K]) -> (same: bool)
    ensures
        same == same_kinds(a@, b@),
{
    if a.len() != b.len() {
        return false;
    }
    let mut i: usize = 0;
    while i < a.len()
        invariant
            0 <= i <= a@.len(),
            a@.len() == b@.len(),
            forall|t: int| 0 <= t < i ==> (#[trigger] a@[t]).spec_ordinal() == b@[t].spec_ordinal(),
        decreases a@.len() - i,
    {
        if a[i].ordinal() != b[i].ordinal() {
            return false;
        }
        i = i + 1;
    }
    true
}

/// Whether rule `i` opens a trigger group: it reacts to some kind, and no
/// earlier rule reacts to the same kinds.
pub open spec fn opens_group<D: Domain>(rules: Seq<RuleSpec<D>>, i: int) -> bool {
    rules[i].when.len() > 0 && forall|j: int| 0 <= j < i ==> !same_kinds(#[trigger] rules[j].when, rules[i].when)
}

/// The trigger sets of the groups the first `n` rules open, in order.
pub open spec fn group_whens<D: Domain>(rules: Seq<RuleSpec<D>>, n: int) -> Seq<Seq<D::EventKind>>
    decreases n,
{
    if n <= 0 {
        Seq::empty()
    } else if opens_group(rules, n - 1) {
        group_whens(rules, n - 1).push(rules[n - 1].when)
    } else {
        group_whens(rules, n - 1)
    }
}

/// Splits a feature's rules by the kinds of events they react to: one group per
/// distinct `when` list, in the order the rules first use it.
///
/// Returns each group's event kinds.
pub fn when_groups<D: Domain, F: AnyFeature<D> + ?Sized>(feature: &F) -> (groups: Vec<&'static [D::EventKind]>)
    where D::Guard: CondNode<D>
    ensures
        groups@.map_values(|g: &'static [D::EventKind]| g@) == group_whens(
            feature.spec_rules(),
            feature.spec_rules().len() as int,
        ),
{
    let rows = feature.rows();
    let ghost rules = feature.spec_rules();
    let mut out: Vec<&'static [D::EventKind]> = Vec::new();
    let mut i: usize = 0;
    while i < rows.len()
        invariant
            0 <= i <= rows@.len(),
            rows@.len() == rules.len(),
            forall|t: int| 0 <= t < rows@.len() ==> row_of(#[trigger] rows@[t], rules[t]),
            out@.map_values(|g: &'static [D::EventKind]| g@) == group_whens(rules, i as int),
        decreases rows@.len() - i,
    {
        assert(row_of(rows@[i as int], rules[i as int]));
        let mut opens = rows[i].when.len() > 0;
        let mut j: usize = 0;
        while j < i
            invariant
                0 <= j <= i < rows@.len(),
                rows@.len() == rules.len(),
                forall|t: int| 0 <= t < rows@.len() ==> row_of(#[trigger] rows@[t], rules[t]),
                opens == (rules[i as int].when.len() > 0 && forall|t: int|
                    0 <= t < j ==> !same_kinds(#[trigger] rules[t].when, rules[i as int].when)),
            decreases i - j,
        {
            assert(row_of(rows@[j as int], rules[j as int]));
            if same_kinds_of(rows[j].when, rows[i].when) {
                opens = false;
            }
            j = j + 1;
        }
        let ghost before = out@;
        if opens {
            out.push(rows[i].when);
            assert(out@.map_values(|g: &'static [D::EventKind]| g@) =~= before.map_values(
                |g: &'static [D::EventKind]| g@,
            ).push(rules[i as int].when));
        }
        i = i + 1;
    }
    out
}

/// One rule's line in a trigger group's table.
pub open spec fn when_row<D: Domain>(rule: RuleSpec<D>, fallback: bool) -> Seq<char>
    where D::Guard: CondNode<D>
{
    "| `"@ + rule.id + "` | "@ + guard_cell_of(rule.check.spec_render(), fallback) + unknown_note(
        rule.unknown,
    ) + " | "@ + names_cell(rule.emit) + " |\n"@
}

/// The lines of those of the first `n` rules that react to exactly `kinds`.
pub open spec fn when_rows<D: Domain>(rules: Seq<RuleSpec<D>>, kinds: Seq<D::EventKind>, n: int) -> Seq<char>
    where D::Guard: CondNode<D>
    decreases n,
{
    if n <= 0 {
        Seq::empty()
    } else if same_kinds(rules[n - 1].when, kinds) {
        when_rows(rules, kinds, n - 1) + when_row(rules[n - 1], shadowed(rules, n - 1))
    } else {
        when_rows(rules, kinds, n - 1)
    }
}

/// Tabulates the rules of `feature` that react to exactly the kinds `kinds`.
///
/// Returns a markdown table: rule, guard and actions, in priority order.
pub fn when_table<D: Domain, F: AnyFeature<D> + ?Sized>(feature: &F, kinds: &[D::EventKind]) -> (table: String)
    where D::Guard: CondNode<D>
    ensures
        table@ == "| rule | guard | emits |\n|---|---|---|\n"@ + when_rows(
            feature.spec_rules(),
            kinds@,
            feature.spec_rules().len() as int,
        ),
{
    let rows = feature.rows();
    let ghost rules = feature.spec_rules();
    let mut s = String::new();
    s.append("| rule | guard | emits |\n|---|---|---|\n");
    let ghost head = s@;
    let mut i: usize = 0;
    while i < rows.len()
        invariant
            0 <= i <= rows@.len(),
            rows@.len() == rules.len(),
            forall|t: int| 0 <= t < rows@.len() ==> row_of(#[trigger] rows@[t], rules[t]),
            s@ == head + when_rows(rules, kinds@, i as int),
        decreases rows@.len() - i,
    {
        assert(row_of(rows@[i as int], rules[i as int]));
        let ghost prev = s@;
        if same_kinds_of(rows[i].when, kinds) {
            let fallback = is_fallback(&rows, i, Ghost(rules));
            let guard = guard_cell(&rows[i].guard, fallback);
            let emit = join_names(&rows[i].emit);
            s.append("| `");
            s.append(rows[i].id);
            s.append("` | ");
            s.append(guard.as_str());
            append_unknown_note(&mut s, rows[i].unknown);
            s.append(" | ");
            s.append(emit.as_str());
            s.append(" |\n");
            assert(s@ =~= prev + when_row(rules[i as int], shadowed(rules, i as int)));
        }
        i = i + 1;
    }
    s
}

/// One arrow per kind of `kinds`, from the event to the feature.
pub open spec fn trigger_lines<K: Named>(feature: Seq<char>, ft: Seq<char>, kinds: Seq<K>) -> Seq<char>
    decreases kinds.len(),
{
    if kinds.len() == 0 {
        Seq::empty()
    } else {
        trigger_lines(feature, ft, kinds.drop_last()) + "    "@ + node_id_of(
            "ev_"@ + kinds.last().spec_name(),
        ) + "[\""@ + kinds.last().spec_name() + "\"] --> "@ + ft + "[\""@ + feature + "\"]\n"@
    }
}

/// The action arrows of those of the first `n` rules that react to exactly
/// `kinds`, each labelled with its rule.
pub open spec fn when_flow_rules<D: Domain>(
    feature: Seq<char>,
    ft: Seq<char>,
    rules: Seq<RuleSpec<D>>,
    kinds: Seq<D::EventKind>,
    n: int,
) -> Seq<char>
    where D::Guard: CondNode<D>
    decreases n,
{
    if n <= 0 {
        Seq::empty()
    } else if same_kinds(rules[n - 1].when, kinds) {
        when_flow_rules(feature, ft, rules, kinds, n - 1) + action_lines(
            feature,
            ft,
            edge_label_of(rules[n - 1].id, rules[n - 1].check.spec_render(), shadowed(rules, n - 1)),
            rules[n - 1].emit,
        )
    } else {
        when_flow_rules(feature, ft, rules, kinds, n - 1)
    }
}

/// Draws the rules of `feature` that react to exactly the kinds `kinds`: the
/// events, the feature, and the actions each rule emits.
///
/// Returns the diagram source. Node identifiers are folded to letters, digits
/// and `_`; labels keep the text unchanged.
pub fn when_flowchart<D: Domain, F: AnyFeature<D> + ?Sized>(feature: &F, kinds: &[D::EventKind]) -> (chart: String)
    where D::Guard: CondNode<D>
    ensures
        chart@ == "flowchart LR\n"@ + trigger_lines(
            feature.spec_name(),
            node_id_of("ft_"@ + feature.spec_name()),
            kinds@,
        ) + when_flow_rules(
            feature.spec_name(),
            node_id_of("ft_"@ + feature.spec_name()),
            feature.spec_rules(),
            kinds@,
            feature.spec_rules().len() as int,
        ),
{
    let name = feature.name();
    let rows = feature.rows();
    let ghost rules = feature.spec_rules();
    let mut raw = String::new();
    raw.append("ft_");
    raw.append(name);
    let ft = node_id(&raw);
    assert(raw@ =~= "ft_"@ + name@);
    let mut s = String::new();
    s.append("flowchart LR\n");
    let ghost head = s@;
    let mut k: usize = 0;
    assert(kinds@.take(0) =~= Seq::<D::EventKind>::empty());
    while k < kinds.len()
        invariant
            0 <= k <= kinds@.len(),
            ft@ == node_id_of("ft_"@ + name@),
            s@ == head + trigger_lines(name@, ft@, kinds@.take(k as int)),
        decreases kinds@.len() - k,
    {
        let kn = kinds[k].name();
        let mut ev = String::new();
        ev.append("ev_");
        ev.append(kn.as_str());
        let evid = node_id(&ev);
        let ghost prev = s@;
        s.append("    ");
        s.append(evid.as_str());
        s.append("[\"");
        s.append(kn.as_str());
        s.append("\"] --> ");
        s.append(ft.as_str());
        s.append("[\"");
        s.append(name);
        s.append("\"]\n");
        proof {
            assert(ev@ =~= "ev_"@ + kn@);
            assert(kinds@.take(k + 1).drop_last() =~= kinds@.take(k as int));
            assert(kinds@.take(k + 1).last() == kinds@[k as int]);
            assert(s@ =~= head + trigger_lines(name@, ft@, kinds@.take(k + 1)));
        }
        k = k + 1;
    }
    assert(kinds@.take(kinds@.len() as int) =~= kinds@);
    let ghost mid = s@;
    let mut i: usize = 0;
    while i < rows.len()
        invariant
            0 <= i <= rows@.len(),
            rows@.len() == rules.len(),
            forall|t: int| 0 <= t < rows@.len() ==> row_of(#[trigger] rows@[t], rules[t]),
            s@ == mid + when_flow_rules(name@, ft@, rules, kinds@, i as int),
        decreases rows@.len() - i,
    {
        assert(row_of(rows@[i as int], rules[i as int]));
        let ghost prev = s@;
        if same_kinds_of(rows[i].when, kinds) {
            let fallback = is_fallback(&rows, i, Ghost(rules));
            let label = edge_label(rows[i].id, &rows[i].guard, fallback);
            append_action_lines(&mut s, name, &ft, &label, &rows[i].emit);
        }
        i = i + 1;
    }
    s
}


// ─────────────────────────────────────────── machine layer

/// The names of `acts`, comma separated.
pub open spec fn actions_text<A: Named>(acts: Seq<A>) -> Seq<char> {
    join(acts.map_values(|a: A| a.spec_name()), ", "@)
}

/// The first entry of `states` for `tag`, at or after `start`.
pub open spec fn find_state<M: MachineSpec>(states: Seq<State<M>>, tag: M::Tag, start: int) -> Option<
    int,
>
    decreases states.len() - start,
{
    if start < 0 || start >= states.len() {
        None
    } else if states[start].tag.spec_ordinal() == tag.spec_ordinal() {
        Some(start)
    } else {
        find_state(states, tag, start + 1)
    }
}

/// The description lines of one state: its entry actions, then its exit
/// actions, each only if there are any.
pub open spec fn state_parts<M: MachineSpec>(st: State<M>) -> Seq<Seq<char>> {
    (if st.entry@.len() > 0 {
        seq!["entry / "@ + actions_text(st.entry@)]
    } else {
        Seq::empty()
    }) + (if st.exit@.len() > 0 {
        seq!["exit / "@ + actions_text(st.exit@)]
    } else {
        Seq::empty()
    })
}

/// One state's description line, if its entry in `states` has any actions.
/// A mermaid description replaces the node's label, so it repeats the name.
pub open spec fn state_line<M: MachineSpec>(tag: M::Tag, states: Seq<State<M>>) -> Seq<char> {
    match find_state(states, tag, 0) {
        None => Seq::empty(),
        Some(i) => if state_parts(states[i]).len() == 0 {
            Seq::empty()
        } else {
            "    "@ + tag.spec_name() + " : "@ + tag.spec_name() + "<br/>"@ + join(
                state_parts(states[i]),
                "<br/>"@,
            ) + "\n"@
        },
    }
}

/// The description lines of `tags`, in order.
pub open spec fn state_lines<M: MachineSpec>(tags: Seq<M::Tag>, states: Seq<State<M>>) -> Seq<char>
    decreases tags.len(),
{
    if tags.len() == 0 {
        Seq::empty()
    } else {
        state_lines(tags.drop_last(), states) + state_line(tags.last(), states)
    }
}

/// The label of a transition arrow: the event kind, then the guard in
/// brackets if there is one.
pub open spec fn transition_label<M: MachineSpec>(e: Edge<M>) -> Seq<char>
    where <M::Domain as Domain>::Guard: CondNode<M::Domain>
{
    if e.check.spec_render().len() == 0 {
        e.when.spec_name()
    } else {
        e.when.spec_name() + "<br/>["@ + e.check.spec_render() + "]"@
    }
}

/// What a transition arrow adds after its label: the fail-open mark, then its
/// actions.
pub open spec fn transition_tail<M: MachineSpec>(e: Edge<M>) -> Seq<char> {
    (if e.unknown == OnUnknown::Allow {
        "<br/>unknown=Allow"@
    } else {
        Seq::empty()
    }) + (if e.emit@.len() == 0 {
        Seq::empty()
    } else {
        "<br/>/ "@ + actions_text(e.emit@)
    })
}

/// One arrow per source state of `e`, to `next`.
pub open spec fn transition_lines<M: MachineSpec>(e: Edge<M>, next: M::Tag, froms: Seq<M::Tag>) -> Seq<
    char,
>
    where <M::Domain as Domain>::Guard: CondNode<M::Domain>
    decreases froms.len(),
{
    if froms.len() == 0 {
        Seq::empty()
    } else {
        transition_lines(e, next, froms.drop_last()) + "    "@ + froms.last().spec_name() + " --> "@
            + next.spec_name() + ": "@ + transition_label(e) + transition_tail(e) + "\n"@
    }
}

/// The arrows of `edges`, in order. An in-place edge draws none.
pub open spec fn edge_arrows<M: MachineSpec>(edges: Seq<Edge<M>>) -> Seq<char>
    where <M::Domain as Domain>::Guard: CondNode<M::Domain>
    decreases edges.len(),
{
    if edges.len() == 0 {
        Seq::empty()
    } else {
        edge_arrows(edges.drop_last()) + match edges.last().goto {
            Goto::To(next) => transition_lines(edges.last(), next, edges.last().from.spec_expand()),
            Goto::Internal => Seq::empty(),
        }
    }
}

/// Joins the names of `acts` with commas.
fn join_actions<A: Named>(acts: &[A]) -> (text: String)
    ensures
        text@ == actions_text(acts@),
{
    let names = names_of(acts);
    join_with(&names, ", ")
}

/// Appends the description line of `tag`, if its entry has any actions.
fn append_state_line<M: MachineSpec>(s: &mut String, tag: M::Tag, states: &'static [State<M>])
    ensures
        final(s)@ == old(s)@ + state_line::<M>(tag, states@),
{
    let o = tag.ordinal();
    let mut i: usize = 0;
    while i < states.len()
        invariant
            0 <= i <= states@.len(),
            o as nat == tag.spec_ordinal(),
            find_state(states@, tag, 0) == find_state(states@, tag, i as int),
        ensures
            i <= states@.len(),
            i < states@.len() ==> states@[i as int].tag.spec_ordinal() == tag.spec_ordinal(),
            find_state(states@, tag, 0) == find_state(states@, tag, i as int),
        decreases states@.len() - i,
    {
        if states[i].tag.ordinal() == o {
            break;
        }
        i = i + 1;
    }
    if i == states.len() {
        assert(s@ =~= old(s)@ + state_line::<M>(tag, states@));
        return;
    }
    assert(find_state(states@, tag, 0) == Some(i as int));
    let st = &states[i];
    let mut lines: Vec<String> = Vec::new();
    if st.entry.len() > 0 {
        let mut line = String::new();
        line.append("entry / ");
        let acts = join_actions(st.entry);
        line.append(acts.as_str());
        lines.push(line);
    }
    if st.exit.len() > 0 {
        let mut line = String::new();
        line.append("exit / ");
        let acts = join_actions(st.exit);
        line.append(acts.as_str());
        lines.push(line);
    }
    assert(strings_view(lines@) =~= state_parts(*st));
    if lines.len() == 0 {
        assert(s@ =~= old(s)@ + state_line::<M>(tag, states@));
        return;
    }
    let name = tag.name();
    let joined = join_with(&lines, "<br/>");
    s.append("    ");
    s.append(name.as_str());
    s.append(" : ");
    s.append(name.as_str());
    s.append("<br/>");
    s.append(joined.as_str());
    s.append("\n");
    assert(s@ =~= old(s)@ + state_line::<M>(tag, states@));
}

/// Appends one arrow per source state of `e`, to `next`.
fn append_transition_lines<M: MachineSpec>(s: &mut String, e: &Edge<M>, next: M::Tag)
    where <M::Domain as Domain>::Guard: CondNode<M::Domain>
    ensures
        final(s)@ == old(s)@ + transition_lines::<M>(*e, next, e.from.spec_expand()),
{
    let guard = e.check.render();
    let mut label = e.when.name();
    if guard.as_str().unicode_len() > 0 {
        label.append("<br/>[");
        label.append(guard.as_str());
        label.append("]");
    }
    let mut tail = String::new();
    if e.unknown == OnUnknown::Allow {
        tail.append("<br/>unknown=Allow");
    }
    if e.emit.len() > 0 {
        tail.append("<br/>/ ");
        let acts = join_actions(e.emit);
        tail.append(acts.as_str());
    }
    assert(label@ =~= transition_label::<M>(*e));
    assert(tail@ =~= transition_tail::<M>(*e));
    let next_name = next.name();
    let froms = e.from.expand();
    let mut k: usize = 0;
    assert(s@ =~= old(s)@ + transition_lines::<M>(*e, next, froms@.take(0)));
    while k < froms.len()
        invariant
            0 <= k <= froms@.len(),
            froms@ == e.from.spec_expand(),
            label@ == transition_label::<M>(*e),
            tail@ == transition_tail::<M>(*e),
            next_name@ == next.spec_name(),
            s@ == old(s)@ + transition_lines::<M>(*e, next, froms@.take(k as int)),
        decreases froms@.len() - k,
    {
        let from = froms[k].name();
        let ghost prev = s@;
        s.append("    ");
        s.append(from.as_str());
        s.append(" --> ");
        s.append(next_name.as_str());
        s.append(": ");
        s.append(label.as_str());
        s.append(tail.as_str());
        s.append("\n");
        proof {
            let t = froms@.take(k + 1);
            assert(t.drop_last() =~= froms@.take(k as int));
            assert(t.last() == froms@[k as int]);
            assert(s@ =~= prev + "    "@ + from@ + " --> "@ + next.spec_name() + ": "@ + transition_label::<M>(
                *e,
            ) + transition_tail::<M>(*e) + "\n"@);
        }
        k = k + 1;
    }
    assert(froms@.take(froms@.len() as int) =~= froms@);
}

/// Builds a mermaid `stateDiagram-v2` from a transition table.
///
/// - `initial`: the machine's starting state.
/// - `edges`: the transitions to draw. In-place ([`Goto::Internal`]) edges are
///   omitted — [`internal_table`] lists those.
/// - `states`: entry and exit actions, drawn as state descriptions in the
///   order of the tag type's `ALL`.
///
/// Returns the diagram source.
pub fn state_diagram<M: MachineSpec>(
    initial: M::Tag,
    edges: &'static [Edge<M>],
    states: &'static [State<M>],
) -> (diagram: String)
    where <M::Domain as Domain>::Guard: CondNode<M::Domain>
    ensures
        diagram@ == "stateDiagram-v2\n"@ + "    [*] --> "@ + initial.spec_name() + "\n"@ + state_lines::<M>(
            <M::Tag as Enumerable>::ALL@,
            states@,
        ) + edge_arrows::<M>(edges@),
{
    let mut s = String::new();
    s.append("stateDiagram-v2\n");
    s.append("    [*] --> ");
    let first = initial.name();
    s.append(first.as_str());
    s.append("\n");
    let ghost head = s@;
    let tags = <M::Tag as Enumerable>::ALL;
    let mut i: usize = 0;
    assert(s@ =~= head + state_lines::<M>(tags@.take(0), states@));
    while i < tags.len()
        invariant
            0 <= i <= tags@.len(),
            tags@ == <M::Tag as Enumerable>::ALL@,
            s@ == head + state_lines::<M>(tags@.take(i as int), states@),
        decreases tags@.len() - i,
    {
        append_state_line::<M>(&mut s, tags[i], states);
        proof {
            assert(tags@.take(i + 1).drop_last() =~= tags@.take(i as int));
            assert(tags@.take(i + 1).last() == tags@[i as int]);
            assert(s@ =~= head + state_lines::<M>(tags@.take(i + 1), states@));
        }
        i = i + 1;
    }
    assert(tags@.take(tags@.len() as int) =~= tags@);
    let ghost mid = s@;
    let mut j: usize = 0;
    assert(s@ =~= mid + edge_arrows::<M>(edges@.take(0)));
    while j < edges.len()
        invariant
            0 <= j <= edges@.len(),
            s@ == mid + edge_arrows::<M>(edges@.take(j as int)),
        decreases edges@.len() - j,
    {
        let e = &edges[j];
        let ghost prev = s@;
        match e.goto {
            Goto::To(next) => {
                append_transition_lines::<M>(&mut s, e, next);
            },
            Goto::Internal => {},
        }
        proof {
            assert(edges@.take(j + 1).drop_last() =~= edges@.take(j as int));
            assert(edges@.take(j + 1).last() == edges@[j as int]);
            assert(s@ =~= mid + edge_arrows::<M>(edges@.take(j + 1)));
        }
        j = j + 1;
    }
    assert(edges@.take(edges@.len() as int) =~= edges@);
    s
}

/// One line per source state of the in-place edge `e`.
pub open spec fn internal_lines_of<M: MachineSpec>(e: Edge<M>, froms: Seq<M::Tag>) -> Seq<char>
    where <M::Domain as Domain>::Guard: CondNode<M::Domain>
    decreases froms.len(),
{
    if froms.len() == 0 {
        Seq::empty()
    } else {
        internal_lines_of(e, froms.drop_last()) + "| `"@ + froms.last().spec_name() + "` | `"@
            + e.when.spec_name() + "` | `"@ + (if e.check.spec_render().len() == 0 {
            "—"@
        } else {
            e.check.spec_render()
        }) + "` | "@ + actions_text(e.emit@) + " | `"@ + e.id@ + "` |\n"@
    }
}

/// The lines of the in-place edges of `edges`, in order.
pub open spec fn internal_lines<M: MachineSpec>(edges: Seq<Edge<M>>) -> Seq<char>
    where <M::Domain as Domain>::Guard: CondNode<M::Domain>
    decreases edges.len(),
{
    if edges.len() == 0 {
        Seq::empty()
    } else {
        internal_lines(edges.drop_last()) + match edges.last().goto {
            Goto::To(_) => Seq::empty(),
            Goto::Internal => internal_lines_of(edges.last(), edges.last().from.spec_expand()),
        }
    }
}

/// Tabulates the transitions that do not change state ([`Goto::Internal`]).
///
/// Returns a markdown table: one line per in-place edge and source state.
pub fn internal_table<M: MachineSpec>(edges: &'static [Edge<M>]) -> (table: String)
    where <M::Domain as Domain>::Guard: CondNode<M::Domain>
    ensures
        table@ == "| state | event | guard | actions | edge id |\n|---|---|---|---|---|\n"@
            + internal_lines::<M>(edges@),
{
    let mut s = String::new();
    s.append("| state | event | guard | actions | edge id |\n|---|---|---|---|---|\n");
    let ghost head = s@;
    let mut j: usize = 0;
    assert(s@ =~= head + internal_lines::<M>(edges@.take(0)));
    while j < edges.len()
        invariant
            0 <= j <= edges@.len(),
            s@ == head + internal_lines::<M>(edges@.take(j as int)),
        decreases edges@.len() - j,
    {
        let e = &edges[j];
        let ghost start = s@;
        if let Goto::Internal = e.goto {
            let rendered = e.check.render();
            let mut guard = String::new();
            if rendered.as_str().unicode_len() == 0 {
                guard.append("—");
            } else {
                guard.append(rendered.as_str());
            }
            let kind = e.when.name();
            let acts = join_actions(e.emit);
            let froms = e.from.expand();
            let mut k: usize = 0;
            assert(s@ =~= start + internal_lines_of::<M>(*e, froms@.take(0)));
            while k < froms.len()
                invariant
                    0 <= k <= froms@.len(),
                    froms@ == e.from.spec_expand(),
                    kind@ == e.when.spec_name(),
                    acts@ == actions_text(e.emit@),
                    guard@ == (if e.check.spec_render().len() == 0 {
                        "—"@
                    } else {
                        e.check.spec_render()
                    }),
                    s@ == start + internal_lines_of::<M>(*e, froms@.take(k as int)),
                decreases froms@.len() - k,
            {
                let from = froms[k].name();
                let ghost prev = s@;
                s.append("| `");
                s.append(from.as_str());
                s.append("` | `");
                s.append(kind.as_str());
                s.append("` | `");
                s.append(guard.as_str());
                s.append("` | ");
                s.append(acts.as_str());
                s.append(" | `");
                s.append(e.id);
                s.append("` |\n");
                proof {
                    let t = froms@.take(k + 1);
                    assert(t.drop_last() =~= froms@.take(k as int));
                    assert(t.last() == froms@[k as int]);
                    assert(s@ =~= start + internal_lines_of::<M>(*e, t));
                }
                k = k + 1;
            }
            assert(froms@.take(froms@.len() as int) =~= froms@);
        }
        proof {
            assert(edges@.take(j + 1).drop_last() =~= edges@.take(j as int));
            assert(edges@.take(j + 1).last() == edges@[j as int]);
            assert(s@ =~= head + internal_lines::<M>(edges@.take(j + 1)));
        }
        j = j + 1;
    }
    assert(edges@.take(edges@.len() as int) =~= edges@);
    s
}

/// One line per event kind of `i`, in state `from`.
pub open spec fn ignore_kind_lines<M: MachineSpec>(
    i: Ignore<M>,
    from: M::Tag,
    kinds: Seq<crate::KindOf<M::Domain>>,
) -> Seq<char>
    decreases kinds.len(),
{
    if kinds.len() == 0 {
        Seq::empty()
    } else {
        ignore_kind_lines(i, from, kinds.drop_last()) + "| `"@ + from.spec_name() + "` | `"@
            + kinds.last().spec_name() + "` | "@ + i.why@ + " |\n"@
    }
}

/// The lines of `i` for the source states `froms`, in order.
pub open spec fn ignore_from_lines<M: MachineSpec>(i: Ignore<M>, froms: Seq<M::Tag>) -> Seq<char>
    decreases froms.len(),
{
    if froms.len() == 0 {
        Seq::empty()
    } else {
        ignore_from_lines(i, froms.drop_last()) + ignore_kind_lines(i, froms.last(), i.when@)
    }
}

/// The lines of `ignores`, in order.
pub open spec fn ignore_lines<M: MachineSpec>(ignores: Seq<Ignore<M>>) -> Seq<char>
    decreases ignores.len(),
{
    if ignores.len() == 0 {
        Seq::empty()
    } else {
        ignore_lines(ignores.drop_last()) + ignore_from_lines(
            ignores.last(),
            ignores.last().from.spec_expand(),
        )
    }
}

/// Tabulates the deliberately unhandled combinations and their reasons.
///
/// Returns a markdown table: one line per ignore, source state and event kind.
pub fn ignore_table<M: MachineSpec>(ignores: &'static [Ignore<M>]) -> (table: String)
    ensures
        table@ == "| state | event | reason |\n|---|---|---|\n"@ + ignore_lines::<M>(ignores@),
{
    let mut s = String::new();
    s.append("| state | event | reason |\n|---|---|---|\n");
    let ghost head = s@;
    let mut j: usize = 0;
    assert(s@ =~= head + ignore_lines::<M>(ignores@.take(0)));
    while j < ignores.len()
        invariant
            0 <= j <= ignores@.len(),
            s@ == head + ignore_lines::<M>(ignores@.take(j as int)),
        decreases ignores@.len() - j,
    {
        let ig = &ignores[j];
        let ghost start = s@;
        let froms = ig.from.expand();
        let mut k: usize = 0;
        assert(s@ =~= start + ignore_from_lines::<M>(*ig, froms@.take(0)));
        while k < froms.len()
            invariant
                0 <= k <= froms@.len(),
                froms@ == ig.from.spec_expand(),
                s@ == start + ignore_from_lines::<M>(*ig, froms@.take(k as int)),
            decreases froms@.len() - k,
        {
            let from = froms[k].name();
            let ghost mid = s@;
            let mut t: usize = 0;
            assert(s@ =~= mid + ignore_kind_lines::<M>(*ig, froms@[k as int], ig.when@.take(0)));
            while t < ig.when.len()
                invariant
                    0 <= t <= ig.when@.len(),
                    0 <= k < froms@.len(),
                    from@ == froms@[k as int].spec_name(),
                    s@ == mid + ignore_kind_lines::<M>(*ig, froms@[k as int], ig.when@.take(t as int)),
                decreases ig.when@.len() - t,
            {
                let kind = ig.when[t].name();
                let ghost prev = s@;
                s.append("| `");
                s.append(from.as_str());
                s.append("` | `");
                s.append(kind.as_str());
                s.append("` | ");
                s.append(ig.why);
                s.append(" |\n");
                proof {
                    let w = ig.when@.take(t + 1);
                    assert(w.drop_last() =~= ig.when@.take(t as int));
                    assert(w.last() == ig.when@[t as int]);
                    assert(s@ =~= mid + ignore_kind_lines::<M>(*ig, froms@[k as int], w));
                }
                t = t + 1;
            }
            proof {
                assert(ig.when@.take(ig.when@.len() as int) =~= ig.when@);
                let f = froms@.take(k + 1);
                assert(f.drop_last() =~= froms@.take(k as int));
                assert(f.last() == froms@[k as int]);
                assert(s@ =~= start + ignore_from_lines::<M>(*ig, f));
            }
            k = k + 1;
        }
        proof {
            assert(froms@.take(froms@.len() as int) =~= froms@);
            assert(ignores@.take(j + 1).drop_last() =~= ignores@.take(j as int));
            assert(ignores@.take(j + 1).last() == ignores@[j as int]);
            assert(s@ =~= head + ignore_lines::<M>(ignores@.take(j + 1)));
        }
        j = j + 1;
    }
    assert(ignores@.take(ignores@.len() as int) =~= ignores@);
    s
}

} // verus!
