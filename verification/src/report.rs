//! One document per controller: every table and diagram [`crate::render`]
//! draws, followed by the [`crate::verify`] results.
//!
//! For a document laid out differently, call `render` and `verify` directly.

use vstd::prelude::*;
use vstd::string::StrSliceExecFns;

use crate::enums::{Enumerable, Named};
use crate::feature::{AnyFeature, RuleSpec};
use crate::guard::CondNode;
use crate::render::{
    edge_arrows, group_whens, ignore_lines, ignore_table, internal_lines, internal_table, io_header, io_lines,
    io_table, join, join_values, join_with, names_of, node_id_of, rule_header, rule_table, rule_table_lines,
    state_diagram, state_lines, trigger_lines, values_cell, when_flow_rules, when_flowchart, when_groups,
    when_rows, when_table,
};
use crate::text::{strictly_sorted, strings_view, strs_view};
use crate::verify::{
    coverage, coverage_clean, duplicate_node_names, duplicate_rule_ids, edge_ids, edges_node_ids,
    empty_rule_ids, empty_rules, features_node_ids, features_rule_ids, flagged_pairs, id_pairs_view,
    never_reached, overlap_pairs, repeated_names, shared_names, unhandled, unhandled_kinds,
};
use crate::{Domain, KindOf, MachineSpec};

verus! {

/// A generated document and the defects found while building it.
pub struct Report {
    /// The document, as markdown with mermaid blocks.
    pub markdown: String,
    /// One line per check that must find nothing but did.
    pub defects: Vec<String>,
}

impl Report {
    /// Whether no defect was found.
    pub fn is_clean(&self) -> (clean: bool)
        ensures
            clean == (self.defects@.len() == 0),
    {
        self.defects.len() == 0
    }
}

/// A list as the checks print it: its items in brackets, comma separated.
pub open spec fn listed_text(items: Seq<Seq<char>>) -> Seq<char> {
    "["@ + join(items, ", "@) + "]"@
}

/// `s` in double quotes.
pub open spec fn quoted(s: Seq<char>) -> Seq<char> {
    "\""@ + s + "\""@
}

/// A (state, event kind) pair as the checks print it.
pub open spec fn pair_text<M: MachineSpec>(p: (M::Tag, KindOf<M::Domain>)) -> Seq<char> {
    "("@ + p.0.spec_name() + ", "@ + p.1.spec_name() + ")"@
}

/// The names of `items` as a list.
pub open spec fn names_text<K: Named>(items: Seq<K>) -> Seq<char> {
    listed_text(items.map_values(|k: K| k.spec_name()))
}

/// Names in double quotes as a list.
pub open spec fn quoted_text(names: Seq<Seq<char>>) -> Seq<char> {
    listed_text(names.map_values(|n: Seq<char>| quoted(n)))
}

/// One line of the checks table.
pub open spec fn check_row(name: Seq<char>, found: Seq<char>) -> Seq<char> {
    "| "@ + name + " | "@ + found + " |\n"@
}

/// The defect a check records: one line if it is a defect check and found
/// something, none otherwise.
pub open spec fn defect_of(name: Seq<char>, found: Seq<char>, failed: bool) -> Seq<Seq<char>> {
    if failed {
        seq![name + ": "@ + found]
    } else {
        Seq::empty()
    }
}

/// The heading of the checks table.
pub open spec fn checks_header() -> Seq<char> {
    "## Checks\n\n| Check | Result |\n|---|---|\n"@
}

/// Whether `s` lists exactly `names`, sorted and without repeats.
pub open spec fn sorted_as(s: Seq<Seq<char>>, names: Set<Seq<char>>) -> bool {
    strictly_sorted(s) && forall|n: Seq<char>| s.contains(n) <==> names.contains(n)
}

/// Appends a row for a check to `table`, and its defect line to `defects`
/// when `failed`.
fn check(table: &mut String, defects: &mut Vec<String>, name: &str, found: &String, failed: bool)
    ensures
        final(table)@ == old(table)@ + check_row(name@, found@),
        strings_view(final(defects)@) == strings_view(old(defects)@) + defect_of(name@, found@, failed),
{
    table.append("| ");
    table.append(name);
    table.append(" | ");
    table.append(found.as_str());
    table.append(" |\n");
    if failed {
        let ghost before = defects@;
        let mut line = String::new();
        line.append(name);
        line.append(": ");
        line.append(found.as_str());
        defects.push(line);
        assert(strings_view(defects@) =~= strings_view(before) + defect_of(name@, found@, failed));
    } else {
        assert(strings_view(defects@) =~= strings_view(defects@) + defect_of(name@, found@, failed));
    }
}

/// `parts` as a list.
fn list_of(parts: &Vec<String>) -> (text: String)
    ensures
        text@ == listed_text(strings_view(parts@)),
{
    let joined = join_with(parts, ", ");
    let mut s = String::new();
    s.append("[");
    s.append(joined.as_str());
    s.append("]");
    s
}

/// The names of `items` as a list.
fn names_list<K: Named>(items: &[K]) -> (text: String)
    ensures
        text@ == names_text(items@),
{
    let names = names_of(items);
    list_of(&names)
}

/// Names in double quotes as a list.
fn quoted_list(names: &Vec<&'static str>) -> (text: String)
    ensures
        text@ == quoted_text(strs_view(names@)),
{
    let mut parts: Vec<String> = Vec::new();
    let mut i: usize = 0;
    while i < names.len()
        invariant
            0 <= i <= names@.len(),
            strings_view(parts@) == strs_view(names@).take(i as int).map_values(|n: Seq<char>| quoted(n)),
        decreases names@.len() - i,
    {
        let ghost before = parts@;
        let mut q = String::new();
        q.append("\"");
        q.append(names[i]);
        q.append("\"");
        assert(q@ == quoted(strs_view(names@)[i as int]));
        parts.push(q);
        assert(strings_view(parts@) =~= strings_view(before).push(quoted(strs_view(names@)[i as int])));
        assert(strs_view(names@).take(i + 1).map_values(|n: Seq<char>| quoted(n)) =~= strs_view(names@).take(
            i as int,
        ).map_values(|n: Seq<char>| quoted(n)).push(quoted(strs_view(names@)[i as int])));
        i = i + 1;
    }
    assert(strs_view(names@).take(names@.len() as int) =~= strs_view(names@));
    list_of(&parts)
}

/// A pair of ids as the checks print it.
pub open spec fn id_pair_text(p: (Seq<char>, Seq<char>)) -> Seq<char> {
    "("@ + quoted(p.0) + ", "@ + quoted(p.1) + ")"@
}

/// Pairs of ids as a list.
fn id_pairs_list(pairs: &Vec<(&'static str, &'static str)>) -> (text: String)
    ensures
        text@ == listed_text(id_pairs_view(pairs@).map_values(|p: (Seq<char>, Seq<char>)| id_pair_text(p))),
{
    let ghost all = id_pairs_view(pairs@).map_values(|p: (Seq<char>, Seq<char>)| id_pair_text(p));
    let mut parts: Vec<String> = Vec::new();
    let mut i: usize = 0;
    while i < pairs.len()
        invariant
            0 <= i <= pairs@.len(),
            all == id_pairs_view(pairs@).map_values(|p: (Seq<char>, Seq<char>)| id_pair_text(p)),
            strings_view(parts@) == all.take(i as int),
        decreases pairs@.len() - i,
    {
        let (a, b) = pairs[i];
        let ghost before = parts@;
        let mut q = String::new();
        q.append("(");
        q.append("\"");
        q.append(a);
        q.append("\"");
        q.append(", ");
        q.append("\"");
        q.append(b);
        q.append("\"");
        q.append(")");
        assert(q@ =~= all[i as int]);
        parts.push(q);
        assert(strings_view(parts@) =~= strings_view(before).push(all[i as int]));
        assert(all.take(i + 1) =~= all.take(i as int).push(all[i as int]));
        i = i + 1;
    }
    assert(all.take(pairs@.len() as int) =~= all);
    list_of(&parts)
}

/// (state, event kind) pairs as a list.
fn pairs_list<M: MachineSpec>(pairs: &Vec<(M::Tag, KindOf<M::Domain>)>) -> (text: String)
    ensures
        text@ == listed_text(pairs@.map_values(|p: (M::Tag, KindOf<M::Domain>)| pair_text::<M>(p))),
{
    let mut parts: Vec<String> = Vec::new();
    let mut i: usize = 0;
    while i < pairs.len()
        invariant
            0 <= i <= pairs@.len(),
            strings_view(parts@) == pairs@.take(i as int).map_values(
                |p: (M::Tag, KindOf<M::Domain>)| pair_text::<M>(p),
            ),
        decreases pairs@.len() - i,
    {
        let (t, k) = pairs[i];
        let tn = t.name();
        let kn = k.name();
        let mut q = String::new();
        q.append("(");
        q.append(tn.as_str());
        q.append(", ");
        q.append(kn.as_str());
        q.append(")");
        let ghost before = parts@;
        assert(q@ == pair_text::<M>(pairs@[i as int]));
        parts.push(q);
        assert(strings_view(parts@) =~= strings_view(before).push(pair_text::<M>(pairs@[i as int])));
        assert(pairs@.take(i + 1).map_values(|p: (M::Tag, KindOf<M::Domain>)| pair_text::<M>(p))
            =~= pairs@.take(i as int).map_values(|p: (M::Tag, KindOf<M::Domain>)| pair_text::<M>(p)).push(
            pair_text::<M>(pairs@[i as int]),
        ));
        i = i + 1;
    }
    assert(pairs@.take(pairs@.len() as int) =~= pairs@);
    list_of(&parts)
}

// ─────────────────────────────────────────── machine

/// The (state, event kind) pairs of `M` found flagged, as a list.
pub open spec fn machine_pairs_text<M: MachineSpec>(holes: bool) -> Seq<char> {
    listed_text(
        flagged_pairs::<M>(
            M::EDGES@,
            M::IGNORES@,
            M::spec_all_tags(),
            <M::Domain as Domain>::spec_all_kinds(),
            holes,
        ).map_values(|p: (M::Tag, KindOf<M::Domain>)| pair_text::<M>(p)),
    )
}

/// The states of `M` not reached from `initial`.
pub open spec fn machine_unreached<M: MachineSpec>(initial: M::Tag) -> Seq<M::Tag> {
    never_reached::<M>(M::EDGES@, M::spec_all_tags(), initial, M::spec_all_tags())
}

/// The checks table of `M`'s report, the duplicate guard names being `dn`
/// and the duplicate edge ids `di`.
pub open spec fn machine_checks<M: MachineSpec>(
    initial: M::Tag,
    dn: Seq<Seq<char>>,
    di: Seq<Seq<char>>,
) -> Seq<char> {
    check_row("Uncovered combinations"@, machine_pairs_text::<M>(true)) + check_row(
        "Ignored but handled"@,
        machine_pairs_text::<M>(false),
    ) + check_row("Unreachable states"@, names_text(machine_unreached::<M>(initial))) + check_row(
        "Guard names used by two node types"@,
        quoted_text(dn),
    ) + check_row("Edge ids used twice"@, quoted_text(di)) + check_row(
        "Overlapping edges"@,
        listed_text(
            overlap_pairs::<M>(M::EDGES@, M::spec_all_tags(), M::EDGES@.len() as int).map_values(
                |p: (Seq<char>, Seq<char>)| id_pair_text(p),
            ),
        ),
    )
}

/// The defects of `M`'s report: one line per check that found something.
pub open spec fn machine_defects<M: MachineSpec>(
    initial: M::Tag,
    dn: Seq<Seq<char>>,
    di: Seq<Seq<char>>,
) -> Seq<Seq<char>> {
    let holes = flagged_pairs::<M>(
        M::EDGES@,
        M::IGNORES@,
        M::spec_all_tags(),
        <M::Domain as Domain>::spec_all_kinds(),
        true,
    );
    let clashes = flagged_pairs::<M>(
        M::EDGES@,
        M::IGNORES@,
        M::spec_all_tags(),
        <M::Domain as Domain>::spec_all_kinds(),
        false,
    );
    defect_of("Uncovered combinations"@, machine_pairs_text::<M>(true), holes.len() > 0) + defect_of(
        "Ignored but handled"@,
        machine_pairs_text::<M>(false),
        clashes.len() > 0,
    ) + defect_of(
        "Unreachable states"@,
        names_text(machine_unreached::<M>(initial)),
        machine_unreached::<M>(initial).len() > 0,
    ) + defect_of("Guard names used by two node types"@, quoted_text(dn), dn.len() > 0) + defect_of(
        "Edge ids used twice"@,
        quoted_text(di),
        di.len() > 0,
    )
}

/// `M`'s report: its diagram, its in-place and ignored combinations, then the
/// checks.
pub open spec fn machine_markdown<M: MachineSpec>(
    initial: M::Tag,
    dn: Seq<Seq<char>>,
    di: Seq<Seq<char>>,
) -> Seq<char>
    where <M::Domain as Domain>::Guard: CondNode<M::Domain>
{
    "# "@ + M::NAME@ + "\n\n## Transitions\n\n```mermaid\n"@ + ("stateDiagram-v2\n"@ + "    [*] --> "@
        + initial.spec_name() + "\n"@ + state_lines::<M>(<M::Tag as Enumerable>::ALL@, M::STATES@)
        + edge_arrows::<M>(M::EDGES@)) + "```\n\n## In-place transitions\n\n"@ + (
    "| state | event | guard | actions | edge id |\n|---|---|---|---|---|\n"@ + internal_lines::<M>(
        M::EDGES@,
    )) + "\n## Deliberately unhandled\n\n"@ + ("| state | event | reason |\n|---|---|---|\n"@
        + ignore_lines::<M>(M::IGNORES@)) + "\n"@ + checks_header() + machine_checks::<M>(initial, dn, di)
}

/// Reports on one machine, reading its tables from `M`.
///
/// - `initial`: the state the machine starts in.
///
/// Defects: everything [`crate::verify::Coverage::is_clean`] rejects, so the
/// report is clean exactly when the coverage is. Overlapping edges are listed
/// but are not a defect.
pub fn machine<M: MachineSpec>(initial: M::Tag) -> (r: Report)
    where <M::Domain as Domain>::Guard: CondNode<M::Domain>
    ensures
        exists|dn: Seq<Seq<char>>, di: Seq<Seq<char>>|
            #![trigger machine_markdown::<M>(initial, dn, di)]
            sorted_as(dn, shared_names(edges_node_ids::<M>(M::EDGES@))) && sorted_as(
                di,
                repeated_names(edge_ids::<M>(M::EDGES@)),
            ) && r.markdown@ == machine_markdown::<M>(initial, dn, di) && strings_view(r.defects@)
                == machine_defects::<M>(initial, dn, di),
        r.defects@.len() == 0 <==> coverage_clean::<M>(initial),
{
    let c = coverage::<M>(initial, M::EDGES, M::IGNORES);
    let ghost dn = strs_view(c.duplicate_node_names@);
    let ghost di = strs_view(c.duplicate_edge_ids@);
    let mut md = String::new();
    md.append("# ");
    md.append(M::NAME);
    md.append("\n\n## Transitions\n\n```mermaid\n");
    let diagram = state_diagram::<M>(initial, M::EDGES, M::STATES);
    md.append(diagram.as_str());
    md.append("```\n\n## In-place transitions\n\n");
    let internal = internal_table::<M>(M::EDGES);
    md.append(internal.as_str());
    md.append("\n## Deliberately unhandled\n\n");
    let ignores = ignore_table::<M>(M::IGNORES);
    md.append(ignores.as_str());
    md.append("\n");
    md.append("## Checks\n\n| Check | Result |\n|---|---|\n");
    let ghost head = md@;
    let mut table = String::new();
    let mut defects: Vec<String> = Vec::new();
    let holes = pairs_list::<M>(&c.holes);
    check(&mut table, &mut defects, "Uncovered combinations", &holes, c.holes.len() > 0);
    let clashes = pairs_list::<M>(&c.ignored_but_handled);
    check(&mut table, &mut defects, "Ignored but handled", &clashes, c.ignored_but_handled.len() > 0);
    let unreachable = names_list(c.unreachable.as_slice());
    check(&mut table, &mut defects, "Unreachable states", &unreachable, c.unreachable.len() > 0);
    let names = quoted_list(&c.duplicate_node_names);
    check(
        &mut table,
        &mut defects,
        "Guard names used by two node types",
        &names,
        c.duplicate_node_names.len() > 0,
    );
    let ids = quoted_list(&c.duplicate_edge_ids);
    check(&mut table, &mut defects, "Edge ids used twice", &ids, c.duplicate_edge_ids.len() > 0);
    let overlaps = id_pairs_list(&c.overlaps);
    let mut listed_only: Vec<String> = Vec::new();
    check(&mut table, &mut listed_only, "Overlapping edges", &overlaps, false);
    md.append(table.as_str());
    proof {
        assert(md@ =~= machine_markdown::<M>(initial, dn, di));
        assert(strings_view(defects@) =~= machine_defects::<M>(initial, dn, di));
        assert(sorted_as(dn, shared_names(edges_node_ids::<M>(M::EDGES@))));
        assert(sorted_as(di, repeated_names(edge_ids::<M>(M::EDGES@))));
        if dn.len() > 0 {
            assert(dn.contains(dn[0]));
        }
        if di.len() > 0 {
            assert(di.contains(di[0]));
        }
        if !(forall|n: Seq<char>| !shared_names(edges_node_ids::<M>(M::EDGES@)).contains(n)) {
            let n = choose|n: Seq<char>| shared_names(edges_node_ids::<M>(M::EDGES@)).contains(n);
            assert(dn.contains(n));
        }
        if !(forall|n: Seq<char>| !repeated_names(edge_ids::<M>(M::EDGES@)).contains(n)) {
            let n = choose|n: Seq<char>| repeated_names(edge_ids::<M>(M::EDGES@)).contains(n);
            assert(di.contains(n));
        }
    }
    Report { markdown: md, defects }
}


// ─────────────────────────────────────────── features

/// One trigger group's section: the group's event kinds, then its rules as a
/// table and as a flowchart.
pub open spec fn group_section<D: Domain>(
    feature: Seq<char>,
    rules: Seq<RuleSpec<D>>,
    kinds: Seq<D::EventKind>,
) -> Seq<char>
    where D::Guard: CondNode<D>
{
    "#### When "@ + values_cell(kinds) + "\n\n"@ + ("| rule | guard | emits |\n|---|---|---|\n"@ + when_rows(
        rules,
        kinds,
        rules.len() as int,
    )) + "\n```mermaid\n"@ + ("flowchart LR\n"@ + trigger_lines(feature, node_id_of("ft_"@ + feature), kinds)
        + when_flow_rules(feature, node_id_of("ft_"@ + feature), rules, kinds, rules.len() as int))
        + "```\n\n"@
}

/// The sections of `groups`, in order.
pub open spec fn group_sections<D: Domain>(
    feature: Seq<char>,
    rules: Seq<RuleSpec<D>>,
    groups: Seq<Seq<D::EventKind>>,
) -> Seq<char>
    where D::Guard: CondNode<D>
    decreases groups.len(),
{
    if groups.len() == 0 {
        Seq::empty()
    } else {
        group_sections(feature, rules, groups.drop_last()) + group_section(feature, rules, groups.last())
    }
}

/// Each feature's section: its name, then one section per trigger group of
/// its rules.
pub open spec fn by_feature<D: Domain>(features: Seq<&dyn AnyFeature<D>>) -> Seq<char>
    where D::Guard: CondNode<D>
    decreases features.len(),
{
    if features.len() == 0 {
        Seq::empty()
    } else {
        by_feature(features.drop_last()) + "### "@ + features.last().spec_name() + "\n\n"@ + group_sections(
            features.last().spec_name(),
            features.last().spec_rules(),
            group_whens(features.last().spec_rules(), features.last().spec_rules().len() as int),
        )
    }
}

/// The checks table of a feature list's report, the duplicate guard names
/// being `dn` and the duplicate rule ids `di`.
pub open spec fn features_checks<D: Domain>(
    features: Seq<&dyn AnyFeature<D>>,
    dn: Seq<Seq<char>>,
    di: Seq<Seq<char>>,
) -> Seq<char>
    where D::Guard: CondNode<D>
{
    check_row("Events nothing handles"@, names_text(unhandled(D::spec_all_kinds(), features))) + check_row(
        "Guard names used by two node types"@,
        quoted_text(dn),
    ) + check_row("Rule ids used twice"@, quoted_text(di)) + check_row(
        "Rules with no event or no action"@,
        quoted_text(empty_rule_ids(features)),
    )
}

/// The defects of a feature list's report. Unhandled kinds are listed but are
/// not a defect.
pub open spec fn features_defects<D: Domain>(
    features: Seq<&dyn AnyFeature<D>>,
    dn: Seq<Seq<char>>,
    di: Seq<Seq<char>>,
) -> Seq<Seq<char>>
    where D::Guard: CondNode<D>
{
    defect_of("Guard names used by two node types"@, quoted_text(dn), dn.len() > 0) + defect_of(
        "Rule ids used twice"@,
        quoted_text(di),
        di.len() > 0,
    ) + defect_of(
        "Rules with no event or no action"@,
        quoted_text(empty_rule_ids(features)),
        empty_rule_ids(features).len() > 0,
    )
}

/// A feature list's report: what each feature handles and emits, every rule,
/// each feature split by the set of events its rules react to, then the
/// checks.
pub open spec fn features_markdown<D: Domain>(
    title: Seq<char>,
    features: Seq<&dyn AnyFeature<D>>,
    dn: Seq<Seq<char>>,
    di: Seq<Seq<char>>,
) -> Seq<char>
    where D::Guard: CondNode<D>
{
    "# "@ + title + "\n\n## Features\n\n"@ + (io_header() + io_lines(features)) + "\n## Rules\n\n"@ + (
    rule_header() + rule_table_lines(features)) + "\n## By feature\n\n"@ + by_feature(features)
        + checks_header() + features_checks(features, dn, di)
}

/// Reports on a feature list.
///
/// - `title`: the document heading.
/// - `feature_list`: the controller's feature list.
///
/// Defects: guard names used by two node types, repeated rule ids, rules with
/// no event or no action. Unhandled event kinds are listed but are not a
/// defect.
pub fn features<D: Domain>(title: &str, feature_list: &[&dyn AnyFeature<D>]) -> (r: Report)
    where D::Guard: CondNode<D>
    ensures
        exists|dn: Seq<Seq<char>>, di: Seq<Seq<char>>|
            #![trigger features_markdown(title@, feature_list@, dn, di)]
            sorted_as(dn, shared_names(features_node_ids(feature_list@))) && sorted_as(
                di,
                repeated_names(features_rule_ids(feature_list@)),
            ) && r.markdown@ == features_markdown(title@, feature_list@, dn, di) && strings_view(r.defects@)
                == features_defects(feature_list@, dn, di),
        r.defects@.len() == 0 <==> ((forall|n: Seq<char>| !shared_names(features_node_ids(feature_list@)).contains(n))
            && (forall|n: Seq<char>| !repeated_names(features_rule_ids(feature_list@)).contains(n))
            && empty_rule_ids(feature_list@).len() == 0),
{
    let mut md = String::new();
    md.append("# ");
    md.append(title);
    md.append("\n\n## Features\n\n");
    let io = io_table(feature_list);
    md.append(io.as_str());
    md.append("\n## Rules\n\n");
    let rules = rule_table(feature_list);
    md.append(rules.as_str());
    md.append("\n## By feature\n\n");
    let ghost head = md@;
    let mut i: usize = 0;
    assert(md@ =~= head + by_feature(feature_list@.take(0)));
    while i < feature_list.len()
        invariant
            0 <= i <= feature_list@.len(),
            md@ == head + by_feature(feature_list@.take(i as int)),
        decreases feature_list@.len() - i,
    {
        let f = feature_list[i];
        let ghost rules = f.spec_rules();
        let name = f.name();
        md.append("### ");
        md.append(name);
        md.append("\n\n");
        let ghost start = md@;
        let groups = when_groups(f);
        let ghost views = groups@.map_values(|g: &'static [D::EventKind]| g@);
        let mut k: usize = 0;
        assert(md@ =~= start + group_sections(name@, rules, views.take(0)));
        while k < groups.len()
            invariant
                0 <= k <= groups@.len(),
                views == groups@.map_values(|g: &'static [D::EventKind]| g@),
                md@ == start + group_sections(name@, rules, views.take(k as int)),
                rules == f.spec_rules(),
                name@ == f.spec_name(),
            decreases groups@.len() - k,
        {
            let ghost prev = md@;
            md.append("#### When ");
            let kinds = join_values(groups[k]);
            md.append(kinds.as_str());
            md.append("\n\n");
            let table = when_table(f, groups[k]);
            md.append(table.as_str());
            md.append("\n```mermaid\n");
            let chart = when_flowchart(f, groups[k]);
            md.append(chart.as_str());
            md.append("```\n\n");
            proof {
                assert(views[k as int] == groups@[k as int]@);
                assert(kinds@ == values_cell(views[k as int]));
                assert(table@ == "| rule | guard | emits |\n|---|---|---|\n"@ + when_rows(rules, views[k as int], rules.len() as int));
                assert(chart@ == "flowchart LR\n"@ + trigger_lines(name@, node_id_of("ft_"@ + name@), views[k as int])
                    + when_flow_rules(name@, node_id_of("ft_"@ + name@), rules, views[k as int], rules.len() as int));
                assert(md@ =~= prev + group_section(name@, rules, views[k as int]));
                assert(views.take(k + 1).drop_last() =~= views.take(k as int));
                assert(md@ =~= start + group_sections(name@, rules, views.take(k + 1)));
            }
            k = k + 1;
        }
        proof {
            assert(views.take(groups@.len() as int) =~= views);
            assert(feature_list@.take(i + 1).drop_last() =~= feature_list@.take(i as int));
            assert(feature_list@.take(i + 1).last() == f);
            assert(md@ =~= head + by_feature(feature_list@.take(i + 1)));
        }
        i = i + 1;
    }
    assert(feature_list@.take(feature_list@.len() as int) =~= feature_list@);
    md.append("## Checks\n\n| Check | Result |\n|---|---|\n");
    let unhandled_list = unhandled_kinds(feature_list);
    let names = duplicate_node_names(feature_list);
    let ids = duplicate_rule_ids(feature_list);
    let empties = empty_rules(feature_list);
    let ghost dn = strs_view(names@);
    let ghost di = strs_view(ids@);
    let mut table = String::new();
    let mut defects: Vec<String> = Vec::new();
    let unhandled_text = names_list(unhandled_list.as_slice());
    let mut info: Vec<String> = Vec::new();
    check(&mut table, &mut info, "Events nothing handles", &unhandled_text, false);
    let names_text = quoted_list(&names);
    check(&mut table, &mut defects, "Guard names used by two node types", &names_text, names.len() > 0);
    let ids_text = quoted_list(&ids);
    check(&mut table, &mut defects, "Rule ids used twice", &ids_text, ids.len() > 0);
    let empties_text = quoted_list(&empties);
    check(&mut table, &mut defects, "Rules with no event or no action", &empties_text, empties.len() > 0);
    md.append(table.as_str());
    proof {
        assert(md@ =~= features_markdown(title@, feature_list@, dn, di));
        assert(strings_view(defects@) =~= features_defects(feature_list@, dn, di));
        assert(sorted_as(dn, shared_names(features_node_ids(feature_list@))));
        assert(sorted_as(di, repeated_names(features_rule_ids(feature_list@))));
        if dn.len() > 0 {
            assert(dn.contains(dn[0]));
        }
        if di.len() > 0 {
            assert(di.contains(di[0]));
        }
        if !(forall|n: Seq<char>| !shared_names(features_node_ids(feature_list@)).contains(n)) {
            let n = choose|n: Seq<char>| shared_names(features_node_ids(feature_list@)).contains(n);
            assert(dn.contains(n));
        }
        if !(forall|n: Seq<char>| !repeated_names(features_rule_ids(feature_list@)).contains(n)) {
            let n = choose|n: Seq<char>| repeated_names(features_rule_ids(feature_list@)).contains(n);
            assert(di.contains(n));
        }
    }
    Report { markdown: md, defects }
}

} // verus!
