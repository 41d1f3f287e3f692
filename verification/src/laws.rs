//! What holds of every resolution.

use crate::active::{declares_active, is_active, lemma_active_dependencies};
use crate::candidate::{
    admissible_but_for_policy, admits_prereleases, constraint_admits, in_index, release_at,
    required_here, Resolver,
};
use crate::completeness::{complete, lemma_found_where_possible, lemma_none_missing};
use crate::graph::{
    by_name, edges_among, edges_upto, extras_of, graph_of, lemma_text_point, name_of, names_of,
    text_point, EdgeView, GraphView,
};
use crate::index::lemma_package_from;
use crate::manifest::PreReleaseMode;
use crate::resolve::{decisions, first_violation, resolution, violates_policy, ResolveErrorView};
use crate::solver::{
    active, active_dependencies, conflict, decision_ok, extra_from, first_missing, holder,
    lemma_holder, offered, pick, requirement_at, solution, target, DecisionView, Origin,
};
use crate::soundness::{
    asks_extra, distinct, extra_justified, justified, justifies, lemma_empty_sound,
    lemma_extra_from, lemma_search_sound, satisfied, settled, sound,
};
use crate::specifier::all_satisfied;
use crate::text::{
    lemma_text_order_composes, lemma_text_order_equal, lemma_text_order_flips, lists,
    text_order,
};
use crate::version::{prerelease, Order};
use vstd::prelude::*;

verus! {

/// The decisions that a successful resolution ends with.
pub open spec fn outcome(p: Resolver) -> Seq<DecisionView> {
    decisions(p)->0
}

/// Whether the decisions were found only in the second pass.
pub open spec fn second_pass(p: Resolver) -> bool {
    solution(p, false, Seq::empty()) is None
}

/// A list with one more item put in holds what it held, and the item.
pub proof fn lemma_insert_contains<T>(s: Seq<T>, at: int, a: T, x: T)
    requires
        0 <= at <= s.len(),
    ensures
        s.insert(at, a).contains(x) == (s.contains(x) || x == a),
{
    let t = s.insert(at, a);
    if s.contains(x) {
        let k = choose|k: int| 0 <= k < s.len() && s[k] == x;
        if k < at {
            assert(t[k] == x);
        } else {
            assert(t[k + 1] == x);
        }
    }
    if x == a {
        assert(t[at] == x);
    }
    if t.contains(x) {
        let k = choose|k: int| 0 <= k < t.len() && t[k] == x;
        if k < at {
            assert(s[k] == x);
        } else if k > at {
            assert(s[k - 1] == x);
        }
    }
}

/// The decisions in the order of the names are the same decisions.
pub proof fn lemma_by_name(p: Resolver, ds: Seq<DecisionView>, n: int, d: DecisionView)
    requires
        0 <= n <= ds.len(),
    ensures
        by_name(p, ds, n).len() == n,
        by_name(p, ds, n).contains(d) == ds.take(n).contains(d),
    decreases n,
{
    if n > 0 {
        lemma_by_name(p, ds, n - 1, d);
        let sorted = by_name(p, ds, n - 1);
        let at = text_point(names_of(p, sorted), name_of(p, ds[n - 1]), 0);
        lemma_text_point(names_of(p, sorted), name_of(p, ds[n - 1]), 0);
        lemma_insert_contains(sorted, at, ds[n - 1], d);
        assert(ds.take(n) =~= ds.take(n - 1).push(ds[n - 1]));
        crate::active::lemma_push_contains(ds.take(n - 1), ds[n - 1], d);
    } else {
        assert(!ds.take(0).contains(d));
    }
}

/// Every node stands for one of the decisions.
pub proof fn lemma_node_is_decision(p: Resolver, ds: Seq<DecisionView>, n: int) -> (i: int)
    requires
        0 <= n < by_name(p, ds, ds.len() as int).len(),
    ensures
        0 <= i < ds.len(),
        ds[i] == by_name(p, ds, ds.len() as int)[n],
{
    let sorted = by_name(p, ds, ds.len() as int);
    lemma_by_name(p, ds, ds.len() as int, sorted[n]);
    assert(ds.take(ds.len() as int) =~= ds);
    assert(sorted.contains(sorted[n]));
    choose|i: int| 0 <= i < ds.len() && ds[i] == sorted[n]
}

/// Every decision has its node.
pub proof fn lemma_decision_has_node(p: Resolver, ds: Seq<DecisionView>, i: int) -> (n: int)
    requires
        0 <= i < ds.len(),
    ensures
        0 <= n < by_name(p, ds, ds.len() as int).len(),
        by_name(p, ds, ds.len() as int).len() == ds.len(),
        ds[i] == by_name(p, ds, ds.len() as int)[n],
{
    let sorted = by_name(p, ds, ds.len() as int);
    lemma_by_name(p, ds, ds.len() as int, ds[i]);
    assert(ds.take(ds.len() as int) =~= ds);
    assert(ds.contains(ds[i]));
    choose|n: int| 0 <= n < sorted.len() && sorted[n] == ds[i]
}

/// A successful resolution is the graph of decisions that the search left
/// sound and settled.
pub proof fn lemma_outcome(p: Resolver)
    requires
        resolution(p) is Ok,
    ensures
        decisions(p) is Some,
        resolution(p)->Ok_0 == graph_of(p, outcome(p)),
        sound(p, second_pass(p), outcome(p)),
        settled(p, outcome(p)),
        by_name(p, outcome(p), outcome(p).len() as int).len() == outcome(p).len(),
{
    lemma_empty_sound(p, false);
    lemma_empty_sound(p, true);
    lemma_search_sound(p, false, Seq::empty());
    lemma_search_sound(p, true, Seq::empty());
    let ds = outcome(p);
    if ds.len() > 0 {
        let n = lemma_decision_has_node(p, ds, 0);
    } else {
        assert(by_name(p, ds, 0).len() == 0);
    }
}

/// What an edge among those of node `a` is.
pub proof fn lemma_edges_among(
    p: Resolver,
    sorted: Seq<DecisionView>,
    a: int,
    refs: Seq<Origin>,
    n: int,
    e: EdgeView,
)
    requires
        0 <= n <= refs.len(),
        edges_among(p, sorted, a, refs, n).contains(e),
    ensures
        e.from == a,
        e.to != a,
        refs.contains(e.requirement),
        target(p, e.requirement) matches Some(pi) && holder(sorted, pi) == Some(e.to),
    decreases n,
{
    if n > 0 {
        let earlier = edges_among(p, sorted, a, refs, n - 1);
        if earlier.contains(e) {
            lemma_edges_among(p, sorted, a, refs, n - 1, e);
        } else {
            match target(p, refs[n - 1]) {
                Some(pi) => match holder(sorted, pi) {
                    Some(t) => {
                        if t != a {
                            let made = EdgeView { from: a, to: t, requirement: refs[n - 1] };
                            crate::active::lemma_push_contains(earlier, made, e);
                            assert(e == made);
                            assert(refs[n - 1] == e.requirement);
                        }
                    },
                    None => {},
                },
                None => {},
            }
        }
    } else {
        assert(edges_among(p, sorted, a, refs, n) =~= Seq::<EdgeView>::empty());
    }
}

/// What an edge of the graph is: it leaves a node whose release declares
/// its requirement, which applies to it, and it enters the other node that
/// stands for the package that the requirement names.
pub proof fn lemma_edges_upto(p: Resolver, sorted: Seq<DecisionView>, m: int, e: EdgeView)
    requires
        0 <= m <= sorted.len(),
        edges_upto(p, sorted, m).contains(e),
    ensures
        0 <= e.from < m,
        e.to != e.from,
        declares_active(p, sorted[e.from], e.requirement),
        target(p, e.requirement) matches Some(pi) && holder(sorted, pi) == Some(e.to),
    decreases m,
{
    if m > 0 {
        let refs = active_dependencies(p, sorted[m - 1]);
        let earlier = edges_upto(p, sorted, m - 1);
        let last = edges_among(p, sorted, m - 1, refs, refs.len() as int);
        crate::active::lemma_add_contains(earlier, last, e);
        if earlier.contains(e) {
            lemma_edges_upto(p, sorted, m - 1, e);
        } else {
            lemma_edges_among(p, sorted, m - 1, refs, refs.len() as int, e);
            lemma_active_dependencies(p, sorted[m - 1], e.requirement);
        }
    } else {
        assert(edges_upto(p, sorted, m) =~= Seq::<EdgeView>::empty());
    }
}

/// Among distinct decisions there is one holder for a package.
pub proof fn lemma_one_holder(ds: Seq<DecisionView>, i: int, h: int)
    requires
        distinct(ds),
        0 <= i < ds.len(),
        0 <= h < ds.len(),
        ds[i].package == ds[h].package,
    ensures
        i == h,
{
    if i < h {
        assert(ds[i].package != ds[h].package);
    } else if h < i {
        assert(ds[h].package != ds[i].package);
    }
}

/// Every node is a release of the snapshot under its name and version,
/// and one that may be chosen: its metadata is known, it was not
/// withdrawn unless pinned, a file of it can be used, every constraint
/// admits it, and it is a pre-release only where the options admit that.
pub proof fn lemma_nodes_are_admissible(p: Resolver, n: int)
    requires
        resolution(p) is Ok,
        0 <= n < resolution(p)->Ok_0.nodes.len(),
    ensures
        ({
            let node = resolution(p)->Ok_0.nodes[n];
            let pi = node.decision.package as int;
            let ri = node.decision.release as int;
            &&& in_index(p, pi, ri)
            &&& node.name == p.index.packages@[pi].name@
            &&& node.version == release_at(p, pi, ri).version@
            &&& admissible_but_for_policy(p, pi, ri)
            &&& prerelease(node.version) ==> admits_prereleases(p, true, pi)
        }),
{
    lemma_outcome(p);
    let ds = outcome(p);
    let i = lemma_node_is_decision(p, ds, n);
    assert(crate::solver::decision_ok(p, ds[i]));
    assert(crate::candidate::admissible(
        p,
        second_pass(p),
        ds[i].package as int,
        ds[i].release as int,
    ));
}

/// Every constraint admits the version of every node of its package.
pub proof fn lemma_constraints_hold(p: Resolver, n: int, c: int)
    requires
        resolution(p) is Ok,
        0 <= n < resolution(p)->Ok_0.nodes.len(),
        0 <= c < p.manifest.constraints@.len(),
    ensures
        ({
            let node = resolution(p)->Ok_0.nodes[n];
            let constraint = p.manifest.constraints@[c];
            constraint.name@ == node.name && required_here(p, constraint) ==> all_satisfied(
                constraint.specifiers@,
                node.version,
            )
        }),
{
    lemma_nodes_are_admissible(p, n);
    let node = resolution(p)->Ok_0.nodes[n];
    assert(constraint_admits(p, c, node.name, node.version));
}

/// For every requirement of the manifest that applies on the target there
/// is a node of that name whose version the requirement admits.
pub proof fn lemma_roots_are_met(p: Resolver, i: int) -> (n: int)
    requires
        resolution(p) is Ok,
        0 <= i < p.manifest.requirements@.len(),
        required_here(p, p.manifest.requirements@[i]),
    ensures
        0 <= n < resolution(p)->Ok_0.nodes.len(),
        resolution(p)->Ok_0.nodes[n].name == p.manifest.requirements@[i].name@,
        all_satisfied(p.manifest.requirements@[i].specifiers@, resolution(p)->Ok_0.nodes[n].version),
{
    lemma_outcome(p);
    let ds = outcome(p);
    let o = Origin::Manifest { index: i as usize };
    assert(is_active(p, ds, o));
    assert(satisfied(p, ds, o));
    let pi = target(p, o)->0;
    lemma_package_from(p.index.packages, requirement_at(p, o).name@, 0);
    let h = holder(ds, pi)->0;
    lemma_holder(ds, pi, 0);
    lemma_decision_has_node(p, ds, h)
}

/// The version of every node satisfies every edge that enters it: the
/// requirement of an edge is one that the release of the source node
/// declares and that applies to it, it names the package of the target
/// node, another node, and it admits the version of the target node.
pub proof fn lemma_edges_are_met(p: Resolver, e: int)
    requires
        resolution(p) is Ok,
        0 <= e < resolution(p)->Ok_0.edges.len(),
    ensures
        ({
            let g = resolution(p)->Ok_0;
            let edge = g.edges[e];
            &&& 0 <= edge.from < g.nodes.len()
            &&& 0 <= edge.to < g.nodes.len()
            &&& edge.from != edge.to
            &&& declares_active(p, g.nodes[edge.from].decision, edge.requirement)
            &&& requirement_at(p, edge.requirement).name@ == g.nodes[edge.to].name
            &&& all_satisfied(requirement_at(p, edge.requirement).specifiers@, g.nodes[edge.to].version)
        }),
{
    lemma_outcome(p);
    let ds = outcome(p);
    let g = resolution(p)->Ok_0;
    let sorted = by_name(p, ds, ds.len() as int);
    let edge = g.edges[e];
    assert(g.edges.contains(edge));
    lemma_edges_upto(p, sorted, sorted.len() as int, edge);
    let o = edge.requirement;
    let from = lemma_node_is_decision(p, ds, edge.from);
    assert(declares_active(p, ds[from], o));
    assert(is_active(p, ds, o));
    assert(satisfied(p, ds, o));
    let pi = target(p, o)->0;
    lemma_package_from(p.index.packages, requirement_at(p, o).name@, 0);
    lemma_holder(sorted, pi, 0);
    lemma_holder(ds, pi, 0);
    let h = holder(ds, pi)->0;
    let to = lemma_node_is_decision(p, ds, edge.to);
    lemma_one_holder(ds, to, h);
}

/// Whether the requirement at `o` asks for node `n`: it names the node's
/// package, and it is a requirement of the manifest that applies on the
/// target, or one that the release of another node declares and that
/// applies to that release.
pub open spec fn asks_for(p: Resolver, g: GraphView, n: int, o: Origin) -> bool {
    requirement_at(p, o).name@ == g.nodes[n].name && match o {
        Origin::Manifest { index } => index < p.manifest.requirements@.len() && required_here(
            p,
            p.manifest.requirements@[index as int],
        ),
        Origin::Release { .. } => exists|m: int|
            0 <= m < g.nodes.len() && m != n && declares_active(p, (#[trigger] g.nodes[m]).decision, o),
    }
}

/// Every node is asked for by a requirement that applies: a package that
/// only requirements with false markers name never becomes a node.
pub proof fn lemma_nodes_are_asked_for(p: Resolver, n: int) -> (o: Origin)
    requires
        resolution(p) is Ok,
        0 <= n < resolution(p)->Ok_0.nodes.len(),
    ensures
        asks_for(p, resolution(p)->Ok_0, n, o),
{
    lemma_outcome(p);
    let ds = outcome(p);
    let g = resolution(p)->Ok_0;
    let i = lemma_node_is_decision(p, ds, n);
    assert(justified(p, ds, i));
    let o = choose|o: Origin| #[trigger] justifies(p, ds, i, o);
    lemma_package_from(p.index.packages, requirement_at(p, o).name@, 0);
    match o {
        Origin::Manifest { .. } => {},
        Origin::Release { .. } => {
            let before = ds.take(i);
            let j = choose|j: int| 0 <= j < before.len() && declares_active(p, #[trigger] before[j], o);
            assert(before[j] == ds[j]);
            let m = lemma_decision_has_node(p, ds, j);
            if m == n {
                lemma_one_holder(ds, i, j);
            }
            assert(declares_active(p, g.nodes[m].decision, o));
        },
    }
    o
}

/// An empty manifest resolves to the empty graph.
pub proof fn lemma_empty_manifest(p: Resolver)
    requires
        p.manifest.requirements@.len() == 0,
    ensures
        resolution(p) == Ok::<GraphView, crate::resolve::ResolveErrorView>(
            GraphView { nodes: Seq::empty(), edges: Seq::empty() },
        ),
{
    let none = Seq::<DecisionView>::empty();
    let refs = active(p, none);
    assert(refs =~= Seq::<Origin>::empty());
    assert(first_violation(p, 0) is None);
    assert(!conflict(p, none, refs));
    assert(first_missing(p, none, refs, 0) is None);
    assert(pick(p, false, none, refs, refs.len() as int) is None);
    assert(solution(p, false, none) == Some(none));
    let g = graph_of(p, none);
    assert(g.nodes =~= Seq::empty());
    assert(g.edges =~= Seq::empty());
}

/// The decisions of a successful resolution answer the manifest.
pub proof fn lemma_success_answers(p: Resolver)
    requires
        resolution(p) is Ok,
    ensures
        first_violation(p, 0) is None,
        complete(p, second_pass(p), outcome(p)),
        second_pass(p) ==> p.options.prerelease == PreReleaseMode::IfNecessary,
{
    lemma_outcome(p);
}

/// Where no requirement goes against the options and some decisions
/// answer the manifest without a second pass, the resolution succeeds.
pub proof fn lemma_success_is_owed(p: Resolver, t: Seq<DecisionView>)
    requires
        first_violation(p, 0) is None,
        complete(p, false, t),
    ensures
        resolution(p) is Ok,
{
    lemma_found_where_possible(p, false, t);
}

/// The same where the options say `IfNecessary` and the decisions answer
/// the manifest in a second pass.
pub proof fn lemma_success_is_owed_if_necessary(p: Resolver, t: Seq<DecisionView>)
    requires
        first_violation(p, 0) is None,
        p.options.prerelease == PreReleaseMode::IfNecessary,
        complete(p, true, t),
    ensures
        resolution(p) is Ok,
{
    lemma_found_where_possible(p, true, t);
}

/// Where the resolution finds no solution, no decisions answer the
/// manifest: not without a second pass, and where the options say
/// `IfNecessary` not in a second pass either.
pub proof fn lemma_no_solution_is_none(p: Resolver, t: Seq<DecisionView>)
    requires
        resolution(p) matches Err(ResolveErrorView::NoSolution { .. }),
    ensures
        !complete(p, false, t),
        p.options.prerelease == PreReleaseMode::IfNecessary ==> !complete(p, true, t),
{
    if complete(p, false, t) {
        lemma_found_where_possible(p, false, t);
    }
    if p.options.prerelease == PreReleaseMode::IfNecessary && complete(p, true, t) {
        lemma_found_where_possible(p, true, t);
    }
}

/// The requirement that a policy violation names is the first of the
/// manifest that goes against the options.
pub proof fn lemma_first_violation(p: Resolver, from: int)
    requires
        0 <= from,
    ensures
        match first_violation(p, from) {
            Some(i) => from <= i < p.manifest.requirements@.len() && violates_policy(p, i as int)
                && forall|k: int| from <= k < i ==> !#[trigger] violates_policy(p, k),
            None => forall|k: int|
                from <= k < p.manifest.requirements@.len() ==> !#[trigger] violates_policy(p, k),
        },
    decreases p.manifest.requirements.len() - from,
{
    if from < p.manifest.requirements.len() && !violates_policy(p, from) {
        lemma_first_violation(p, from + 1);
    }
}

/// Where a text is put into a sorted list: after all that do not come
/// after it, and before one that does.
pub proof fn lemma_text_point_place(sorted: Seq<Seq<char>>, text: Seq<char>, from: int)
    requires
        0 <= from <= sorted.len(),
    ensures
        forall|k: int|
            from <= k < text_point(sorted, text, from) ==> text_order(text, #[trigger] sorted[k])
                != Order::Less,
        text_point(sorted, text, from) < sorted.len() ==> text_order(
            text,
            sorted[text_point(sorted, text, from)],
        ) == Order::Less,
    decreases sorted.len() - from,
{
    if from < sorted.len() && text_order(text, sorted[from]) != Order::Less {
        lemma_text_point_place(sorted, text, from + 1);
    }
}

/// Whether no text of the list comes before one that stands before it.
pub open spec fn ascending_texts(texts: Seq<Seq<char>>) -> bool {
    forall|i: int, j: int|
        #![trigger texts[i], texts[j]]
        0 <= i < j < texts.len() ==> text_order(texts[i], texts[j]) != Order::Greater
}

/// A text put at its place into an ascending list leaves the list ascending.
pub proof fn lemma_insert_ascending(sorted: Seq<Seq<char>>, text: Seq<char>)
    requires
        ascending_texts(sorted),
    ensures
        ascending_texts(sorted.insert(text_point(sorted, text, 0), text)),
{
    let at = text_point(sorted, text, 0);
    lemma_text_point(sorted, text, 0);
    lemma_text_point_place(sorted, text, 0);
    let after = sorted.insert(at, text);
    assert forall|i: int, j: int|
        #![trigger after[i], after[j]]
        0 <= i < j < after.len() implies text_order(after[i], after[j]) != Order::Greater by {
        if j == at {
            // after[i] stands before the place: the text does not come before it
            assert(after[i] == sorted[i]);
            lemma_text_order_flips(text, sorted[i], 0);
        } else if i == at {
            // after[j] stands from the place on: it comes after the text
            let x = sorted[j - 1];
            assert(after[j] == x);
            if j - 1 > at {
                assert(text_order(sorted[at], x) != Order::Greater);
                lemma_text_order_composes(text, sorted[at], x, 0);
            }
        } else {
            let a = if i < at {
                i
            } else {
                i - 1
            };
            let b = if j < at {
                j
            } else {
                j - 1
            };
            assert(after[i] == sorted[a]);
            assert(after[j] == sorted[b]);
        }
    }
}

/// The decisions in the order of the names are in ascending order of the names.
pub proof fn lemma_by_name_ascending(p: Resolver, ds: Seq<DecisionView>, n: int)
    requires
        0 <= n <= ds.len(),
    ensures
        ascending_texts(names_of(p, by_name(p, ds, n))),
    decreases n,
{
    if n > 0 {
        lemma_by_name_ascending(p, ds, n - 1);
        let sorted = by_name(p, ds, n - 1);
        let names = names_of(p, sorted);
        let name = name_of(p, ds[n - 1]);
        lemma_insert_ascending(names, name);
        lemma_text_point(names, name, 0);
        assert(names_of(p, by_name(p, ds, n)) =~= names.insert(text_point(names, name, 0), name));
    }
}

/// The nodes of a graph stand in ascending order of their names, and no
/// two of them have one name.
pub proof fn lemma_nodes_in_order(p: Resolver, i: int, j: int)
    requires
        resolution(p) is Ok,
        0 <= i < j < resolution(p)->Ok_0.nodes.len(),
    ensures
        text_order(resolution(p)->Ok_0.nodes[i].name, resolution(p)->Ok_0.nodes[j].name)
            == Order::Less,
{
    lemma_outcome(p);
    let ds = outcome(p);
    let sorted = by_name(p, ds, ds.len() as int);
    lemma_by_name_ascending(p, ds, ds.len() as int);
    let names = names_of(p, sorted);
    assert(text_order(names[i], names[j]) != Order::Greater);
    // two nodes of one name would be two decisions for one package
    let a = lemma_node_is_decision(p, ds, i);
    let b = lemma_node_is_decision(p, ds, j);
    lemma_text_order_equal(names[i], names[j]);
    if names[i] == names[j] {
        lemma_nodes_differ(p, ds, i, j);
    }
}

/// Two places of the sorted decisions hold two decisions.
pub proof fn lemma_by_name_keeps_apart(p: Resolver, ds: Seq<DecisionView>, n: int)
    requires
        0 <= n <= ds.len(),
        distinct(ds),
    ensures
        distinct(by_name(p, ds, n)),
    decreases n,
{
    if n > 0 {
        lemma_by_name_keeps_apart(p, ds, n - 1);
        let sorted = by_name(p, ds, n - 1);
        let d = ds[n - 1];
        let at = text_point(names_of(p, sorted), name_of(p, d), 0);
        lemma_text_point(names_of(p, sorted), name_of(p, d), 0);
        let after = sorted.insert(at, d);
        assert forall|i: int, j: int|
            #![trigger after[i], after[j]]
            0 <= i < j < after.len() implies after[i].package != after[j].package by {
            let other = if i == at {
                j
            } else {
                i
            };
            if i == at || j == at {
                let k = if other < at {
                    other
                } else {
                    other - 1
                };
                assert(after[other] == sorted[k]);
                lemma_by_name(p, ds, n - 1, sorted[k]);
                assert(sorted.contains(sorted[k]));
                let front = ds.take(n - 1);
                let m = choose|m: int| 0 <= m < front.len() && front[m] == sorted[k];
                assert(front[m] == ds[m]);
                assert(ds[m].package != ds[n - 1].package);
            } else {
                let a = if i < at {
                    i
                } else {
                    i - 1
                };
                let b = if j < at {
                    j
                } else {
                    j - 1
                };
                assert(after[i] == sorted[a]);
                assert(after[j] == sorted[b]);
                assert(sorted[a].package != sorted[b].package);
            }
        }
    }
}

/// Two nodes of a sound state have two names.
pub proof fn lemma_nodes_differ(p: Resolver, ds: Seq<DecisionView>, i: int, j: int)
    requires
        sound(p, second_pass(p), ds),
        0 <= i < j < by_name(p, ds, ds.len() as int).len(),
    ensures
        name_of(p, by_name(p, ds, ds.len() as int)[i]) != name_of(
            p,
            by_name(p, ds, ds.len() as int)[j],
        ),
{
    let sorted = by_name(p, ds, ds.len() as int);
    lemma_by_name_keeps_apart(p, ds, ds.len() as int);
    assert(sorted[i].package != sorted[j].package);
    let a = lemma_node_is_decision(p, ds, i);
    let b = lemma_node_is_decision(p, ds, j);
    assert(justified(p, ds, a));
    assert(justified(p, ds, b));
    let oa = choose|o: Origin| #[trigger] justifies(p, ds, a, o);
    let ob = choose|o: Origin| #[trigger] justifies(p, ds, b, o);
    lemma_package_from(p.index.packages, requirement_at(p, oa).name@, 0);
    lemma_package_from(p.index.packages, requirement_at(p, ob).name@, 0);
}

/// Whether extra `j` of the release of `d` is asked for and is named `extra`.
pub open spec fn flagged(p: Resolver, d: DecisionView, j: int, extra: Seq<char>) -> bool {
    d.extras[j] && offered(p, d.package as int, d.release as int)[j]@ == extra
}

/// The extras of a node are the names of the extras that are asked of its release.
pub proof fn lemma_extras_of(p: Resolver, d: DecisionView, n: int, extra: Seq<char>)
    requires
        0 <= n <= d.extras.len(),
    ensures
        extras_of(p, d, n).contains(extra) == exists|j: int|
            0 <= j < n && #[trigger] flagged(p, d, j, extra),
    decreases n,
{
    if n > 0 {
        lemma_extras_of(p, d, n - 1, extra);
        let sorted = extras_of(p, d, n - 1);
        if d.extras[n - 1] {
            let name = offered(p, d.package as int, d.release as int)[n - 1]@;
            lemma_text_point(sorted, name, 0);
            lemma_insert_contains(sorted, text_point(sorted, name, 0), name, extra);
            if name == extra {
                assert(flagged(p, d, n - 1, extra));
            }
        }
        if exists|j: int| 0 <= j < n && #[trigger] flagged(p, d, j, extra) {
            let j = choose|j: int| 0 <= j < n && #[trigger] flagged(p, d, j, extra);
            if j < n - 1 {
                assert(flagged(p, d, j, extra));
            }
        }
    } else {
        assert(!extras_of(p, d, n).contains(extra));
    }
}

/// Whether the requirement at `o` applies in the graph: it is a
/// requirement of the manifest that applies on the target, or one that the
/// release of a node declares and that applies to it.
pub open spec fn applies_in(p: Resolver, g: GraphView, o: Origin) -> bool {
    match o {
        Origin::Manifest { index } => index < p.manifest.requirements@.len() && required_here(
            p,
            p.manifest.requirements@[index as int],
        ),
        Origin::Release { .. } => exists|m: int|
            0 <= m < g.nodes.len() && declares_active(p, (#[trigger] g.nodes[m]).decision, o),
    }
}

/// What applies in the graph of a resolution is what applies to its decisions.
pub proof fn lemma_applies_in(p: Resolver, o: Origin)
    requires
        resolution(p) is Ok,
    ensures
        applies_in(p, resolution(p)->Ok_0, o) == is_active(p, outcome(p), o),
{
    lemma_outcome(p);
    let ds = outcome(p);
    let g = resolution(p)->Ok_0;
    match o {
        Origin::Manifest { .. } => {},
        Origin::Release { .. } => {
            if applies_in(p, g, o) {
                let m = choose|m: int|
                    0 <= m < g.nodes.len() && declares_active(p, (#[trigger] g.nodes[m]).decision, o);
                let i = lemma_node_is_decision(p, ds, m);
                assert(declares_active(p, ds[i], o));
            }
            if is_active(p, ds, o) {
                let i = choose|i: int| 0 <= i < ds.len() && declares_active(p, #[trigger] ds[i], o);
                let m = lemma_decision_has_node(p, ds, i);
                assert(declares_active(p, g.nodes[m].decision, o));
            }
        },
    }
}

/// Every extra of a node is asked for: a requirement that applies in the
/// graph names the node's package and lists the extra.
pub proof fn lemma_extras_are_asked_for(p: Resolver, n: int, k: int) -> (o: Origin)
    requires
        resolution(p) is Ok,
        0 <= n < resolution(p)->Ok_0.nodes.len(),
        0 <= k < resolution(p)->Ok_0.nodes[n].extras.len(),
    ensures
        applies_in(p, resolution(p)->Ok_0, o),
        requirement_at(p, o).name@ == resolution(p)->Ok_0.nodes[n].name,
        lists(requirement_at(p, o).extras@, resolution(p)->Ok_0.nodes[n].extras[k]),
{
    lemma_outcome(p);
    let ds = outcome(p);
    let g = resolution(p)->Ok_0;
    let node = g.nodes[n];
    let extra = node.extras[k];
    let i = lemma_node_is_decision(p, ds, n);
    let d = ds[i];
    lemma_extras_of(p, d, d.extras.len() as int, extra);
    assert(node.extras.contains(extra));
    let j = choose|j: int| 0 <= j < d.extras.len() && #[trigger] flagged(p, d, j, extra);
    assert(extra_justified(p, ds, i, j));
    let o = choose|o: Origin| #[trigger] asks_extra(p, ds, i, j, o);
    lemma_applies_in(p, o);
    lemma_package_from(p.index.packages, requirement_at(p, o).name@, 0);
    o
}

/// Every extra that is asked of a node and that its release offers is an
/// extra of the node.
pub proof fn lemma_asked_extras_are_noted(p: Resolver, n: int, o: Origin, extra: Seq<char>)
    requires
        resolution(p) is Ok,
        0 <= n < resolution(p)->Ok_0.nodes.len(),
        applies_in(p, resolution(p)->Ok_0, o),
        requirement_at(p, o).name@ == resolution(p)->Ok_0.nodes[n].name,
        lists(requirement_at(p, o).extras@, extra),
        lists(
            offered(
                p,
                resolution(p)->Ok_0.nodes[n].decision.package as int,
                resolution(p)->Ok_0.nodes[n].decision.release as int,
            ),
            extra,
        ),
    ensures
        resolution(p)->Ok_0.nodes[n].extras.contains(extra),
{
    lemma_outcome(p);
    lemma_applies_in(p, o);
    let ds = outcome(p);
    let g = resolution(p)->Ok_0;
    let i = lemma_node_is_decision(p, ds, n);
    let d = ds[i];
    assert(satisfied(p, ds, o));
    let pi = target(p, o)->0;
    lemma_package_from(p.index.packages, requirement_at(p, o).name@, 0);
    lemma_holder(ds, pi, 0);
    let h = holder(ds, pi)->0;
    // the node and the holder are for one name, so for one package
    assert(justified(p, ds, i));
    let w = choose|w: Origin| #[trigger] justifies(p, ds, i, w);
    lemma_package_from(p.index.packages, requirement_at(p, w).name@, 0);
    lemma_one_holder(ds, i, h);
    let wanted = requirement_at(p, o).extras@;
    let f = choose|f: int| 0 <= f < wanted.len() && (#[trigger] wanted[f])@ == extra;
    let offers = offered(p, d.package as int, d.release as int);
    lemma_none_missing(p, d, wanted, 0, f);
    lemma_extra_found(offers, extra, 0);
    lemma_extra_from(offers, extra, 0);
    assert(decision_ok(p, d));
    let j = extra_from(offers, extra, 0)->0;
    assert(flagged(p, d, j, extra));
    lemma_extras_of(p, d, d.extras.len() as int, extra);
}

/// An extra that is offered is found among those offered.
pub proof fn lemma_extra_found(offers: Seq<String>, extra: Seq<char>, from: int)
    requires
        0 <= from,
        exists|j: int| from <= j < offers.len() && (#[trigger] offers[j])@ == extra,
    ensures
        extra_from(offers, extra, from) is Some,
    decreases offers.len() - from,
{
    if from < offers.len() && offers[from]@ != extra {
        let j = choose|j: int| from <= j < offers.len() && (#[trigger] offers[j])@ == extra;
        assert(from + 1 <= j);
        lemma_extra_found(offers, extra, from + 1);
    }
}

/// A requirement of the manifest that applies and that no release which
/// may be chosen meets leaves the manifest without resolution.
pub proof fn lemma_unmet_root_fails(p: Resolver, i: int)
    requires
        0 <= i < p.manifest.requirements@.len(),
        required_here(p, p.manifest.requirements@[i]),
        forall|pi: int, ri: int|
            in_index(p, pi, ri) && p.index.packages@[pi].name@ == p.manifest.requirements@[i].name@
                && #[trigger] admissible_but_for_policy(p, pi, ri) ==> !all_satisfied(
                p.manifest.requirements@[i].specifiers@,
                release_at(p, pi, ri).version@,
            ),
    ensures
        resolution(p) is Err,
{
    if resolution(p) is Ok {
        let n = lemma_roots_are_met(p, i);
        lemma_nodes_are_admissible(p, n);
        let node = resolution(p)->Ok_0.nodes[n];
        assert(admissible_but_for_policy(
            p,
            node.decision.package as int,
            node.decision.release as int,
        ));
    }
}

} // verus!
