//! Two resolutions that differ only in what the search never looks at
//! take the same course.

use crate::active::{declares_active, lemma_listed_is_active};
use crate::candidate::{
    admissible, admissible_but_for_policy, before, best_position, constraints_admit,
    explicit_at, explicit_prerelease, in_index, lemma_best_position_in_range, not_final,
    release_at, required_here, root_pins, root_pins_at, without_final, Resolver,
};
use crate::graph::{by_name, edges_among, edges_upto, extras_of, graph_of, names_of, node_of};
use crate::resolve::{decisions, first_violation, resolution};
use crate::index::lemma_package_from;
use crate::requirement::Requirement;
use crate::soundness::lemma_eligible;
use crate::solver::{
    activate, active, active_among, active_dependencies, active_roots, active_upto, choices,
    conflict, decided, decision_ok, dependency_applies, eligible, eligible_upto, first_missing,
    fresh, inactive, lemma_activate_inactive, lemma_activate_undecided, lemma_first_missing,
    lemma_pick, lemma_push_undecided, missing_in, missing_of, origin_ok, origins_ok, pick,
    requirement_at, solution, solution_among, target, under_extra, undecided, violated, wanted,
    wanted_by, well_formed, DecisionView, Origin,
};
use vstd::prelude::*;

verus! {

/// Whether two resolutions have the same snapshot, target, options and
/// requirements; they may differ in constraints and preferences.
pub open spec fn same_base(p: Resolver, q: Resolver) -> bool {
    &&& p.index == q.index
    &&& p.markers == q.markers
    &&& p.tags == q.tags
    &&& p.options == q.options
    &&& p.manifest.requirements == q.manifest.requirements
}

/// Whether the requirement at `o` names package `pi`.
pub open spec fn names(p: Resolver, o: Origin, pi: usize) -> bool {
    origin_ok(p, o) && target(p, o) == Some(pi)
}

/// Whether some requirement of the manifest or of the snapshot names package `pi`.
pub open spec fn asked(p: Resolver, pi: usize) -> bool {
    exists|o: Origin| #[trigger] names(p, o, pi)
}

/// Whether two resolutions agree on which releases may be chosen of the
/// packages that are ever asked for.
pub open spec fn agree_on_releases(p: Resolver, q: Resolver) -> bool {
    forall|s: bool, pi: usize, ri: usize|
        #![trigger admissible(p, s, pi as int, ri as int)]
        asked(p, pi) && in_index(p, pi as int, ri as int) ==> admissible(
            p,
            s,
            pi as int,
            ri as int,
        ) == admissible(q, s, pi as int, ri as int)
}

/// Whether two resolutions agree on the order in which the releases that
/// may be chosen are tried.
pub open spec fn agree_on_order(p: Resolver, q: Resolver) -> bool {
    forall|pi: usize, a: usize, b: usize|
        #![trigger before(p, pi as int, a as int, b as int)]
        asked(p, pi) && in_index(p, pi as int, a as int) && in_index(p, pi as int, b as int)
            && admissible(p, true, pi as int, a as int) && admissible(p, true, pi as int, b as int)
            ==> before(p, pi as int, a as int, b as int) == before(q, pi as int, a as int, b as int)
}

/// Whether two resolutions agree in all that the search looks at.
pub open spec fn agree(p: Resolver, q: Resolver) -> bool {
    same_base(p, q) && agree_on_releases(p, q) && agree_on_order(p, q)
}

pub proof fn lemma_same_applies(p: Resolver, q: Resolver, d: DecisionView, r: Requirement)
    requires
        same_base(p, q),
    ensures
        dependency_applies(p, d, r) == dependency_applies(q, d, r),
{
    if dependency_applies(p, d, r) && !required_here(p, r) {
        let j = choose|j: int| 0 <= j < d.extras.len() && #[trigger] under_extra(p, d, r, j);
        assert(under_extra(q, d, r, j));
    }
    if dependency_applies(q, d, r) && !required_here(q, r) {
        let j = choose|j: int| 0 <= j < d.extras.len() && #[trigger] under_extra(q, d, r, j);
        assert(under_extra(p, d, r, j));
    }
}

proof fn lemma_same_roots(p: Resolver, q: Resolver, n: int)
    requires
        same_base(p, q),
    ensures
        active_roots(p, n) == active_roots(q, n),
    decreases n,
{
    if n > 0 && n <= p.manifest.requirements.len() {
        lemma_same_roots(p, q, n - 1);
    }
}

proof fn lemma_same_among(p: Resolver, q: Resolver, d: DecisionView, declared: Vec<Requirement>, n: int)
    requires
        same_base(p, q),
    ensures
        active_among(p, d, declared, n) == active_among(q, d, declared, n),
    decreases n,
{
    if n > 0 && n <= declared.len() {
        lemma_same_among(p, q, d, declared, n - 1);
        lemma_same_applies(p, q, d, declared@[n - 1]);
    }
}

/// The same requirements of a release apply in both.
pub proof fn lemma_same_dependencies(p: Resolver, q: Resolver, d: DecisionView)
    requires
        same_base(p, q),
    ensures
        active_dependencies(p, d) == active_dependencies(q, d),
{
    match release_at(p, d.package as int, d.release as int).metadata {
        Some(m) => {
            lemma_same_among(p, q, d, m.requires_dist, m.requires_dist.len() as int);
        },
        None => {},
    }
}

proof fn lemma_same_upto(p: Resolver, q: Resolver, ds: Seq<DecisionView>, m: int)
    requires
        same_base(p, q),
    ensures
        active_upto(p, ds, m) == active_upto(q, ds, m),
    decreases m,
{
    if m > 0 && m <= ds.len() {
        lemma_same_upto(p, q, ds, m - 1);
        lemma_same_dependencies(p, q, ds[m - 1]);
    } else {
        lemma_same_roots(p, q, p.manifest.requirements.len() as int);
    }
}

/// The same requirements apply in both.
pub proof fn lemma_same_active(p: Resolver, q: Resolver, ds: Seq<DecisionView>)
    requires
        same_base(p, q),
    ensures
        active(p, ds) == active(q, ds),
{
    lemma_same_upto(p, q, ds, ds.len() as int);
}

pub proof fn lemma_same_conflict(p: Resolver, q: Resolver, ds: Seq<DecisionView>, refs: Seq<Origin>)
    requires
        same_base(p, q),
    ensures
        conflict(p, ds, refs) == conflict(q, ds, refs),
{
    if conflict(p, ds, refs) {
        let k = choose|k: int| 0 <= k < refs.len() && violated(p, ds, #[trigger] refs[k]);
        assert(violated(q, ds, refs[k]));
    }
    if conflict(q, ds, refs) {
        let k = choose|k: int| 0 <= k < refs.len() && violated(q, ds, #[trigger] refs[k]);
        assert(violated(p, ds, refs[k]));
    }
}

pub proof fn lemma_same_missing_in(p: Resolver, q: Resolver, d: DecisionView, wanted: Seq<String>, from: int)
    requires
        same_base(p, q),
    ensures
        missing_in(p, d, wanted, from) == missing_in(q, d, wanted, from),
    decreases wanted.len() - from,
{
    if 0 <= from < wanted.len() {
        lemma_same_missing_in(p, q, d, wanted, from + 1);
    }
}

proof fn lemma_same_missing_of(p: Resolver, q: Resolver, ds: Seq<DecisionView>, o: Origin)
    requires
        same_base(p, q),
    ensures
        missing_of(p, ds, o) == missing_of(q, ds, o),
{
    match target(p, o) {
        Some(pi) => match crate::solver::holder(ds, pi) {
            Some(h) => {
                lemma_same_missing_in(p, q, ds[h], requirement_at(p, o).extras@, 0);
            },
            None => {},
        },
        None => {},
    }
}

pub proof fn lemma_same_first_missing(
    p: Resolver,
    q: Resolver,
    ds: Seq<DecisionView>,
    refs: Seq<Origin>,
    from: int,
)
    requires
        same_base(p, q),
    ensures
        first_missing(p, ds, refs, from) == first_missing(q, ds, refs, from),
    decreases refs.len() - from,
{
    if 0 <= from < refs.len() {
        lemma_same_missing_of(p, q, ds, refs[from]);
        lemma_same_first_missing(p, q, ds, refs, from + 1);
    }
}

pub proof fn lemma_same_wanted(p: Resolver, q: Resolver, refs: Seq<Origin>, name: Seq<char>, v: crate::version::VersionView)
    requires
        same_base(p, q),
    ensures
        wanted(p, refs, name, v) == wanted(q, refs, name, v),
{
    if wanted(p, refs, name, v) {
        assert forall|k: int| 0 <= k < refs.len() implies wanted_by(q, #[trigger] refs[k], name, v) by {
            assert(wanted_by(p, refs[k], name, v));
        }
    }
    if wanted(q, refs, name, v) {
        assert forall|k: int| 0 <= k < refs.len() implies wanted_by(p, #[trigger] refs[k], name, v) by {
            assert(wanted_by(q, refs[k], name, v));
        }
    }
}

pub proof fn lemma_same_eligible(p: Resolver, q: Resolver, s: bool, refs: Seq<Origin>, pi: usize, n: int)
    requires
        same_base(p, q),
        agree_on_releases(p, q),
        asked(p, pi),
        pi < p.index.packages.len(),
    ensures
        eligible_upto(p, s, refs, pi as int, n) == eligible_upto(q, s, refs, pi as int, n),
    decreases n,
{
    if n > 0 && n <= p.index.packages@[pi as int].releases.len() {
        lemma_same_eligible(p, q, s, refs, pi, n - 1);
        let ri = (n - 1) as usize;
        assert(admissible(p, s, pi as int, ri as int) == admissible(q, s, pi as int, ri as int));
        lemma_same_wanted(
            p,
            q,
            refs,
            p.index.packages@[pi as int].name@,
            release_at(p, pi as int, ri as int).version@,
        );
    }
}

pub proof fn lemma_same_choices(p: Resolver, q: Resolver, s: bool, refs: Seq<Origin>, o: Origin)
    requires
        same_base(p, q),
        agree_on_releases(p, q),
        origin_ok(p, o),
    ensures
        choices(p, s, refs, o) == choices(q, s, refs, o),
{
    match target(p, o) {
        Some(pi) => {
            lemma_package_from(p.index.packages, requirement_at(p, o).name@, 0);
            assert(names(p, o, pi));
            lemma_same_eligible(
                p,
                q,
                s,
                refs,
                pi,
                p.index.packages@[pi as int].releases.len() as int,
            );
        },
        None => {},
    }
}

pub proof fn lemma_same_pick(p: Resolver, q: Resolver, s: bool, ds: Seq<DecisionView>, refs: Seq<Origin>, n: int)
    requires
        same_base(p, q),
        agree_on_releases(p, q),
        origins_ok(p, refs),
    ensures
        pick(p, s, ds, refs, n) == pick(q, s, ds, refs, n),
    decreases n,
{
    if n > 0 && n <= refs.len() {
        lemma_same_pick(p, q, s, ds, refs, n - 1);
        lemma_pick(p, s, ds, refs, n - 1);
        lemma_same_choices(p, q, s, refs, refs[n - 1]);
        match pick(p, s, ds, refs, n - 1) {
            Some(b) => {
                lemma_same_choices(p, q, s, refs, refs[b]);
            },
            None => {},
        }
    }
}

pub proof fn lemma_same_best(p: Resolver, q: Resolver, s: bool, pi: usize, remaining: Seq<usize>, n: int)
    requires
        agree(p, q),
        asked(p, pi),
        0 <= n <= remaining.len(),
        forall|i: int|
            0 <= i < remaining.len() ==> in_index(p, pi as int, (#[trigger] remaining[i]) as int)
                && admissible(p, s, pi as int, remaining[i] as int),
    ensures
        best_position(p, pi as int, remaining, n) == best_position(q, pi as int, remaining, n),
    decreases n,
{
    if n > 1 {
        lemma_same_best(p, q, s, pi, remaining, n - 1);
        lemma_best_position_in_range(p, pi as int, remaining, n - 1);
        let b = best_position(p, pi as int, remaining, n - 1);
        let x = remaining[n - 1];
        let y = remaining[b];
        assert(admissible(p, true, pi as int, x as int));
        assert(admissible(p, true, pi as int, y as int));
        assert(before(p, pi as int, x as int, y as int) == before(q, pi as int, x as int, y as int));
    }
}

/// Every requirement that applies in a well-formed state stands at a
/// position of the manifest or the snapshot.
pub proof fn lemma_active_ok(p: Resolver, ds: Seq<DecisionView>)
    requires
        well_formed(p, ds),
    ensures
        origins_ok(p, active(p, ds)),
{
    let refs = active(p, ds);
    assert forall|k: int| 0 <= k < refs.len() implies origin_ok(p, #[trigger] refs[k]) by {
        lemma_listed_is_active(p, ds, k);
        match refs[k] {
            Origin::Manifest { .. } => {},
            Origin::Release { .. } => {
                let i = choose|i: int| 0 <= i < ds.len() && declares_active(p, #[trigger] ds[i], refs[k]);
                assert(decision_ok(p, ds[i]));
            },
        }
    }
}

/// Two resolutions that agree find the same decisions from every state.
pub proof fn lemma_same_solution(p: Resolver, q: Resolver, s: bool, ds: Seq<DecisionView>)
    requires
        agree(p, q),
        well_formed(p, ds),
    ensures
        solution(p, s, ds) == solution(q, s, ds),
    decreases
            undecided(p, ds, p.index.packages.len() as int),
            inactive(ds, ds.len() as int),
            1int,
            0int,
{
    let refs = active(p, ds);
    lemma_same_active(p, q, ds);
    lemma_active_ok(p, ds);
    lemma_same_conflict(p, q, ds, refs);
    lemma_same_first_missing(p, q, ds, refs, 0);
    lemma_same_pick(p, q, s, ds, refs, refs.len() as int);
    if conflict(p, ds, refs) {
    } else {
        match first_missing(p, ds, refs, 0) {
            Some((h, j)) => {
                lemma_first_missing(p, ds, refs, 0);
                let nd = activate(ds, h, j);
                assert(well_formed(p, nd)) by {
                    assert forall|i: int| 0 <= i < nd.len() implies decision_ok(p, #[trigger] nd[i]) by {
                        assert(decision_ok(p, ds[i]));
                    }
                }
                lemma_activate_undecided(p, ds, h, j, p.index.packages.len() as int);
                lemma_activate_inactive(ds, h, j, ds.len() as int);
                lemma_same_solution(p, q, s, nd);
            },
            None => match pick(p, s, ds, refs, refs.len() as int) {
                None => {},
                Some(k) => {
                    lemma_pick(p, s, ds, refs, refs.len() as int);
                    match target(p, refs[k]) {
                        None => {},
                        Some(pi) => {
                            lemma_package_from(p.index.packages, requirement_at(p, refs[k]).name@, 0);
                            assert(names(p, refs[k], pi));
                            let n = p.index.packages@[pi as int].releases.len() as int;
                            lemma_same_eligible(p, q, s, refs, pi, n);
                            lemma_eligible(p, s, refs, pi as int, n);
                            lemma_same_among_releases(
                                p,
                                q,
                                s,
                                ds,
                                pi,
                                eligible(p, s, refs, pi as int),
                            );
                        },
                    }
                },
            },
        }
    }
}

/// The same for the search among the releases `remaining` of a package.
pub proof fn lemma_same_among_releases(
    p: Resolver,
    q: Resolver,
    s: bool,
    ds: Seq<DecisionView>,
    pi: usize,
    remaining: Seq<usize>,
)
    requires
        agree(p, q),
        well_formed(p, ds),
        asked(p, pi),
        pi < p.index.packages.len(),
        forall|i: int|
            0 <= i < remaining.len() ==> in_index(p, pi as int, (#[trigger] remaining[i]) as int)
                && admissible(p, s, pi as int, remaining[i] as int),
    ensures
        solution_among(p, s, ds, pi, remaining) == solution_among(q, s, ds, pi, remaining),
    decreases
            undecided(p, ds, p.index.packages.len() as int),
            inactive(ds, ds.len() as int),
            0int,
            remaining.len(),
{
    if remaining.len() == 0 || decided(ds, pi) {
    } else {
        let k = best_position(p, pi as int, remaining, remaining.len() as int);
        lemma_best_position_in_range(p, pi as int, remaining, remaining.len() as int);
        lemma_same_best(p, q, s, pi, remaining, remaining.len() as int);
        let d = fresh(p, pi, remaining[k]);
        assert(d == fresh(q, pi, remaining[k]));
        let nd = ds.push(d);
        lemma_push_undecided(p, ds, d, p.index.packages.len() as int);
        assert(well_formed(p, nd)) by {
            assert forall|i: int| 0 <= i < nd.len() implies decision_ok(p, #[trigger] nd[i]) by {
                if i < ds.len() {
                    assert(decision_ok(p, ds[i]));
                }
            }
        }
        lemma_same_solution(p, q, s, nd);
        let rest = remaining.remove(k);
        assert forall|i: int| 0 <= i < rest.len() implies in_index(
            p,
            pi as int,
            (#[trigger] rest[i]) as int,
        ) && admissible(p, s, pi as int, rest[i] as int) by {
            if i < k {
                assert(rest[i] == remaining[i]);
            } else {
                assert(rest[i] == remaining[i + 1]);
            }
        }
        lemma_same_among_releases(p, q, s, ds, pi, rest);
    }
}

proof fn lemma_same_names(p: Resolver, q: Resolver, ds: Seq<DecisionView>)
    requires
        same_base(p, q),
    ensures
        names_of(p, ds) == names_of(q, ds),
{
    assert(names_of(p, ds) =~= names_of(q, ds));
}

proof fn lemma_same_by_name(p: Resolver, q: Resolver, ds: Seq<DecisionView>, n: int)
    requires
        same_base(p, q),
    ensures
        by_name(p, ds, n) == by_name(q, ds, n),
    decreases n,
{
    if n > 0 && n <= ds.len() {
        lemma_same_by_name(p, q, ds, n - 1);
        lemma_same_names(p, q, by_name(p, ds, n - 1));
    }
}

proof fn lemma_same_extras(p: Resolver, q: Resolver, d: DecisionView, n: int)
    requires
        same_base(p, q),
    ensures
        extras_of(p, d, n) == extras_of(q, d, n),
    decreases n,
{
    if n > 0 && n <= d.extras.len() {
        lemma_same_extras(p, q, d, n - 1);
    }
}

proof fn lemma_same_edges_among(
    p: Resolver,
    q: Resolver,
    sorted: Seq<DecisionView>,
    a: int,
    refs: Seq<Origin>,
    n: int,
)
    requires
        same_base(p, q),
    ensures
        edges_among(p, sorted, a, refs, n) == edges_among(q, sorted, a, refs, n),
    decreases n,
{
    if n > 0 && n <= refs.len() {
        lemma_same_edges_among(p, q, sorted, a, refs, n - 1);
    }
}

proof fn lemma_same_edges(p: Resolver, q: Resolver, sorted: Seq<DecisionView>, m: int)
    requires
        same_base(p, q),
    ensures
        edges_upto(p, sorted, m) == edges_upto(q, sorted, m),
    decreases m,
{
    if m > 0 && m <= sorted.len() {
        lemma_same_edges(p, q, sorted, m - 1);
        lemma_same_dependencies(p, q, sorted[m - 1]);
        let refs = active_dependencies(p, sorted[m - 1]);
        lemma_same_edges_among(p, q, sorted, m - 1, refs, refs.len() as int);
    }
}

/// The same decisions give the same graph in both.
pub proof fn lemma_same_graph(p: Resolver, q: Resolver, ds: Seq<DecisionView>)
    requires
        same_base(p, q),
    ensures
        graph_of(p, ds) == graph_of(q, ds),
{
    lemma_same_by_name(p, q, ds, ds.len() as int);
    let sorted = by_name(p, ds, ds.len() as int);
    lemma_same_edges(p, q, sorted, sorted.len() as int);
    assert forall|i: int| 0 <= i < sorted.len() implies node_of(p, sorted[i]) == node_of(
        q,
        sorted[i],
    ) by {
        lemma_same_extras(p, q, sorted[i], sorted[i].extras.len() as int);
    }
    assert(graph_of(p, ds).nodes =~= graph_of(q, ds).nodes);
}

pub proof fn lemma_same_violation(p: Resolver, q: Resolver, from: int)
    requires
        same_base(p, q),
    ensures
        first_violation(p, from) == first_violation(q, from),
    decreases p.manifest.requirements.len() - from,
{
    if 0 <= from < p.manifest.requirements.len() {
        lemma_same_violation(p, q, from + 1);
    }
}

/// Two resolutions that agree give the same result.
pub proof fn lemma_same_resolution(p: Resolver, q: Resolver)
    requires
        agree(p, q),
    ensures
        resolution(p) == resolution(q),
{
    let none = Seq::<DecisionView>::empty();
    lemma_same_violation(p, q, 0);
    lemma_same_solution(p, q, false, none);
    lemma_same_solution(p, q, true, none);
    lemma_same_active(p, q, none);
    lemma_active_ok(p, none);
    let refs = active(p, none);
    lemma_same_pick(p, q, false, none, refs, refs.len() as int);
    lemma_same_pick(p, q, true, none, refs, refs.len() as int);
    match decisions(p) {
        Some(ds) => {
            lemma_same_graph(p, q, ds);
        },
        None => {},
    }
}

pub proof fn lemma_same_root_pins(p: Resolver, q: Resolver, name: Seq<char>, v: crate::version::VersionView)
    requires
        same_base(p, q),
    ensures
        root_pins(p, name, v) == root_pins(q, name, v),
{
    if root_pins(p, name, v) {
        let i = choose|i: int|
            0 <= i < p.manifest.requirements@.len() && #[trigger] root_pins_at(p, i, name, v);
        assert(root_pins_at(q, i, name, v));
    }
    if root_pins(q, name, v) {
        let i = choose|i: int|
            0 <= i < q.manifest.requirements@.len() && #[trigger] root_pins_at(q, i, name, v);
        assert(root_pins_at(p, i, name, v));
    }
}

pub proof fn lemma_same_explicit(p: Resolver, q: Resolver, name: Seq<char>)
    requires
        same_base(p, q),
    ensures
        explicit_prerelease(p, name) == explicit_prerelease(q, name),
{
    if explicit_prerelease(p, name) {
        let i = choose|i: int| 0 <= i < p.manifest.requirements@.len() && #[trigger] explicit_at(p, i, name);
        assert(explicit_at(q, i, name));
    }
    if explicit_prerelease(q, name) {
        let i = choose|i: int| 0 <= i < q.manifest.requirements@.len() && #[trigger] explicit_at(q, i, name);
        assert(explicit_at(p, i, name));
    }
}

/// Whether two resolutions hold the same on the versions of package `pi`
/// that the constraints admit.
pub open spec fn same_constraints_on(p: Resolver, q: Resolver, pi: int) -> bool {
    forall|ri: int|
        0 <= ri < p.index.packages@[pi].releases@.len() ==> #[trigger] constraints_admit(
            p,
            p.index.packages@[pi].name@,
            release_at(p, pi, ri).version@,
        ) == constraints_admit(
            q,
            p.index.packages@[pi].name@,
            release_at(p, pi, ri).version@,
        )
}

proof fn lemma_same_but_policy(p: Resolver, q: Resolver, pi: int, ri: int)
    requires
        same_base(p, q),
        same_constraints_on(p, q, pi),
        0 <= ri < p.index.packages@[pi].releases@.len(),
    ensures
        admissible_but_for_policy(p, pi, ri) == admissible_but_for_policy(q, pi, ri),
{
    lemma_same_root_pins(p, q, p.index.packages@[pi].name@, release_at(p, pi, ri).version@);
    assert(constraints_admit(p, p.index.packages@[pi].name@, release_at(p, pi, ri).version@)
        == constraints_admit(q, p.index.packages@[pi].name@, release_at(p, pi, ri).version@));
}

proof fn lemma_same_without_final(p: Resolver, q: Resolver, pi: int)
    requires
        same_base(p, q),
        same_constraints_on(p, q, pi),
    ensures
        without_final(p, pi) == without_final(q, pi),
{
    if without_final(p, pi) {
        assert forall|ri: int| 0 <= ri < q.index.packages@[pi].releases@.len() implies #[trigger] not_final(
            q,
            pi,
            ri,
        ) by {
            assert(not_final(p, pi, ri));
            lemma_same_but_policy(p, q, pi, ri);
        }
    }
    if without_final(q, pi) {
        assert forall|ri: int| 0 <= ri < p.index.packages@[pi].releases@.len() implies #[trigger] not_final(
            p,
            pi,
            ri,
        ) by {
            assert(not_final(q, pi, ri));
            lemma_same_but_policy(p, q, pi, ri);
        }
    }
}

/// Two resolutions that hold the same on what the constraints admit of a
/// package agree on which of its releases may be chosen.
pub proof fn lemma_same_admissible(p: Resolver, q: Resolver, s: bool, pi: int, ri: int)
    requires
        same_base(p, q),
        same_constraints_on(p, q, pi),
        0 <= ri < p.index.packages@[pi].releases@.len(),
    ensures
        admissible(p, s, pi, ri) == admissible(q, s, pi, ri),
{
    lemma_same_but_policy(p, q, pi, ri);
    lemma_same_without_final(p, q, pi);
    lemma_same_explicit(p, q, p.index.packages@[pi].name@);
}

} // verus!
