//! To resolve again with every result pinned as a preference gives the
//! same result.

use crate::active::lemma_listed_is_active;
use crate::agreement::{
    agree_on_releases, asked, lemma_active_ok, lemma_same_active, lemma_same_conflict,
    lemma_same_eligible, lemma_same_first_missing, lemma_same_graph, lemma_same_pick, names,
    same_base,
};
use crate::candidate::{
    before, best_position, in_index, lemma_best_position_in_range, preferred, preferred_at,
    release_at, Resolver,
};
use crate::completeness::{contained, covered, covers};
use crate::graph::{by_name, name_of, pins_graph, pins_node};
use crate::index::lemma_package_from;
use crate::laws::{
    lemma_decision_has_node, lemma_node_is_decision, lemma_one_holder, lemma_outcome, outcome,
    second_pass,
};
use crate::order::{
    lemma_before_irreflexive, lemma_before_total, lemma_best_is_first, lemma_remove_contains,
};
use crate::resolve::{decisions, resolution};
use crate::solver::{
    activate, active, chosen, conflict, decided, decision_ok, eligible, first_missing, fresh,
    inactive, lemma_activate_inactive, lemma_activate_undecided, lemma_first_missing,
    lemma_holder, lemma_pick, lemma_push_undecided, pick, requirement_at, solution,
    solution_among, target, undecided, well_formed, DecisionView, Origin,
};
use crate::soundness::{
    asks_extra, justified, justifies, lemma_eligible, lemma_first_missing_origin,
    lemma_missing_is_asked, lemma_sound_activate, lemma_sound_push, sound,
};
use crate::specifier::{matches_exactly, satisfies};
use crate::version::{lemma_order_reflexive, VersionView};
use vstd::prelude::*;

verus! {

/// Whether decision `i` is for the package `name` at a version equal to `v`.
pub open spec fn pinned_by(p: Resolver, out: Seq<DecisionView>, i: int, name: Seq<char>, v: VersionView) -> bool {
    name_of(p, out[i]) == name && matches_exactly(v, chosen(p, out[i]))
}

/// Whether one of the decisions is for the package `name` at a version equal to `v`.
pub open spec fn pinned(p: Resolver, out: Seq<DecisionView>, name: Seq<char>, v: VersionView) -> bool {
    exists|i: int| 0 <= i < out.len() && #[trigger] pinned_by(p, out, i, name, v)
}

/// Whether `q` prefers exactly the releases whose version equals the one
/// that `out` holds for the package.
pub open spec fn prefers_outcome(p: Resolver, q: Resolver, out: Seq<DecisionView>) -> bool {
    forall|pi: int, ri: int|
        in_index(p, pi, ri) ==> #[trigger] preferred(
            q,
            p.index.packages@[pi].name@,
            release_at(p, pi, ri).version@,
        ) == pinned(p, out, p.index.packages@[pi].name@, release_at(p, pi, ri).version@)
}

/// Whether the search succeeds with release `ri` of package `pi` chosen next.
pub open spec fn succeeds(p: Resolver, s: bool, ds: Seq<DecisionView>, pi: usize, ri: usize) -> bool {
    solution(p, s, ds.push(fresh(p, pi, ri))) is Some
}

/// What the search ends with holds the decisions that it started from.
pub proof fn lemma_extends(p: Resolver, s: bool, ds: Seq<DecisionView>)
    ensures
        solution(p, s, ds) matches Some(out) ==> contained(ds, out),
    decreases
            undecided(p, ds, p.index.packages.len() as int),
            inactive(ds, ds.len() as int),
            1int,
            0int,
{
    let refs = active(p, ds);
    if conflict(p, ds, refs) {
    } else {
        match first_missing(p, ds, refs, 0) {
            Some((h, j)) => {
                lemma_first_missing(p, ds, refs, 0);
                lemma_activate_undecided(p, ds, h, j, p.index.packages.len() as int);
                lemma_activate_inactive(ds, h, j, ds.len() as int);
                let nd = activate(ds, h, j);
                lemma_extends(p, s, nd);
                match solution(p, s, nd) {
                    Some(out) => {
                        assert forall|i: int| 0 <= i < ds.len() implies #[trigger] covered(ds, out, i) by {
                            assert(covered(nd, out, i));
                            let at = choose|at: int| #[trigger] covers(nd, out, i, at);
                            assert(covers(ds, out, i, at));
                        }
                    },
                    None => {},
                }
            },
            None => match pick(p, s, ds, refs, refs.len() as int) {
                None => {
                    assert forall|i: int| 0 <= i < ds.len() implies #[trigger] covered(ds, ds, i) by {
                        assert(covers(ds, ds, i, i));
                    }
                },
                Some(k) => match target(p, refs[k]) {
                    None => {},
                    Some(pi) => {
                        lemma_among_extends(p, s, ds, pi, eligible(p, s, refs, pi as int));
                    },
                },
            },
        }
    }
}

/// The same for the search among the releases of a package.
pub proof fn lemma_among_extends(p: Resolver, s: bool, ds: Seq<DecisionView>, pi: usize, remaining: Seq<usize>)
    ensures
        solution_among(p, s, ds, pi, remaining) matches Some(out) ==> contained(ds, out)
            && exists|at: int, i: int|
            0 <= at < out.len() && 0 <= i < remaining.len() && (#[trigger] out[at]).package == pi
                && out[at].release == #[trigger] remaining[i],
    decreases
            undecided(p, ds, p.index.packages.len() as int),
            inactive(ds, ds.len() as int),
            0int,
            remaining.len(),
{
    if remaining.len() == 0 || decided(ds, pi) || pi >= p.index.packages.len() {
    } else {
        let k = best_position(p, pi as int, remaining, remaining.len() as int);
        lemma_best_position_in_range(p, pi as int, remaining, remaining.len() as int);
        let d = fresh(p, pi, remaining[k]);
        let nd = ds.push(d);
        lemma_push_undecided(p, ds, d, p.index.packages.len() as int);
        lemma_extends(p, s, nd);
        match solution(p, s, nd) {
            Some(out) => {
                assert forall|i: int| 0 <= i < ds.len() implies #[trigger] covered(ds, out, i) by {
                    assert(covered(nd, out, i));
                    let at = choose|at: int| #[trigger] covers(nd, out, i, at);
                    assert(covers(ds, out, i, at));
                }
                assert(covered(nd, out, ds.len() as int));
                let at = choose|at: int| #[trigger] covers(nd, out, ds.len() as int, at);
                assert(out[at].package == pi && out[at].release == remaining[k]);
            },
            None => {
                let rest = remaining.remove(k);
                lemma_among_extends(p, s, ds, pi, rest);
                match solution_among(p, s, ds, pi, rest) {
                    Some(out) => {
                        let (at, i) = choose|at: int, i: int|
                            0 <= at < out.len() && 0 <= i < rest.len() && (#[trigger] out[at]).package
                                == pi && out[at].release == #[trigger] rest[i];
                        if i < k {
                            assert(remaining[i] == rest[i]);
                        } else {
                            assert(remaining[i + 1] == rest[i]);
                        }
                    },
                    None => {},
                }
            },
        }
    }
}

/// The search among the releases of a package succeeds exactly if it
/// succeeds with one of them.
pub proof fn lemma_among_some(p: Resolver, s: bool, ds: Seq<DecisionView>, pi: usize, remaining: Seq<usize>)
    requires
        pi < p.index.packages.len(),
        !decided(ds, pi),
    ensures
        solution_among(p, s, ds, pi, remaining) is Some == exists|i: int|
            0 <= i < remaining.len() && succeeds(p, s, ds, pi, #[trigger] remaining[i]),
    decreases remaining.len(),
{
    if remaining.len() > 0 {
        let k = best_position(p, pi as int, remaining, remaining.len() as int);
        lemma_best_position_in_range(p, pi as int, remaining, remaining.len() as int);
        let rest = remaining.remove(k);
        lemma_among_some(p, s, ds, pi, rest);
        if succeeds(p, s, ds, pi, remaining[k]) {
        } else {
            if exists|i: int| 0 <= i < rest.len() && succeeds(p, s, ds, pi, #[trigger] rest[i]) {
                let i = choose|i: int| 0 <= i < rest.len() && succeeds(p, s, ds, pi, #[trigger] rest[i]);
                if i < k {
                    assert(remaining[i] == rest[i]);
                } else {
                    assert(remaining[i + 1] == rest[i]);
                }
            }
            if exists|i: int| 0 <= i < remaining.len() && succeeds(p, s, ds, pi, #[trigger] remaining[i]) {
                let i = choose|i: int|
                    0 <= i < remaining.len() && succeeds(p, s, ds, pi, #[trigger] remaining[i]);
                if i < k {
                    assert(rest[i] == remaining[i]);
                } else {
                    assert(rest[i - 1] == remaining[i]);
                }
            }
        }
    }
}

/// Whether the search succeeds does not depend on the preferences.
pub proof fn lemma_same_success(p: Resolver, q: Resolver, s: bool, ds: Seq<DecisionView>)
    requires
        same_base(p, q),
        agree_on_releases(p, q),
        well_formed(p, ds),
    ensures
        solution(p, s, ds) is Some == solution(q, s, ds) is Some,
    decreases
            undecided(p, ds, p.index.packages.len() as int),
            inactive(ds, ds.len() as int),
            1int,
            0int,
{
    let refs = active(p, ds);
    lemma_same_active(p, q, ds);
    lemma_active_ok(p, ds);
    lemma_same_conflict(p, q, ds, refs);
    lemma_same_first_missing(p, q, ds, refs, 0);
    lemma_same_pick(p, q, s, ds, refs, refs.len() as int);
    if conflict(p, ds, refs) {
    } else {
        match first_missing(p, ds, refs, 0) {
            Some((h, j)) => {
                lemma_first_missing(p, ds, refs, 0);
                let nd = activate(ds, h, j);
                assert(well_formed(p, nd)) by {
                    assert forall|i: int| 0 <= i < nd.len() implies decision_ok(p, #[trigger] nd[i]) by {
                        assert(decision_ok(p, ds[i]));
                    }
                }
                lemma_activate_undecided(p, ds, h, j, p.index.packages.len() as int);
                lemma_activate_inactive(ds, h, j, ds.len() as int);
                lemma_same_success(p, q, s, nd);
            },
            None => match pick(p, s, ds, refs, refs.len() as int) {
                None => {},
                Some(k) => {
                    lemma_pick(p, s, ds, refs, refs.len() as int);
                    match target(p, refs[k]) {
                        None => {},
                        Some(pi) => {
                            lemma_package_from(p.index.packages, requirement_at(p, refs[k]).name@, 0);
                            assert(names(p, refs[k], pi));
                            let n = p.index.packages@[pi as int].releases.len() as int;
                            lemma_same_eligible(p, q, s, refs, pi, n);
                            lemma_eligible(p, s, refs, pi as int, n);
                            let remaining = eligible(p, s, refs, pi as int);
                            lemma_among_some(p, s, ds, pi, remaining);
                            lemma_among_some(q, s, ds, pi, remaining);
                            assert forall|i: int| 0 <= i < remaining.len() implies succeeds(
                                p,
                                s,
                                ds,
                                pi,
                                #[trigger] remaining[i],
                            ) == succeeds(q, s, ds, pi, remaining[i]) by {
                                let d = fresh(p, pi, remaining[i]);
                                assert(d == fresh(q, pi, remaining[i]));
                                let nd = ds.push(d);
                                lemma_push_undecided(p, ds, d, p.index.packages.len() as int);
                                assert(well_formed(p, nd)) by {
                                    assert forall|m: int| 0 <= m < nd.len() implies decision_ok(
                                        p,
                                        #[trigger] nd[m],
                                    ) by {
                                        if m < ds.len() {
                                            assert(decision_ok(p, ds[m]));
                                        }
                                    }
                                }
                                lemma_same_success(p, q, s, nd);
                            }
                        },
                    }
                },
            },
        }
    }
}

/// The release with which the search among the releases of a package
/// succeeds is the first in the order of trying with which it succeeds.
pub proof fn lemma_success_is_first(
    p: Resolver,
    s: bool,
    ds: Seq<DecisionView>,
    pi: usize,
    remaining: Seq<usize>,
) -> (c: usize)
    requires
        solution_among(p, s, ds, pi, remaining) is Some,
    ensures
        remaining.contains(c),
        solution(p, s, ds.push(fresh(p, pi, c))) == solution_among(p, s, ds, pi, remaining),
        forall|x: usize|
            remaining.contains(x) && #[trigger] before(p, pi as int, x as int, c as int) ==> !succeeds(
                p,
                s,
                ds,
                pi,
                x,
            ),
    decreases remaining.len(),
{
    let k = best_position(p, pi as int, remaining, remaining.len() as int);
    lemma_best_position_in_range(p, pi as int, remaining, remaining.len() as int);
    let b = remaining[k];
    let rest = remaining.remove(k);
    if succeeds(p, s, ds, pi, b) {
        assert forall|x: usize|
            remaining.contains(x) && #[trigger] before(p, pi as int, x as int, b as int) implies !succeeds(
            p,
            s,
            ds,
            pi,
            x,
        ) by {
            let at = choose|at: int| 0 <= at < remaining.len() && remaining[at] == x;
            lemma_best_is_first(p, pi as int, remaining, remaining.len() as int, at);
            if x == b {
                lemma_before_irreflexive(p, pi as int, x as int);
            } else {
                lemma_before_total(p, pi as int, x as int, b as int);
            }
        }
        b
    } else {
        let c = lemma_success_is_first(p, s, ds, pi, rest);
        lemma_remove_contains(remaining, k, c);
        assert forall|x: usize|
            remaining.contains(x) && #[trigger] before(p, pi as int, x as int, c as int) implies !succeeds(
            p,
            s,
            ds,
            pi,
            x,
        ) by {
            lemma_remove_contains(remaining, k, x);
        }
        c
    }
}

/// The search among the releases of a package gives what the search gives
/// with the first release, in the order of trying, with which it succeeds.
pub proof fn lemma_first_success(
    p: Resolver,
    s: bool,
    ds: Seq<DecisionView>,
    pi: usize,
    remaining: Seq<usize>,
    c: usize,
)
    requires
        pi < p.index.packages.len(),
        !decided(ds, pi),
        remaining.contains(c),
        succeeds(p, s, ds, pi, c),
        forall|x: usize|
            remaining.contains(x) && #[trigger] before(p, pi as int, x as int, c as int) ==> !succeeds(
                p,
                s,
                ds,
                pi,
                x,
            ),
    ensures
        solution_among(p, s, ds, pi, remaining) == solution(p, s, ds.push(fresh(p, pi, c))),
    decreases remaining.len(),
{
    let k = best_position(p, pi as int, remaining, remaining.len() as int);
    let at = choose|at: int| 0 <= at < remaining.len() && remaining[at] == c;
    lemma_best_position_in_range(p, pi as int, remaining, remaining.len() as int);
    let b = remaining[k];
    if b != c {
        lemma_best_is_first(p, pi as int, remaining, remaining.len() as int, at);
        assert(remaining.contains(b));
        assert(before(p, pi as int, b as int, c as int));
        assert(!succeeds(p, s, ds, pi, b));
        let rest = remaining.remove(k);
        lemma_remove_contains(remaining, k, c);
        assert forall|x: usize|
            rest.contains(x) && #[trigger] before(p, pi as int, x as int, c as int) implies !succeeds(
            p,
            s,
            ds,
            pi,
            x,
        ) by {
            lemma_remove_contains(remaining, k, x);
        }
        lemma_first_success(p, s, ds, pi, rest, c);
    }
}

/// Without preferences no release is preferred.
pub proof fn lemma_nothing_preferred(p: Resolver, name: Seq<char>, v: VersionView)
    requires
        p.manifest.preferences@.len() == 0,
    ensures
        !preferred(p, name, v),
{
}

/// A decision that something asked for is for the first package of its name.
pub proof fn lemma_decision_by_name(p: Resolver, s: bool, out: Seq<DecisionView>, i: int, pi: usize)
    requires
        sound(p, s, out),
        0 <= i < out.len(),
        asked(p, pi),
        name_of(p, out[i]) == p.index.packages@[pi as int].name@,
    ensures
        out[i].package == pi,
{
    assert(justified(p, out, i));
    let o = choose|o: Origin| #[trigger] justifies(p, out, i, o);
    lemma_package_from(p.index.packages, requirement_at(p, o).name@, 0);
    let w = choose|w: Origin| #[trigger] names(p, w, pi);
    lemma_package_from(p.index.packages, requirement_at(p, w).name@, 0);
}

/// Where `q` prefers what `p` found and differs from `p` in nothing else
/// that matters, `q` finds from every state on the way of `p` what `p` found.
pub proof fn lemma_same_path(p: Resolver, q: Resolver, s: bool, ds: Seq<DecisionView>, out: Seq<DecisionView>)
    requires
        same_base(p, q),
        agree_on_releases(p, q),
        p.manifest.preferences@.len() == 0,
        sound(p, s, ds),
        sound(p, s, out),
        solution(p, s, ds) == Some(out),
        prefers_outcome(p, q, out),
    ensures
        solution(q, s, ds) == Some(out),
    decreases
            undecided(p, ds, p.index.packages.len() as int),
            inactive(ds, ds.len() as int),
            1int,
            0int,
{
    let refs = active(p, ds);
    lemma_same_active(p, q, ds);
    lemma_active_ok(p, ds);
    lemma_same_conflict(p, q, ds, refs);
    lemma_same_first_missing(p, q, ds, refs, 0);
    lemma_same_pick(p, q, s, ds, refs, refs.len() as int);
    match first_missing(p, ds, refs, 0) {
        Some((h, j)) => {
            lemma_first_missing(p, ds, refs, 0);
            let k = lemma_first_missing_origin(p, ds, refs, 0);
            let o = refs[k];
            lemma_listed_is_active(p, ds, k);
            let pi = target(p, o)->0;
            lemma_holder(ds, pi, 0);
            lemma_missing_is_asked(p, ds[h], requirement_at(p, o).extras@, 0);
            assert(asks_extra(p, ds, h, j, o));
            lemma_sound_activate(p, s, ds, h, j, o);
            lemma_activate_undecided(p, ds, h, j, p.index.packages.len() as int);
            lemma_activate_inactive(ds, h, j, ds.len() as int);
            lemma_same_path(p, q, s, activate(ds, h, j), out);
        },
        None => match pick(p, s, ds, refs, refs.len() as int) {
            None => {},
            Some(k) => {
                lemma_pick(p, s, ds, refs, refs.len() as int);
                lemma_listed_is_active(p, ds, k);
                let pi = target(p, refs[k])->0;
                lemma_package_from(p.index.packages, requirement_at(p, refs[k]).name@, 0);
                assert(names(p, refs[k], pi));
                let n = p.index.packages@[pi as int].releases.len() as int;
                lemma_same_eligible(p, q, s, refs, pi, n);
                lemma_eligible(p, s, refs, pi as int, n);
                let remaining = eligible(p, s, refs, pi as int);
                let c = lemma_success_is_first(p, s, ds, pi, remaining);
                let at_c = choose|m: int| 0 <= m < remaining.len() && remaining[m] == c;
                let d = fresh(p, pi, c);
                let nd = ds.push(d);
                lemma_sound_push(p, s, ds, pi, c, refs[k]);
                lemma_push_undecided(p, ds, d, p.index.packages.len() as int);
                lemma_same_path(p, q, s, nd, out);
                assert(d == fresh(q, pi, c));
                assert(succeeds(q, s, ds, pi, c));
                lemma_extends(p, s, nd);
                assert(covered(nd, out, ds.len() as int));
                let at = choose|at: int| #[trigger] covers(nd, out, ds.len() as int, at);
                let name = p.index.packages@[pi as int].name@;
                let vc = release_at(p, pi as int, c as int).version@;
                lemma_order_reflexive(vc);
                assert(pinned_by(p, out, at, name, vc));
                assert(preferred(q, name, vc));
                assert forall|x: usize|
                    remaining.contains(x) && #[trigger] before(
                        q,
                        pi as int,
                        x as int,
                        c as int,
                    ) implies !succeeds(q, s, ds, pi, x) by {
                    let m = choose|m: int| 0 <= m < remaining.len() && remaining[m] == x;
                    let vx = release_at(p, pi as int, x as int).version@;
                    assert(in_index(p, pi as int, x as int));
                    assert(preferred(q, name, vx));
                    assert(pinned(p, out, name, vx));
                    let i = choose|i: int| 0 <= i < out.len() && #[trigger] pinned_by(p, out, i, name, vx);
                    lemma_decision_by_name(p, s, out, i, pi);
                    lemma_one_holder(out, i, at);
                    lemma_nothing_preferred(p, name, vx);
                    lemma_nothing_preferred(p, name, vc);
                    assert(before(p, pi as int, x as int, c as int));
                    assert(!succeeds(p, s, ds, pi, x));
                    let dx = fresh(p, pi, x);
                    assert(dx == fresh(q, pi, x));
                    let nx = ds.push(dx);
                    assert(well_formed(p, nx)) by {
                        assert forall|m: int| 0 <= m < nx.len() implies decision_ok(p, #[trigger] nx[m]) by {
                            if m < ds.len() {
                                assert(decision_ok(p, ds[m]));
                            }
                        }
                    }
                    lemma_same_success(p, q, s, nx);
                }
                lemma_first_success(q, s, ds, pi, remaining, c);
            },
        },
    }
}

/// Idempotence: where a manifest without preferences resolves to a graph,
/// the same manifest with every node of the graph pinned as a preference
/// resolves to the same graph. `q` is `p` with those preferences.
pub proof fn lemma_idempotent(p: Resolver, q: Resolver)
    requires
        resolution(p) is Ok,
        p.manifest.preferences@.len() == 0,
        same_base(p, q),
        p.manifest.constraints == q.manifest.constraints,
        pins_graph(q.manifest.preferences@, resolution(p)->Ok_0),
    ensures
        resolution(q) == resolution(p),
{
    lemma_outcome(p);
    let out = outcome(p);
    let g = resolution(p)->Ok_0;
    let s = second_pass(p);
    let none = Seq::<DecisionView>::empty();
    crate::neutrality::lemma_preferences_keep_releases(p, q);
    crate::agreement::lemma_same_violation(p, q, 0);
    let sorted = by_name(p, out, out.len() as int);
    assert(prefers_outcome(p, q, out)) by {
        assert forall|pi: int, ri: int| in_index(p, pi, ri) implies #[trigger] preferred(
            q,
            p.index.packages@[pi].name@,
            release_at(p, pi, ri).version@,
        ) == pinned(p, out, p.index.packages@[pi].name@, release_at(p, pi, ri).version@) by {
            let name = p.index.packages@[pi].name@;
            let v = release_at(p, pi, ri).version@;
            if preferred(q, name, v) {
                let n = choose|n: int|
                    0 <= n < q.manifest.preferences@.len() && #[trigger] preferred_at(q, n, name, v);
                let r = q.manifest.preferences@[n];
                assert(pins_node(r, g.nodes[n]));
                assert(satisfies(r.specifiers@[0].operator, r.specifiers@[0].version@, v));
                let i = lemma_node_is_decision(p, out, n);
                assert(pinned_by(p, out, i, name, v));
            }
            if pinned(p, out, name, v) {
                let i = choose|i: int| 0 <= i < out.len() && #[trigger] pinned_by(p, out, i, name, v);
                let n = lemma_decision_has_node(p, out, i);
                let r = q.manifest.preferences@[n];
                assert(pins_node(r, g.nodes[n]));
                assert(preferred_at(q, n, name, v));
            }
        }
    }
    crate::soundness::lemma_empty_sound(p, false);
    crate::soundness::lemma_empty_sound(p, true);
    if s {
        lemma_same_success(p, q, false, none);
        lemma_same_path(p, q, true, none, out);
    } else {
        lemma_same_path(p, q, false, none, out);
    }
    lemma_same_graph(p, q, out);
}

} // verus!
