//! The search finds decisions wherever there are any to be found.

use crate::active::{declares_active, is_active, lemma_applies_with_more, lemma_listed_is_active};
use crate::candidate::{
    admissible, best_position, in_index, lemma_best_position_in_range, release_at, Resolver,
};
use crate::index::lemma_package_from;
use crate::solver::{
    activate, active, chosen, conflict, decided, decision_ok, eligible, eligible_one,
    extra_from, first_missing, fresh, holder, inactive, lemma_activate_inactive,
    lemma_activate_undecided, lemma_first_missing, lemma_holder, lemma_pick,
    lemma_push_undecided, missing_in, missing_of, offered, pick, requirement_at, solution,
    solution_among, target, undecided, violated, wanted, wanted_by, well_formed, DecisionView,
    Origin,
};
use crate::soundness::{
    all_admissible, distinct, grows_at, lemma_eligible, lemma_first_missing_origin, satisfied,
    settled,
};
use vstd::prelude::*;

verus! {

/// Whether decision `i'` of `t` is decision `i` of `ds`, with no extra
/// less asked for.
pub open spec fn covers(ds: Seq<DecisionView>, t: Seq<DecisionView>, i: int, at: int) -> bool {
    0 <= at < t.len() && grows_at(ds[i], t[at])
}

/// Whether `t` holds every decision of `ds`, with no extra less asked for.
pub open spec fn contained(ds: Seq<DecisionView>, t: Seq<DecisionView>) -> bool {
    forall|i: int| 0 <= i < ds.len() ==> #[trigger] covered(ds, t, i)
}

/// Whether `t` holds decision `i` of `ds`, with no extra less asked for.
pub open spec fn covered(ds: Seq<DecisionView>, t: Seq<DecisionView>, i: int) -> bool {
    exists|at: int| #[trigger] covers(ds, t, i, at)
}

/// Whether the decisions `t` answer the manifest: they are for distinct
/// packages and for releases that may be chosen, and they meet every
/// requirement that applies to them.
pub open spec fn complete(p: Resolver, second: bool, t: Seq<DecisionView>) -> bool {
    &&& well_formed(p, t)
    &&& distinct(t)
    &&& all_admissible(p, second, t)
    &&& settled(p, t)
}

/// What applies in a state applies in every state that contains it.
pub proof fn lemma_active_contained(p: Resolver, ds: Seq<DecisionView>, t: Seq<DecisionView>, o: Origin)
    requires
        contained(ds, t),
        is_active(p, ds, o),
    ensures
        is_active(p, t, o),
{
    match o {
        Origin::Manifest { .. } => {},
        Origin::Release { package, release, index } => {
            let i = choose|i: int| 0 <= i < ds.len() && declares_active(p, #[trigger] ds[i], o);
            assert(covered(ds, t, i));
            let at = choose|at: int| #[trigger] covers(ds, t, i, at);
            lemma_applies_with_more(
                p,
                ds[i],
                t[at],
                crate::solver::declared(p, package as int, release as int)[index as int],
            );
            assert(declares_active(p, t[at], o));
        },
    }
}

/// The decision of `t` for the package of decision `h` of `ds` is that
/// decision, with no extra less asked for.
pub proof fn lemma_same_holder(ds: Seq<DecisionView>, t: Seq<DecisionView>, h: int, g: int)
    requires
        contained(ds, t),
        distinct(t),
        0 <= h < ds.len(),
        0 <= g < t.len(),
        t[g].package == ds[h].package,
    ensures
        grows_at(ds[h], t[g]),
{
    assert(covered(ds, t, h));
    let at = choose|at: int| #[trigger] covers(ds, t, h, at);
    if at < g {
        assert(t[at].package != t[g].package);
    } else if g < at {
        assert(t[g].package != t[at].package);
    }
}

/// Where no extra is missing, every extra that is asked for and offered is noted.
pub proof fn lemma_none_missing(p: Resolver, d: DecisionView, wanted: Seq<String>, from: int, f: int)
    requires
        0 <= from <= f < wanted.len(),
        missing_in(p, d, wanted, from) is None,
    ensures
        extra_from(offered(p, d.package as int, d.release as int), wanted[f]@, 0) matches Some(j)
            ==> !(0 <= j < d.extras.len()) || d.extras[j],
    decreases f - from,
{
    if from < f {
        lemma_none_missing(p, d, wanted, from + 1, f);
    }
}

/// A missing extra is the place of one of the extras that are asked for.
pub proof fn lemma_missing_place(p: Resolver, d: DecisionView, wanted: Seq<String>, from: int) -> (f: int)
    requires
        0 <= from,
        missing_in(p, d, wanted, from) is Some,
    ensures
        from <= f < wanted.len(),
        extra_from(offered(p, d.package as int, d.release as int), wanted[f]@, 0) == Some(
            missing_in(p, d, wanted, from)->0,
        ),
    decreases wanted.len() - from,
{
    match extra_from(offered(p, d.package as int, d.release as int), wanted[from]@, 0) {
        Some(j) => {
            if 0 <= j < d.extras.len() && !d.extras[j] {
                from
            } else {
                lemma_missing_place(p, d, wanted, from + 1)
            }
        },
        None => lemma_missing_place(p, d, wanted, from + 1),
    }
}

/// A state with one more extra noted is still contained in decisions that
/// meet the requirement that asks for the extra.
pub proof fn lemma_contained_activate(
    p: Resolver,
    ds: Seq<DecisionView>,
    t: Seq<DecisionView>,
    h: int,
    j: int,
    o: Origin,
)
    requires
        contained(ds, t),
        distinct(t),
        settled(p, t),
        is_active(p, ds, o),
        missing_of(p, ds, o) == Some((h, j)),
        0 <= h < ds.len(),
        0 <= j < ds[h].extras.len(),
    ensures
        contained(activate(ds, h, j), t),
{
    let nd = activate(ds, h, j);
    lemma_active_contained(p, ds, t, o);
    assert(satisfied(p, t, o));
    let pi = target(p, o)->0;
    lemma_holder(ds, pi, 0);
    lemma_holder(t, pi, 0);
    let g = holder(t, pi)->0;
    lemma_same_holder(ds, t, h, g);
    let wanted = requirement_at(p, o).extras@;
    let f = lemma_missing_place(p, ds[h], wanted, 0);
    lemma_none_missing(p, t[g], wanted, 0, f);
    assert(t[g].extras[j]);
    assert forall|i: int| 0 <= i < nd.len() implies #[trigger] covered(nd, t, i) by {
        assert(covered(ds, t, i));
        let at = choose|at: int| #[trigger] covers(ds, t, i, at);
        if i == h {
            lemma_same_holder(ds, t, h, at);
            if at < g {
                assert(t[at].package != t[g].package);
            } else if g < at {
                assert(t[g].package != t[at].package);
            }
            assert(covers(nd, t, i, g));
        } else {
            assert(covers(nd, t, i, at));
        }
    }
}

/// From every state that is contained in decisions that answer the
/// manifest, the search finds decisions.
pub proof fn lemma_search_complete(p: Resolver, second: bool, ds: Seq<DecisionView>, t: Seq<DecisionView>)
    requires
        well_formed(p, ds),
        complete(p, second, t),
        contained(ds, t),
    ensures
        solution(p, second, ds) is Some,
    decreases
            undecided(p, ds, p.index.packages.len() as int),
            inactive(ds, ds.len() as int),
            1int,
            0int,
{
    let refs = active(p, ds);
    if conflict(p, ds, refs) {
        let k = choose|k: int| 0 <= k < refs.len() && violated(p, ds, #[trigger] refs[k]);
        let o = refs[k];
        lemma_listed_is_active(p, ds, k);
        lemma_active_contained(p, ds, t, o);
        assert(satisfied(p, t, o));
        let pi = target(p, o)->0;
        lemma_holder(ds, pi, 0);
        lemma_holder(t, pi, 0);
        lemma_same_holder(ds, t, holder(ds, pi)->0, holder(t, pi)->0);
        assert(false);
    } else {
        match first_missing(p, ds, refs, 0) {
            Some((h, j)) => {
                lemma_first_missing(p, ds, refs, 0);
                let k = lemma_first_missing_origin(p, ds, refs, 0);
                lemma_listed_is_active(p, ds, k);
                lemma_contained_activate(p, ds, t, h, j, refs[k]);
                let nd = activate(ds, h, j);
                assert(well_formed(p, nd)) by {
                    assert forall|i: int| 0 <= i < nd.len() implies decision_ok(p, #[trigger] nd[i]) by {
                        assert(decision_ok(p, ds[i]));
                    }
                }
                lemma_activate_undecided(p, ds, h, j, p.index.packages.len() as int);
                lemma_activate_inactive(ds, h, j, ds.len() as int);
                lemma_search_complete(p, second, nd, t);
            },
            None => match pick(p, second, ds, refs, refs.len() as int) {
                None => {},
                Some(k) => {
                    lemma_pick(p, second, ds, refs, refs.len() as int);
                    let o = refs[k];
                    lemma_listed_is_active(p, ds, k);
                    lemma_active_contained(p, ds, t, o);
                    assert(satisfied(p, t, o));
                    let pi = target(p, o)->0;
                    lemma_package_from(p.index.packages, requirement_at(p, o).name@, 0);
                    lemma_holder(t, pi, 0);
                    let g = holder(t, pi)->0;
                    let rt = t[g].release;
                    assert(decision_ok(p, t[g]));
                    assert(admissible(p, second, t[g].package as int, t[g].release as int));
                    let name = p.index.packages@[pi as int].name@;
                    let v = release_at(p, pi as int, rt as int).version@;
                    assert(wanted(p, refs, name, v)) by {
                        assert forall|m: int| 0 <= m < refs.len() implies wanted_by(
                            p,
                            #[trigger] refs[m],
                            name,
                            v,
                        ) by {
                            if requirement_at(p, refs[m]).name@ == name {
                                lemma_listed_is_active(p, ds, m);
                                lemma_active_contained(p, ds, t, refs[m]);
                                assert(satisfied(p, t, refs[m]));
                            }
                        }
                    }
                    assert(eligible_one(p, second, refs, pi as int, rt as int));
                    lemma_eligible(
                        p,
                        second,
                        refs,
                        pi as int,
                        p.index.packages@[pi as int].releases.len() as int,
                    );
                    lemma_among_complete(
                        p,
                        second,
                        ds,
                        pi,
                        eligible(p, second, refs, pi as int),
                        t,
                        g,
                    );
                },
            },
        }
    }
}

/// The same for the search among the releases `remaining`, one of which
/// is the release that `t` holds for the package.
pub proof fn lemma_among_complete(
    p: Resolver,
    second: bool,
    ds: Seq<DecisionView>,
    pi: usize,
    remaining: Seq<usize>,
    t: Seq<DecisionView>,
    g: int,
)
    requires
        well_formed(p, ds),
        complete(p, second, t),
        contained(ds, t),
        pi < p.index.packages.len(),
        !decided(ds, pi),
        0 <= g < t.len(),
        t[g].package == pi,
        remaining.contains(t[g].release),
        forall|i: int|
            0 <= i < remaining.len() ==> in_index(p, pi as int, (#[trigger] remaining[i]) as int)
                && admissible(p, second, pi as int, remaining[i] as int),
    ensures
        solution_among(p, second, ds, pi, remaining) is Some,
    decreases
            undecided(p, ds, p.index.packages.len() as int),
            inactive(ds, ds.len() as int),
            0int,
            remaining.len(),
{
    let k = best_position(p, pi as int, remaining, remaining.len() as int);
    lemma_best_position_in_range(p, pi as int, remaining, remaining.len() as int);
    let d = fresh(p, pi, remaining[k]);
    let nd = ds.push(d);
    lemma_push_undecided(p, ds, d, p.index.packages.len() as int);
    assert(well_formed(p, nd)) by {
        assert forall|i: int| 0 <= i < nd.len() implies decision_ok(p, #[trigger] nd[i]) by {
            if i < ds.len() {
                assert(decision_ok(p, ds[i]));
            }
        }
    }
    if remaining[k] == t[g].release {
        assert(contained(nd, t)) by {
            assert forall|i: int| 0 <= i < nd.len() implies #[trigger] covered(nd, t, i) by {
                if i < ds.len() {
                    assert(covered(ds, t, i));
                    let at = choose|at: int| #[trigger] covers(ds, t, i, at);
                    assert(covers(nd, t, i, at));
                } else {
                    assert(decision_ok(p, t[g]));
                    assert(covers(nd, t, i, g));
                }
            }
        }
        lemma_search_complete(p, second, nd, t);
    } else if solution(p, second, nd) is None {
        let rest = remaining.remove(k);
        let at = choose|at: int| 0 <= at < remaining.len() && remaining[at] == t[g].release;
        if at < k {
            assert(rest[at] == t[g].release);
        } else {
            assert(rest[at - 1] == t[g].release);
        }
        assert forall|i: int| 0 <= i < rest.len() implies in_index(
            p,
            pi as int,
            (#[trigger] rest[i]) as int,
        ) && admissible(p, second, pi as int, rest[i] as int) by {
            if i < k {
                assert(rest[i] == remaining[i]);
            } else {
                assert(rest[i] == remaining[i + 1]);
            }
        }
        lemma_among_complete(p, second, ds, pi, rest, t, g);
    }
}

/// Where some decisions answer the manifest, the search finds decisions:
/// it fails only where there is nothing to be found.
pub proof fn lemma_found_where_possible(p: Resolver, second: bool, t: Seq<DecisionView>)
    requires
        complete(p, second, t),
    ensures
        solution(p, second, Seq::empty()) is Some,
{
    lemma_search_complete(p, second, Seq::empty(), t);
}

} // verus!
