//! What the search maintains and what it ends with: every decision is an
//! admissible release that something asked for, and in the end everything
//! that is asked for is met.

use crate::active::{
    declares_active, is_active, lemma_active_is_listed, lemma_applies_with_more,
    lemma_listed_is_active,
};
use crate::candidate::{
    admissible, best_position, in_index, lemma_best_position_in_range, Resolver,
};
use crate::index::lemma_package_from;
use crate::solver::{
    activate, active, chosen, conflict, decided, decision_ok, eligible, eligible_one,
    eligible_upto, extra_from, first_missing, fresh, holder, inactive, lemma_activate_inactive,
    lemma_activate_undecided, lemma_first_missing, lemma_holder, lemma_holder_decided,
    lemma_pick, lemma_push_undecided, missing_in, missing_of, offered, pending, pick,
    requirement_at, solution, solution_among, target, undecided, violated, well_formed,
    DecisionView, Origin,
};
use crate::specifier::all_satisfied;
use crate::text::lists;
use vstd::prelude::*;

verus! {

/// Whether no two decisions are for one package.
pub open spec fn distinct(ds: Seq<DecisionView>) -> bool {
    forall|i: int, j: int|
        #![trigger ds[i], ds[j]]
        0 <= i < j < ds.len() ==> ds[i].package != ds[j].package
}

/// Whether every decision is for a release that may be chosen.
pub open spec fn all_admissible(p: Resolver, second: bool, ds: Seq<DecisionView>) -> bool {
    forall|i: int|
        0 <= i < ds.len() ==> admissible(
            p,
            second,
            (#[trigger] ds[i]).package as int,
            ds[i].release as int,
        )
}

/// Whether the requirement at `o` asks for the package of decision `i` and
/// applies by the manifest and the decisions before `i` alone.
pub open spec fn justifies(p: Resolver, ds: Seq<DecisionView>, i: int, o: Origin) -> bool {
    is_active(p, ds.take(i), o) && target(p, o) == Some(ds[i].package)
}

/// Whether decision `i` was asked for by the manifest or an earlier decision.
pub open spec fn justified(p: Resolver, ds: Seq<DecisionView>, i: int) -> bool {
    exists|o: Origin| #[trigger] justifies(p, ds, i, o)
}

/// Whether every decision was asked for by the manifest or an earlier decision.
pub open spec fn all_justified(p: Resolver, ds: Seq<DecisionView>) -> bool {
    forall|i: int| 0 <= i < ds.len() ==> #[trigger] justified(p, ds, i)
}

/// Whether the requirement at `o` applies and asks extra `j` of the
/// package of decision `i`.
pub open spec fn asks_extra(p: Resolver, ds: Seq<DecisionView>, i: int, j: int, o: Origin) -> bool {
    is_active(p, ds, o) && target(p, o) == Some(ds[i].package) && lists(
        requirement_at(p, o).extras@,
        offered(p, ds[i].package as int, ds[i].release as int)[j]@,
    )
}

/// Whether a requirement that applies asks extra `j` of decision `i`.
pub open spec fn extra_justified(p: Resolver, ds: Seq<DecisionView>, i: int, j: int) -> bool {
    exists|o: Origin| #[trigger] asks_extra(p, ds, i, j, o)
}

/// Whether every extra that is asked of a decision is asked by a
/// requirement that applies.
pub open spec fn extras_justified(p: Resolver, ds: Seq<DecisionView>) -> bool {
    forall|i: int, j: int|
        0 <= i < ds.len() && 0 <= j < ds[i].extras.len() && ds[i].extras[j]
            ==> #[trigger] extra_justified(p, ds, i, j)
}

/// What holds of every state of the search.
pub open spec fn sound(p: Resolver, second: bool, ds: Seq<DecisionView>) -> bool {
    &&& well_formed(p, ds)
    &&& distinct(ds)
    &&& all_admissible(p, second, ds)
    &&& all_justified(p, ds)
    &&& extras_justified(p, ds)
}

/// Whether the requirement at `o` is met: a version was chosen for the
/// package that it names, the requirement admits that version, and every
/// extra that it asks for and that the release offers is noted.
pub open spec fn satisfied(p: Resolver, ds: Seq<DecisionView>, o: Origin) -> bool {
    match target(p, o) {
        Some(pi) => match holder(ds, pi) {
            Some(h) => all_satisfied(requirement_at(p, o).specifiers@, chosen(p, ds[h]))
                && missing_in(p, ds[h], requirement_at(p, o).extras@, 0) is None,
            None => false,
        },
        None => false,
    }
}

/// Whether every requirement that applies is met.
pub open spec fn settled(p: Resolver, ds: Seq<DecisionView>) -> bool {
    forall|o: Origin| #[trigger] is_active(p, ds, o) ==> satisfied(p, ds, o)
}

/// Whether `b` holds the decisions of `a` at the same places, with no
/// extra less asked for.
pub open spec fn grows(a: Seq<DecisionView>, b: Seq<DecisionView>) -> bool {
    a.len() <= b.len() && forall|i: int|
        0 <= i < a.len() ==> grows_at(#[trigger] a[i], b[i])
}

/// Whether `e` is the decision `d` with no extra less asked for.
pub open spec fn grows_at(d: DecisionView, e: DecisionView) -> bool {
    &&& d.package == e.package
    &&& d.release == e.release
    &&& d.extras.len() == e.extras.len()
    &&& forall|j: int| 0 <= j < d.extras.len() && d.extras[j] ==> e.extras[j]
}

/// What applies in a state applies in every state that it grows into.
pub proof fn lemma_active_grows(p: Resolver, a: Seq<DecisionView>, b: Seq<DecisionView>, o: Origin)
    requires
        grows(a, b),
        is_active(p, a, o),
    ensures
        is_active(p, b, o),
{
    match o {
        Origin::Manifest { .. } => {},
        Origin::Release { package, release, index } => {
            let i = choose|i: int| 0 <= i < a.len() && declares_active(p, #[trigger] a[i], o);
            assert(grows_at(a[i], b[i]));
            lemma_applies_with_more(
                p,
                a[i],
                b[i],
                crate::solver::declared(p, package as int, release as int)[index as int],
            );
            assert(declares_active(p, b[i], o));
        },
    }
}

/// Where nothing is violated, missing or pending, everything is met.
pub proof fn lemma_leaf_settled(p: Resolver, second: bool, ds: Seq<DecisionView>)
    requires
        !conflict(p, ds, active(p, ds)),
        first_missing(p, ds, active(p, ds), 0) is None,
        pick(p, second, ds, active(p, ds), active(p, ds).len() as int) is None,
    ensures
        settled(p, ds),
{
    let refs = active(p, ds);
    lemma_first_missing(p, ds, refs, 0);
    lemma_pick(p, second, ds, refs, refs.len() as int);
    assert forall|o: Origin| #[trigger] is_active(p, ds, o) implies satisfied(p, ds, o) by {
        let k = lemma_active_is_listed(p, ds, o);
        assert(!pending(p, ds, refs[k]));
        assert(!violated(p, ds, refs[k]));
        assert(missing_of(p, ds, refs[k]) is None);
        let pi = target(p, o)->0;
        lemma_holder_decided(ds, pi);
    }
}

/// What a found extra is.
pub proof fn lemma_extra_from(offered: Seq<String>, extra: Seq<char>, from: int)
    requires
        0 <= from,
    ensures
        extra_from(offered, extra, from) matches Some(j) ==> from <= j < offered.len()
            && offered[j]@ == extra,
    decreases offered.len() - from,
{
    if from < offered.len() && offered[from]@ != extra {
        lemma_extra_from(offered, extra, from + 1);
    }
}

/// A missing extra is one that is asked for.
pub proof fn lemma_missing_is_asked(p: Resolver, d: DecisionView, wanted: Seq<String>, from: int)
    requires
        0 <= from,
    ensures
        missing_in(p, d, wanted, from) matches Some(j) ==> 0 <= j < d.extras.len() && !d.extras[j]
            && lists(wanted, offered(p, d.package as int, d.release as int)[j]@),
    decreases wanted.len() - from,
{
    if from < wanted.len() {
        lemma_missing_is_asked(p, d, wanted, from + 1);
        lemma_extra_from(offered(p, d.package as int, d.release as int), wanted[from]@, 0);
        match extra_from(offered(p, d.package as int, d.release as int), wanted[from]@, 0) {
            Some(j) => {
                assert(wanted[from]@ == offered(p, d.package as int, d.release as int)[j]@);
            },
            None => {},
        }
    }
}

/// The requirement that asks for the first missing extra.
pub proof fn lemma_first_missing_origin(
    p: Resolver,
    ds: Seq<DecisionView>,
    refs: Seq<Origin>,
    from: int,
) -> (k: int)
    requires
        0 <= from,
        first_missing(p, ds, refs, from) is Some,
    ensures
        from <= k < refs.len(),
        missing_of(p, ds, refs[k]) == first_missing(p, ds, refs, from),
    decreases refs.len() - from,
{
    if missing_of(p, ds, refs[from]) is Some {
        from
    } else {
        lemma_first_missing_origin(p, ds, refs, from + 1)
    }
}

/// Every eligible release lies in the snapshot and may be chosen.
pub proof fn lemma_eligible(p: Resolver, second: bool, refs: Seq<Origin>, pi: int, n: int)
    requires
        0 <= n <= p.index.packages@[pi].releases.len(),
    ensures
        forall|k: int|
            0 <= k < eligible_upto(p, second, refs, pi, n).len() ==> {
                let ri = #[trigger] eligible_upto(p, second, refs, pi, n)[k];
                ri < n && eligible_one(p, second, refs, pi, ri as int)
            },
        forall|ri: int|
            0 <= ri < n && eligible_one(p, second, refs, pi, ri) ==> eligible_upto(
                p,
                second,
                refs,
                pi,
                n,
            ).contains(ri as usize),
    decreases n,
{
    if n > 0 {
        lemma_eligible(p, second, refs, pi, n - 1);
        let prev = eligible_upto(p, second, refs, pi, n - 1);
        let all = eligible_upto(p, second, refs, pi, n);
        assert forall|ri: int| 0 <= ri < n && eligible_one(
            p,
            second,
            refs,
            pi,
            ri,
        ) implies all.contains(ri as usize) by {
            if ri == n - 1 {
                assert(all[all.len() - 1] == ri as usize);
            } else {
                let k = choose|k: int| 0 <= k < prev.len() && prev[k] == ri as usize;
                assert(all[k] == ri as usize);
            }
        }
    }
}

/// A decision for a package that is asked for, and for one of its
/// admissible releases, keeps the state sound.
pub proof fn lemma_sound_push(
    p: Resolver,
    second: bool,
    ds: Seq<DecisionView>,
    pi: usize,
    ri: usize,
    o: Origin,
)
    requires
        sound(p, second, ds),
        !decided(ds, pi),
        in_index(p, pi as int, ri as int),
        admissible(p, second, pi as int, ri as int),
        is_active(p, ds, o),
        target(p, o) == Some(pi),
    ensures
        sound(p, second, ds.push(fresh(p, pi, ri))),
{
    let d = fresh(p, pi, ri);
    let nd = ds.push(d);
    assert(grows(ds, nd)) by {
        assert forall|i: int| 0 <= i < ds.len() implies grows_at(#[trigger] ds[i], nd[i]) by {}
    }
    assert(well_formed(p, nd)) by {
        assert forall|i: int| 0 <= i < nd.len() implies decision_ok(p, #[trigger] nd[i]) by {
            if i < ds.len() {
                assert(decision_ok(p, ds[i]));
            }
        }
    }
    assert(distinct(nd)) by {
        assert forall|i: int, j: int| #![trigger nd[i], nd[j]] 0 <= i < j < nd.len() implies nd[i].package
            != nd[j].package by {
            if j < ds.len() {
                assert(ds[i].package != ds[j].package);
            } else {
                assert(ds[i].package != pi);
            }
        }
    }
    assert(all_admissible(p, second, nd)) by {
        assert forall|i: int| 0 <= i < nd.len() implies admissible(
            p,
            second,
            (#[trigger] nd[i]).package as int,
            nd[i].release as int,
        ) by {
            if i < ds.len() {
                assert(admissible(p, second, ds[i].package as int, ds[i].release as int));
            }
        }
    }
    assert(all_justified(p, nd)) by {
        assert forall|i: int| 0 <= i < nd.len() implies #[trigger] justified(p, nd, i) by {
            if i < ds.len() {
                assert(justified(p, ds, i));
                let w = choose|w: Origin| #[trigger] justifies(p, ds, i, w);
                assert(nd.take(i) =~= ds.take(i));
                assert(justifies(p, nd, i, w));
            } else {
                assert(nd.take(i) =~= ds);
                assert(justifies(p, nd, i, o));
            }
        }
    }
    assert(extras_justified(p, nd)) by {
        assert forall|i: int, j: int|
            0 <= i < nd.len() && 0 <= j < nd[i].extras.len()
                && nd[i].extras[j] implies #[trigger] extra_justified(p, nd, i, j) by {
            if i < ds.len() {
                assert(extra_justified(p, ds, i, j));
                let w = choose|w: Origin| #[trigger] asks_extra(p, ds, i, j, w);
                lemma_active_grows(p, ds, nd, w);
                assert(asks_extra(p, nd, i, j, w));
            }
        }
    }
}

/// To note an extra that a requirement asks for keeps the state sound.
pub proof fn lemma_sound_activate(
    p: Resolver,
    second: bool,
    ds: Seq<DecisionView>,
    h: int,
    j: int,
    o: Origin,
)
    requires
        sound(p, second, ds),
        0 <= h < ds.len(),
        0 <= j < ds[h].extras.len(),
        asks_extra(p, ds, h, j, o),
    ensures
        sound(p, second, activate(ds, h, j)),
{
    let nd = activate(ds, h, j);
    assert(grows(ds, nd)) by {
        assert forall|i: int| 0 <= i < ds.len() implies grows_at(#[trigger] ds[i], nd[i]) by {}
    }
    assert(well_formed(p, nd)) by {
        assert forall|i: int| 0 <= i < nd.len() implies decision_ok(p, #[trigger] nd[i]) by {
            assert(decision_ok(p, ds[i]));
        }
    }
    assert(distinct(nd)) by {
        assert forall|i: int, k: int| #![trigger nd[i], nd[k]] 0 <= i < k < nd.len() implies nd[i].package
            != nd[k].package by {
            assert(ds[i].package != ds[k].package);
        }
    }
    assert(all_admissible(p, second, nd)) by {
        assert forall|i: int| 0 <= i < nd.len() implies admissible(
            p,
            second,
            (#[trigger] nd[i]).package as int,
            nd[i].release as int,
        ) by {
            assert(admissible(p, second, ds[i].package as int, ds[i].release as int));
        }
    }
    assert(all_justified(p, nd)) by {
        assert forall|i: int| 0 <= i < nd.len() implies #[trigger] justified(p, nd, i) by {
            assert(justified(p, ds, i));
            let w = choose|w: Origin| #[trigger] justifies(p, ds, i, w);
            assert(grows(ds.take(i), nd.take(i))) by {
                assert forall|k: int| 0 <= k < ds.take(i).len() implies grows_at(
                    #[trigger] ds.take(i)[k],
                    nd.take(i)[k],
                ) by {
                    assert(grows_at(ds[k], nd[k]));
                }
            }
            lemma_active_grows(p, ds.take(i), nd.take(i), w);
            assert(justifies(p, nd, i, w));
        }
    }
    assert(extras_justified(p, nd)) by {
        assert forall|i: int, k: int|
            0 <= i < nd.len() && 0 <= k < nd[i].extras.len()
                && nd[i].extras[k] implies #[trigger] extra_justified(p, nd, i, k) by {
            if i == h && k == j {
                lemma_active_grows(p, ds, nd, o);
                assert(asks_extra(p, nd, i, k, o));
            } else {
                assert(ds[i].extras[k]);
                assert(extra_justified(p, ds, i, k));
                let w = choose|w: Origin| #[trigger] asks_extra(p, ds, i, k, w);
                lemma_active_grows(p, ds, nd, w);
                assert(asks_extra(p, nd, i, k, w));
            }
        }
    }
}

/// From a sound state the search ends, if it ends with decisions at all,
/// in a sound state in which every requirement that applies is met.
pub proof fn lemma_search_sound(p: Resolver, second: bool, ds: Seq<DecisionView>)
    requires
        sound(p, second, ds),
    ensures
        solution(p, second, ds) matches Some(out) ==> sound(p, second, out) && settled(p, out),
    decreases
            undecided(p, ds, p.index.packages.len() as int),
            inactive(ds, ds.len() as int),
            1int,
            0int,
{
    let refs = active(p, ds);
    if conflict(p, ds, refs) {
    } else {
        match first_missing(p, ds, refs, 0) {
            Some((h, j)) => {
                lemma_first_missing(p, ds, refs, 0);
                let k = lemma_first_missing_origin(p, ds, refs, 0);
                let o = refs[k];
                lemma_listed_is_active(p, ds, k);
                let pi = target(p, o)->0;
                lemma_holder(ds, pi, 0);
                lemma_missing_is_asked(p, ds[h], requirement_at(p, o).extras@, 0);
                assert(asks_extra(p, ds, h, j, o));
                lemma_sound_activate(p, second, ds, h, j, o);
                lemma_activate_undecided(p, ds, h, j, p.index.packages.len() as int);
                lemma_activate_inactive(ds, h, j, ds.len() as int);
                lemma_search_sound(p, second, activate(ds, h, j));
            },
            None => match pick(p, second, ds, refs, refs.len() as int) {
                None => {
                    lemma_leaf_settled(p, second, ds);
                },
                Some(k) => {
                    lemma_pick(p, second, ds, refs, refs.len() as int);
                    lemma_listed_is_active(p, ds, k);
                    match target(p, refs[k]) {
                        None => {},
                        Some(pi) => {
                            lemma_package_from(p.index.packages, requirement_at(p, refs[k]).name@, 0);
                            lemma_eligible(
                                p,
                                second,
                                refs,
                                pi as int,
                                p.index.packages@[pi as int].releases.len() as int,
                            );
                            lemma_among_sound(
                                p,
                                second,
                                ds,
                                pi,
                                eligible(p, second, refs, pi as int),
                                refs[k],
                            );
                        },
                    }
                },
            },
        }
    }
}

/// The same for the search among the releases `remaining` of a package
/// that the requirement at `o` asks for.
pub proof fn lemma_among_sound(
    p: Resolver,
    second: bool,
    ds: Seq<DecisionView>,
    pi: usize,
    remaining: Seq<usize>,
    o: Origin,
)
    requires
        sound(p, second, ds),
        pi < p.index.packages.len(),
        !decided(ds, pi),
        is_active(p, ds, o),
        target(p, o) == Some(pi),
        forall|i: int|
            0 <= i < remaining.len() ==> in_index(p, pi as int, (#[trigger] remaining[i]) as int)
                && admissible(p, second, pi as int, remaining[i] as int),
    ensures
        solution_among(p, second, ds, pi, remaining) matches Some(out) ==> sound(p, second, out)
            && settled(p, out),
    decreases
            undecided(p, ds, p.index.packages.len() as int),
            inactive(ds, ds.len() as int),
            0int,
            remaining.len(),
{
    if remaining.len() > 0 {
        let k = best_position(p, pi as int, remaining, remaining.len() as int);
        lemma_best_position_in_range(p, pi as int, remaining, remaining.len() as int);
        let d = fresh(p, pi, remaining[k]);
        lemma_sound_push(p, second, ds, pi, remaining[k], o);
        lemma_push_undecided(p, ds, d, p.index.packages.len() as int);
        lemma_search_sound(p, second, ds.push(d));
        if solution(p, second, ds.push(d)) is None {
            let rest = remaining.remove(k);
            assert forall|i: int| 0 <= i < rest.len() implies in_index(
                p,
                pi as int,
                (#[trigger] rest[i]) as int,
            ) && admissible(p, second, pi as int, rest[i] as int) by {
                if i < k {
                    assert(rest[i] == remaining[i]);
                } else {
                    assert(rest[i] == remaining[i + 1]);
                }
            }
            lemma_among_sound(p, second, ds, pi, rest, o);
        }
    }
}

/// The state without decisions is sound.
pub proof fn lemma_empty_sound(p: Resolver, second: bool)
    ensures
        sound(p, second, Seq::empty()),
{
}

} // verus!
