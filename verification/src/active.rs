//! Which requirements apply in a state of the search, stated without
//! regard to their order.

use crate::candidate::{required_here, Resolver};
use crate::solver::{
    active, active_among, active_dependencies, active_roots, active_upto, declared,
    dependency_applies, under_extra, DecisionView, Origin,
};
use crate::requirement::Requirement;
use vstd::prelude::*;

verus! {

/// Whether the requirement at `o` is one that the release of `d` declares
/// and that applies to it.
pub open spec fn declares_active(p: Resolver, d: DecisionView, o: Origin) -> bool {
    match o {
        Origin::Manifest { .. } => false,
        Origin::Release { package, release, index } => d.package == package && d.release == release
            && index < declared(p, package as int, release as int).len() && dependency_applies(
            p,
            d,
            declared(p, package as int, release as int)[index as int],
        ),
    }
}

/// Whether the requirement at `o` applies in the state `ds`: it is a
/// requirement of the manifest that applies on the target, or one that a
/// chosen release declares and that applies to it.
pub open spec fn is_active(p: Resolver, ds: Seq<DecisionView>, o: Origin) -> bool {
    match o {
        Origin::Manifest { index } => index < p.manifest.requirements@.len() && required_here(
            p,
            p.manifest.requirements@[index as int],
        ),
        Origin::Release { .. } => exists|i: int|
            0 <= i < ds.len() && declares_active(p, #[trigger] ds[i], o),
    }
}

/// A list with one more item holds what it held, and the item.
pub proof fn lemma_push_contains<T>(s: Seq<T>, a: T, x: T)
    ensures
        s.push(a).contains(x) == (s.contains(x) || x == a),
{
    if s.contains(x) {
        let k = choose|k: int| 0 <= k < s.len() && s[k] == x;
        assert(s.push(a)[k] == x);
    }
    if x == a {
        assert(s.push(a)[s.len() as int] == x);
    }
    if s.push(a).contains(x) {
        let k = choose|k: int| 0 <= k < s.push(a).len() && s.push(a)[k] == x;
        if k < s.len() {
            assert(s[k] == x);
        }
    }
}

/// Two lists joined hold what either holds.
pub proof fn lemma_add_contains<T>(s: Seq<T>, t: Seq<T>, x: T)
    ensures
        (s + t).contains(x) == (s.contains(x) || t.contains(x)),
{
    if s.contains(x) {
        let k = choose|k: int| 0 <= k < s.len() && s[k] == x;
        assert((s + t)[k] == x);
    }
    if t.contains(x) {
        let k = choose|k: int| 0 <= k < t.len() && t[k] == x;
        assert((s + t)[s.len() + k] == x);
    }
    if (s + t).contains(x) {
        let k = choose|k: int| 0 <= k < (s + t).len() && (s + t)[k] == x;
        if k < s.len() {
            assert(s[k] == x);
        } else {
            assert(t[k - s.len()] == x);
        }
    }
}

/// The requirements of the manifest that are listed are those that apply.
pub proof fn lemma_active_roots(p: Resolver, n: int, o: Origin)
    requires
        0 <= n <= p.manifest.requirements.len(),
    ensures
        active_roots(p, n).contains(o) == (o matches Origin::Manifest { index } && index < n
            && required_here(p, p.manifest.requirements@[index as int])),
    decreases n,
{
    if n > 0 {
        lemma_active_roots(p, n - 1, o);
        if required_here(p, p.manifest.requirements@[n - 1]) {
            lemma_push_contains(
                active_roots(p, n - 1),
                Origin::Manifest { index: (n - 1) as usize },
                o,
            );
        }
    } else {
        assert(active_roots(p, n) =~= Seq::<Origin>::empty());
    }
}

/// The declared requirements that are listed are those that apply.
pub proof fn lemma_active_among(p: Resolver, d: DecisionView, declared: Vec<Requirement>, n: int, o: Origin)
    requires
        0 <= n <= declared.len(),
    ensures
        active_among(p, d, declared, n).contains(o) == (o matches Origin::Release {
            package,
            release,
            index,
        } && package == d.package && release == d.release && index < n && dependency_applies(
            p,
            d,
            declared@[index as int],
        )),
    decreases n,
{
    if n > 0 {
        lemma_active_among(p, d, declared, n - 1, o);
        if dependency_applies(p, d, declared@[n - 1]) {
            lemma_push_contains(
                active_among(p, d, declared, n - 1),
                Origin::Release { package: d.package, release: d.release, index: (n - 1) as usize },
                o,
            );
        }
    } else {
        assert(active_among(p, d, declared, n) =~= Seq::<Origin>::empty());
    }
}

/// The requirements listed for a release are those that it declares and
/// that apply to it.
pub proof fn lemma_active_dependencies(p: Resolver, d: DecisionView, o: Origin)
    ensures
        active_dependencies(p, d).contains(o) == declares_active(p, d, o),
{
    match crate::candidate::release_at(p, d.package as int, d.release as int).metadata {
        Some(m) => {
            lemma_active_among(p, d, m.requires_dist, m.requires_dist.len() as int, o);
        },
        None => {
            assert(active_dependencies(p, d) =~= Seq::<Origin>::empty());
        },
    }
}

/// The requirements listed for the manifest and the first `m` decisions.
pub proof fn lemma_active_upto(p: Resolver, ds: Seq<DecisionView>, m: int, o: Origin)
    requires
        0 <= m <= ds.len(),
    ensures
        active_upto(p, ds, m).contains(o) == (is_active(p, Seq::empty(), o) || exists|i: int|
            0 <= i < m && declares_active(p, #[trigger] ds[i], o)),
    decreases m,
{
    if m > 0 {
        lemma_active_upto(p, ds, m - 1, o);
        lemma_active_dependencies(p, ds[m - 1], o);
        lemma_add_contains(active_upto(p, ds, m - 1), active_dependencies(p, ds[m - 1]), o);
        if declares_active(p, ds[m - 1], o) {
            assert(exists|i: int| 0 <= i < m && declares_active(p, #[trigger] ds[i], o));
        }
    } else {
        lemma_active_roots(p, p.manifest.requirements.len() as int, o);
    }
}

/// The list of the requirements that apply holds exactly those that apply.
pub proof fn lemma_active(p: Resolver, ds: Seq<DecisionView>, o: Origin)
    ensures
        active(p, ds).contains(o) == is_active(p, ds, o),
{
    lemma_active_upto(p, ds, ds.len() as int, o);
}

/// Every requirement that is listed applies.
pub proof fn lemma_listed_is_active(p: Resolver, ds: Seq<DecisionView>, k: int)
    requires
        0 <= k < active(p, ds).len(),
    ensures
        is_active(p, ds, active(p, ds)[k]),
{
    lemma_active(p, ds, active(p, ds)[k]);
}

/// Every requirement that applies is listed.
pub proof fn lemma_active_is_listed(p: Resolver, ds: Seq<DecisionView>, o: Origin) -> (k: int)
    requires
        is_active(p, ds, o),
    ensures
        0 <= k < active(p, ds).len(),
        active(p, ds)[k] == o,
{
    lemma_active(p, ds, o);
    choose|k: int| 0 <= k < active(p, ds).len() && active(p, ds)[k] == o
}

/// A requirement that applies to a release still does when more extras
/// are asked of the release.
pub proof fn lemma_applies_with_more(p: Resolver, d: DecisionView, e: DecisionView, r: Requirement)
    requires
        d.package == e.package,
        d.release == e.release,
        d.extras.len() == e.extras.len(),
        forall|j: int| 0 <= j < d.extras.len() && d.extras[j] ==> e.extras[j],
        dependency_applies(p, d, r),
    ensures
        dependency_applies(p, e, r),
{
    if !required_here(p, r) {
        let j = choose|j: int| 0 <= j < d.extras.len() && #[trigger] under_extra(p, d, r, j);
        assert(under_extra(p, e, r, j));
    }
}

} // verus!
