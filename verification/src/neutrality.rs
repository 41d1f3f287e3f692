//! Constraints and preferences that change nothing.

use crate::active::{declares_active, is_active};
use crate::agreement::{
    agree_on_order, agree_on_releases, asked, lemma_same_admissible, lemma_same_applies,
    lemma_same_explicit, lemma_same_missing_in, lemma_same_resolution, lemma_same_root_pins,
    lemma_same_violation, names, same_base, same_constraints_on,
};
use crate::completeness::complete;
use crate::laws::{lemma_success_answers, lemma_success_is_owed, outcome};
use crate::manifest::PreReleaseMode;
use crate::soundness::{all_admissible, satisfied, settled};
use crate::candidate::{
    admissible, ascending, before, constraint_admits, constraints_admit, direct, direct_at,
    in_index, preferred, preferred_at, release_at, Resolver,
};
use crate::index::lemma_package_from;
use crate::requirement::Requirement;
use crate::resolve::resolution;
use crate::solver::{
    declared, decision_ok, holder, origin_ok, requirement_at, target, well_formed, DecisionView,
    Origin,
};
use crate::specifier::all_satisfied;
use crate::version::VersionView;
use vstd::prelude::*;

verus! {

proof fn lemma_same_constraints(p: Resolver, q: Resolver, name: Seq<char>, v: VersionView)
    requires
        p.markers == q.markers,
        p.manifest.constraints == q.manifest.constraints,
    ensures
        constraints_admit(p, name, v) == constraints_admit(q, name, v),
{
    if constraints_admit(p, name, v) {
        assert forall|i: int| 0 <= i < q.manifest.constraints@.len() implies #[trigger] constraint_admits(
            q,
            i,
            name,
            v,
        ) by {
            assert(constraint_admits(p, i, name, v));
        }
    }
    if constraints_admit(q, name, v) {
        assert forall|i: int| 0 <= i < p.manifest.constraints@.len() implies #[trigger] constraint_admits(
            p,
            i,
            name,
            v,
        ) by {
            assert(constraint_admits(q, i, name, v));
        }
    }
}

proof fn lemma_one_more_constraint(p: Resolver, q: Resolver, c: Requirement, name: Seq<char>, v: VersionView)
    requires
        p.markers == q.markers,
        q.manifest.constraints@ == p.manifest.constraints@.push(c),
        c.name@ != name,
    ensures
        constraints_admit(p, name, v) == constraints_admit(q, name, v),
{
    let n = p.manifest.constraints@.len() as int;
    if constraints_admit(p, name, v) {
        assert forall|i: int| 0 <= i < q.manifest.constraints@.len() implies #[trigger] constraint_admits(
            q,
            i,
            name,
            v,
        ) by {
            if i < n {
                assert(constraint_admits(p, i, name, v));
                assert(q.manifest.constraints@[i] == p.manifest.constraints@[i]);
            } else {
                assert(q.manifest.constraints@[i] == c);
            }
        }
    }
    if constraints_admit(q, name, v) {
        assert forall|i: int| 0 <= i < p.manifest.constraints@.len() implies #[trigger] constraint_admits(
            p,
            i,
            name,
            v,
        ) by {
            assert(constraint_admits(q, i, name, v));
            assert(q.manifest.constraints@[i] == p.manifest.constraints@[i]);
        }
    }
}

proof fn lemma_same_preferred(p: Resolver, q: Resolver, name: Seq<char>, v: VersionView)
    requires
        p.manifest.preferences == q.manifest.preferences,
    ensures
        preferred(p, name, v) == preferred(q, name, v),
{
    if preferred(p, name, v) {
        let i = choose|i: int| 0 <= i < p.manifest.preferences@.len() && #[trigger] preferred_at(p, i, name, v);
        assert(preferred_at(q, i, name, v));
    }
    if preferred(q, name, v) {
        let i = choose|i: int| 0 <= i < q.manifest.preferences@.len() && #[trigger] preferred_at(q, i, name, v);
        assert(preferred_at(p, i, name, v));
    }
}

proof fn lemma_one_more_preference(p: Resolver, q: Resolver, r: Requirement, name: Seq<char>, v: VersionView)
    requires
        q.manifest.preferences@ == p.manifest.preferences@.push(r),
        !(r.name@ == name && all_satisfied(r.specifiers@, v)),
    ensures
        preferred(p, name, v) == preferred(q, name, v),
{
    let n = p.manifest.preferences@.len() as int;
    if preferred(p, name, v) {
        let i = choose|i: int| 0 <= i < p.manifest.preferences@.len() && #[trigger] preferred_at(p, i, name, v);
        assert(q.manifest.preferences@[i] == p.manifest.preferences@[i]);
        assert(preferred_at(q, i, name, v));
    }
    if preferred(q, name, v) {
        let i = choose|i: int| 0 <= i < q.manifest.preferences@.len() && #[trigger] preferred_at(q, i, name, v);
        if i < n {
            assert(q.manifest.preferences@[i] == p.manifest.preferences@[i]);
            assert(preferred_at(p, i, name, v));
        } else {
            assert(q.manifest.preferences@[i] == r);
        }
    }
}

proof fn lemma_same_ascending(p: Resolver, q: Resolver, name: Seq<char>)
    requires
        same_base(p, q),
    ensures
        ascending(p, name) == ascending(q, name),
{
    if direct(p, name) {
        let i = choose|i: int| 0 <= i < p.manifest.requirements@.len() && #[trigger] direct_at(p, i, name);
        assert(direct_at(q, i, name));
    }
    if direct(q, name) {
        let i = choose|i: int| 0 <= i < q.manifest.requirements@.len() && #[trigger] direct_at(q, i, name);
        assert(direct_at(p, i, name));
    }
}

/// Which releases may be chosen does not depend on the preferences.
pub proof fn lemma_preferences_keep_releases(p: Resolver, q: Resolver)
    requires
        same_base(p, q),
        p.manifest.constraints == q.manifest.constraints,
    ensures
        agree_on_releases(p, q),
{
    assert forall|s: bool, pi: usize, ri: usize|
        #![trigger admissible(p, s, pi as int, ri as int)]
        asked(p, pi) && in_index(p, pi as int, ri as int) implies admissible(
        p,
        s,
        pi as int,
        ri as int,
    ) == admissible(q, s, pi as int, ri as int) by {
        assert(same_constraints_on(p, q, pi as int)) by {
            assert forall|k: int|
                0 <= k < p.index.packages@[pi as int].releases@.len() implies #[trigger] constraints_admit(
                p,
                p.index.packages@[pi as int].name@,
                release_at(p, pi as int, k).version@,
            ) == constraints_admit(
                q,
                p.index.packages@[pi as int].name@,
                release_at(p, pi as int, k).version@,
            ) by {
                lemma_same_constraints(
                    p,
                    q,
                    p.index.packages@[pi as int].name@,
                    release_at(p, pi as int, k).version@,
                );
            }
        }
        lemma_same_admissible(p, q, s, pi as int, ri as int);
    }
}

/// Preference neutrality: a preference that no release that may be chosen
/// matches has no effect. `q` is `p` with the preference `r` added.
pub proof fn lemma_preference_without_effect(p: Resolver, q: Resolver, r: Requirement)
    requires
        same_base(p, q),
        p.manifest.constraints == q.manifest.constraints,
        q.manifest.preferences@ == p.manifest.preferences@.push(r),
        forall|pi: int, ri: int|
            in_index(p, pi, ri) && p.index.packages@[pi].name@ == r.name@ && #[trigger] admissible(
                p,
                true,
                pi,
                ri,
            ) ==> !all_satisfied(r.specifiers@, release_at(p, pi, ri).version@),
    ensures
        resolution(q) == resolution(p),
{
    lemma_preferences_keep_releases(p, q);
    assert(agree_on_order(p, q)) by {
        assert forall|pi: usize, a: usize, b: usize|
            #![trigger before(p, pi as int, a as int, b as int)]
            asked(p, pi) && in_index(p, pi as int, a as int) && in_index(p, pi as int, b as int)
                && admissible(p, true, pi as int, a as int) && admissible(
                p,
                true,
                pi as int,
                b as int,
            ) implies before(p, pi as int, a as int, b as int) == before(
            q,
            pi as int,
            a as int,
            b as int,
        ) by {
            let name = p.index.packages@[pi as int].name@;
            lemma_one_more_preference(p, q, r, name, release_at(p, pi as int, a as int).version@);
            lemma_one_more_preference(p, q, r, name, release_at(p, pi as int, b as int).version@);
            lemma_same_ascending(p, q, name);
        }
    }
    lemma_same_resolution(p, q);
}

/// Constraints do not bring packages in: a constraint on a package that
/// no requirement of the manifest or the snapshot names has no effect.
/// `q` is `p` with the constraint `c` added.
pub proof fn lemma_constraint_on_unasked_package(p: Resolver, q: Resolver, c: Requirement)
    requires
        same_base(p, q),
        p.manifest.preferences == q.manifest.preferences,
        q.manifest.constraints@ == p.manifest.constraints@.push(c),
        forall|o: Origin| origin_ok(p, o) ==> (#[trigger] requirement_at(p, o)).name@ != c.name@,
    ensures
        resolution(q) == resolution(p),
{
    assert(agree_on_releases(p, q)) by {
        assert forall|s: bool, pi: usize, ri: usize|
            #![trigger admissible(p, s, pi as int, ri as int)]
            asked(p, pi) && in_index(p, pi as int, ri as int) implies admissible(
            p,
            s,
            pi as int,
            ri as int,
        ) == admissible(q, s, pi as int, ri as int) by {
            let o = choose|o: Origin| #[trigger] names(p, o, pi);
            lemma_package_from(p.index.packages, requirement_at(p, o).name@, 0);
            let name = p.index.packages@[pi as int].name@;
            assert(name != c.name@);
            assert(same_constraints_on(p, q, pi as int)) by {
                assert forall|k: int|
                    0 <= k < p.index.packages@[pi as int].releases@.len() implies #[trigger] constraints_admit(
                    p,
                    name,
                    release_at(p, pi as int, k).version@,
                ) == constraints_admit(q, name, release_at(p, pi as int, k).version@) by {
                    lemma_one_more_constraint(
                        p,
                        q,
                        c,
                        name,
                        release_at(p, pi as int, k).version@,
                    );
                }
            }
            lemma_same_admissible(p, q, s, pi as int, ri as int);
        }
    }
    assert(agree_on_order(p, q)) by {
        assert forall|pi: usize, a: usize, b: usize|
            #![trigger before(p, pi as int, a as int, b as int)]
            asked(p, pi) && in_index(p, pi as int, a as int) && in_index(
                p,
                pi as int,
                b as int,
            ) implies before(p, pi as int, a as int, b as int) == before(
            q,
            pi as int,
            a as int,
            b as int,
        ) by {
            let name = p.index.packages@[pi as int].name@;
            lemma_same_preferred(p, q, name, release_at(p, pi as int, a as int).version@);
            lemma_same_preferred(p, q, name, release_at(p, pi as int, b as int).version@);
            lemma_same_ascending(p, q, name);
        }
    }
    lemma_same_resolution(p, q);
}

/// The same requirements apply in two resolutions of one base.
pub proof fn lemma_same_is_active(p: Resolver, q: Resolver, ds: Seq<DecisionView>, o: Origin)
    requires
        same_base(p, q),
    ensures
        is_active(p, ds, o) == is_active(q, ds, o),
{
    match o {
        Origin::Manifest { .. } => {},
        Origin::Release { package, release, index } => {
            let r = declared(p, package as int, release as int)[index as int];
            if is_active(p, ds, o) {
                let i = choose|i: int| 0 <= i < ds.len() && declares_active(p, #[trigger] ds[i], o);
                lemma_same_applies(p, q, ds[i], r);
                assert(declares_active(q, ds[i], o));
            }
            if is_active(q, ds, o) {
                let i = choose|i: int| 0 <= i < ds.len() && declares_active(q, #[trigger] ds[i], o);
                lemma_same_applies(p, q, ds[i], r);
                assert(declares_active(p, ds[i], o));
            }
        },
    }
}

/// The same requirements are met in two resolutions of one base.
pub proof fn lemma_same_settled(p: Resolver, q: Resolver, ds: Seq<DecisionView>)
    requires
        same_base(p, q),
    ensures
        settled(p, ds) == settled(q, ds),
{
    assert forall|o: Origin| is_active(p, ds, o) == is_active(q, ds, o) && satisfied(p, ds, o)
        == satisfied(q, ds, o) by {
        lemma_same_is_active(p, q, ds, o);
        match target(p, o) {
            Some(pi) => match holder(ds, pi) {
                Some(h) => {
                    lemma_same_missing_in(p, q, ds[h], requirement_at(p, o).extras@, 0);
                },
                None => {},
            },
            None => {},
        }
    }
    if settled(p, ds) {
        assert forall|o: Origin| #[trigger] is_active(q, ds, o) implies satisfied(q, ds, o) by {
            assert(is_active(p, ds, o));
        }
    }
    if settled(q, ds) {
        assert forall|o: Origin| #[trigger] is_active(p, ds, o) implies satisfied(p, ds, o) by {
            assert(is_active(q, ds, o));
        }
    }
}

/// Monotonicity of constraints: what answers a manifest with one more
/// constraint answers the manifest without it. `q` is `p` with the
/// constraint `c` added. In a second pass under `IfNecessary` this fails,
/// since there a constraint can be what leaves a package without final release.
pub proof fn lemma_constraint_only_narrows(
    p: Resolver,
    q: Resolver,
    c: Requirement,
    s: bool,
    t: Seq<DecisionView>,
)
    requires
        same_base(p, q),
        q.manifest.constraints@ == p.manifest.constraints@.push(c),
        !(s && p.options.prerelease == PreReleaseMode::IfNecessary),
        complete(q, s, t),
    ensures
        complete(p, s, t),
{
    lemma_same_settled(p, q, t);
    assert(well_formed(p, t)) by {
        assert forall|i: int| 0 <= i < t.len() implies decision_ok(p, #[trigger] t[i]) by {
            assert(decision_ok(q, t[i]));
        }
    }
    assert(all_admissible(p, s, t)) by {
        assert forall|i: int| 0 <= i < t.len() implies admissible(
            p,
            s,
            (#[trigger] t[i]).package as int,
            t[i].release as int,
        ) by {
            let pi = t[i].package as int;
            let ri = t[i].release as int;
            assert(decision_ok(q, t[i]));
            assert(admissible(q, s, pi, ri));
            let name = p.index.packages@[pi].name@;
            let v = release_at(p, pi, ri).version@;
            lemma_same_root_pins(p, q, name, v);
            lemma_same_explicit(p, q, name);
            assert(constraints_admit(p, name, v)) by {
                assert forall|k: int| 0 <= k < p.manifest.constraints@.len() implies #[trigger] constraint_admits(
                    p,
                    k,
                    name,
                    v,
                ) by {
                    assert(constraint_admits(q, k, name, v));
                    assert(q.manifest.constraints@[k] == p.manifest.constraints@[k]);
                }
            }
        }
    }
}

/// A constraint never makes resolvable what was not: where the manifest
/// with one more constraint resolves, so does the manifest without it.
pub proof fn lemma_constraint_never_helps(p: Resolver, q: Resolver, c: Requirement)
    requires
        same_base(p, q),
        q.manifest.constraints@ == p.manifest.constraints@.push(c),
        p.options.prerelease != PreReleaseMode::IfNecessary,
        resolution(q) is Ok,
    ensures
        resolution(p) is Ok,
{
    lemma_success_answers(q);
    lemma_same_violation(p, q, 0);
    lemma_constraint_only_narrows(p, q, c, false, outcome(q));
    lemma_success_is_owed(p, outcome(q));
}

} // verus!
