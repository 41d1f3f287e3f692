//! The order in which the releases of a package are tried is a total
//! order, and the releases are tried along it.

use crate::candidate::{
    admissible_releases, before, best_position, candidate_releases, in_index,
    lemma_best_position_in_range, ordered, release_at, Candidate, Resolver,
};
use crate::index::best_file;
use crate::version::{lemma_order_composes, lemma_order_flips, lemma_order_reflexive};
use vstd::prelude::*;

verus! {

/// No release is tried before itself.
pub proof fn lemma_before_irreflexive(p: Resolver, pi: int, a: int)
    ensures
        !before(p, pi, a, a),
{
    lemma_order_reflexive(release_at(p, pi, a).version@);
}

/// Of two releases exactly one is tried before the other.
pub proof fn lemma_before_total(p: Resolver, pi: int, a: int, b: int)
    requires
        a != b,
    ensures
        before(p, pi, a, b) != before(p, pi, b, a),
{
    lemma_order_flips(release_at(p, pi, a).version@, release_at(p, pi, b).version@);
}

/// What is tried before a release is tried before all that comes after it.
pub proof fn lemma_before_transitive(p: Resolver, pi: int, a: int, b: int, c: int)
    requires
        before(p, pi, a, b),
        before(p, pi, b, c),
    ensures
        before(p, pi, a, c),
{
    let va = release_at(p, pi, a).version@;
    let vb = release_at(p, pi, b).version@;
    let vc = release_at(p, pi, c).version@;
    lemma_order_composes(va, vb, vc);
    lemma_order_flips(va, vb);
    lemma_order_flips(vb, vc);
    lemma_order_flips(va, vc);
}

/// The release that is tried first is tried before every other.
pub proof fn lemma_best_is_first(p: Resolver, pi: int, remaining: Seq<usize>, n: int, i: int)
    requires
        1 <= n <= remaining.len(),
        0 <= i < n,
    ensures
        remaining[i] == remaining[best_position(p, pi, remaining, n)] || before(
            p,
            pi,
            remaining[best_position(p, pi, remaining, n)] as int,
            remaining[i] as int,
        ),
    decreases n,
{
    if n > 1 {
        let b = best_position(p, pi, remaining, n - 1);
        lemma_best_position_in_range(p, pi, remaining, n - 1);
        let last = remaining[n - 1] as int;
        if i < n - 1 {
            lemma_best_is_first(p, pi, remaining, n - 1, i);
            if before(p, pi, last, remaining[b] as int) && remaining[i] != remaining[b] {
                lemma_before_transitive(p, pi, last, remaining[b] as int, remaining[i] as int);
            }
        } else if !before(p, pi, last, remaining[b] as int) && last != remaining[b] as int {
            lemma_before_total(p, pi, last, remaining[b] as int);
        }
    }
}

/// A list without one of its items holds the other items.
pub proof fn lemma_remove_contains<T>(s: Seq<T>, k: int, x: T)
    requires
        0 <= k < s.len(),
    ensures
        s.contains(x) == (s.remove(k).contains(x) || x == s[k]),
{
    let r = s.remove(k);
    if s.contains(x) && x != s[k] {
        let i = choose|i: int| 0 <= i < s.len() && s[i] == x;
        if i < k {
            assert(r[i] == x);
        } else {
            assert(r[i - 1] == x);
        }
    }
    if r.contains(x) {
        let i = choose|i: int| 0 <= i < r.len() && r[i] == x;
        if i < k {
            assert(s[i] == x);
        } else {
            assert(s[i + 1] == x);
        }
    }
}

/// The releases in the order in which they are tried are the same
/// releases, and none of them is tried before one that stands before it.
pub proof fn lemma_ordered(p: Resolver, pi: int, remaining: Seq<usize>)
    ensures
        ordered(p, pi, remaining).len() == remaining.len(),
        forall|x: usize| ordered(p, pi, remaining).contains(x) == remaining.contains(x),
        forall|i: int, j: int|
            #![trigger ordered(p, pi, remaining)[i], ordered(p, pi, remaining)[j]]
            0 <= i < j < remaining.len() ==> !before(
                p,
                pi,
                ordered(p, pi, remaining)[j] as int,
                ordered(p, pi, remaining)[i] as int,
            ),
    decreases remaining.len(),
{
    let out = ordered(p, pi, remaining);
    if remaining.len() > 0 {
        let k = best_position(p, pi, remaining, remaining.len() as int);
        lemma_best_position_in_range(p, pi, remaining, remaining.len() as int);
        let rest = remaining.remove(k);
        let tail = ordered(p, pi, rest);
        lemma_ordered(p, pi, rest);
        assert(out =~= seq![remaining[k]] + tail);
        assert forall|x: usize| out.contains(x) == remaining.contains(x) by {
            lemma_remove_contains(remaining, k, x);
            crate::active::lemma_add_contains(seq![remaining[k]], tail, x);
            if x == remaining[k] {
                assert(seq![remaining[k]][0] == x);
            }
            if seq![remaining[k]].contains(x) {
                let i = choose|i: int| 0 <= i < 1 && seq![remaining[k]][i] == x;
            }
        }
        assert forall|i: int, j: int|
            #![trigger out[i], out[j]]
            0 <= i < j < remaining.len() implies !before(p, pi, out[j] as int, out[i] as int) by {
            if i == 0 {
                let x = tail[j - 1];
                assert(out[j] == x);
                assert(tail.contains(x));
                assert(rest.contains(x));
                lemma_remove_contains(remaining, k, x);
                let at = choose|at: int| 0 <= at < remaining.len() && remaining[at] == x;
                lemma_best_is_first(p, pi, remaining, remaining.len() as int, at);
                if x == remaining[k] {
                    lemma_before_irreflexive(p, pi, x as int);
                } else {
                    lemma_before_total(p, pi, x as int, remaining[k] as int);
                }
            } else {
                assert(out[i] == tail[i - 1]);
                assert(out[j] == tail[j - 1]);
            }
        }
    }
}

/// The candidates for the releases `releases` of package `pi`, each with
/// the file to install for it.
pub open spec fn candidates_for(p: Resolver, pi: usize, releases: Seq<usize>) -> Seq<Candidate> {
    Seq::new(
        releases.len(),
        |i: int|
            Candidate {
                package: pi,
                release: releases[i],
                file: best_file(
                    release_at(p, pi as int, releases[i] as int).files,
                    p.tags@,
                    p.options.exclude_newer,
                    release_at(p, pi as int, releases[i] as int).files.len() as int,
                )->0,
            },
    )
}

/// The candidates of the package named `name`: its releases that may be
/// chosen, in the order in which they are tried; none for a package that
/// the snapshot does not hold.
pub open spec fn candidates_of(p: Resolver, name: Seq<char>, second: bool) -> Seq<Candidate> {
    match crate::index::package_named(p.index, name) {
        Some(pi) => candidates_for(p, pi, candidate_releases(p, second, pi as int)),
        None => Seq::empty(),
    }
}

impl Resolver {
    /// The candidates of the package `name`, most preferred first. `second`
    /// asks for those of the second pass, in which the pre-releases of
    /// packages without admissible final release are admitted where the
    /// options say `IfNecessary`.
    pub fn candidates(&self, name: &str, second: bool) -> (out: Vec<Candidate>)
        ensures
            out@ == candidates_of(*self, name@, second),
    {
        let mut out: Vec<Candidate> = Vec::new();
        match self.index.find(name) {
            None => {},
            Some(pi) => {
                let releases = self.in_order(pi, self.admissible_of(second, pi));
                proof {
                    let all = admissible_releases(
                        *self,
                        second,
                        pi as int,
                        self.index.packages@[pi as int].releases.len() as int,
                    );
                    lemma_ordered(*self, pi as int, all);
                    crate::candidate::lemma_admissible_releases(
                        *self,
                        second,
                        pi as int,
                        self.index.packages@[pi as int].releases.len() as int,
                    );
                    assert forall|i: int| 0 <= i < releases@.len() implies in_index(
                        *self,
                        pi as int,
                        (#[trigger] releases@[i]) as int,
                    ) && crate::candidate::admissible(*self, second, pi as int, releases@[i] as int) by {
                        assert(releases@.contains(releases@[i]));
                        assert(all.contains(releases@[i]));
                        let k = choose|k: int| 0 <= k < all.len() && all[k] == releases@[i];
                    }
                }
                let mut i: usize = 0;
                while i < releases.len()
                    invariant
                        i <= releases.len(),
                        pi < self.index.packages@.len(),
                        forall|k: int|
                            0 <= k < releases@.len() ==> in_index(
                                *self,
                                pi as int,
                                (#[trigger] releases@[k]) as int,
                            ) && crate::candidate::admissible(
                                *self,
                                second,
                                pi as int,
                                releases@[k] as int,
                            ),
                        out@ == candidates_for(*self, pi, releases@).take(i as int),
                    decreases releases.len() - i,
                {
                    let ri = releases[i];
                    let release = &self.index.packages[pi].releases[ri];
                    match release.select_file(&self.tags, self.options.exclude_newer) {
                        Some(file) => {
                            out.push(Candidate { package: pi, release: ri, file });
                        },
                        None => {
                            assert(false);
                        },
                    }
                    assert(out@ =~= candidates_for(*self, pi, releases@).take(i + 1));
                    i = i + 1;
                }
                assert(out@ =~= candidates_for(*self, pi, releases@));
            },
        }
        out
    }
}

/// The candidates of a package are its releases that may be chosen, each
/// once for each time it stands in the snapshot, and no candidate is
/// tried before one that stands before it in the list.
pub proof fn lemma_candidates_in_order(p: Resolver, name: Seq<char>, second: bool, i: int, j: int)
    requires
        0 <= i < j < candidates_of(p, name, second).len(),
    ensures
        !before(
            p,
            candidates_of(p, name, second)[i].package as int,
            candidates_of(p, name, second)[j].release as int,
            candidates_of(p, name, second)[i].release as int,
        ),
{
    let pi = crate::index::package_named(p.index, name)->0;
    let all = admissible_releases(
        p,
        second,
        pi as int,
        p.index.packages@[pi as int].releases.len() as int,
    );
    lemma_ordered(p, pi as int, all);
    let sorted = ordered(p, pi as int, all);
    assert(!before(p, pi as int, sorted[j] as int, sorted[i] as int));
}

/// A release is among the candidates of its package exactly if it may be chosen.
pub proof fn lemma_candidates_are_admissible(p: Resolver, second: bool, pi: usize, ri: usize)
    requires
        in_index(p, pi as int, ri as int),
    ensures
        candidate_releases(p, second, pi as int).contains(ri) == crate::candidate::admissible(
            p,
            second,
            pi as int,
            ri as int,
        ),
{
    let n = p.index.packages@[pi as int].releases.len() as int;
    let all = admissible_releases(p, second, pi as int, n);
    lemma_ordered(p, pi as int, all);
    crate::candidate::lemma_admissible_releases(p, second, pi as int, n);
    if all.contains(ri) {
        let k = choose|k: int| 0 <= k < all.len() && all[k] == ri;
    }
}

} // verus!
