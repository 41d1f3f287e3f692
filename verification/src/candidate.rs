//! Which releases of a package may be chosen, and in what order they are tried.

use crate::index::{has_usable_file, Index, Release};
use crate::manifest::{Manifest, PreReleaseMode, ResolutionMode, ResolutionOptions};
use crate::marker::{applies, marker_applies, MarkerEnvironment};
use crate::requirement::Requirement;
use crate::specifier::{
    all_satisfied, contains_all, mentions_prerelease, names_prerelease, pins, pins_version,
};
use crate::text::same_text;
use crate::version::{order, prerelease, Order, Version, VersionView};
use vstd::prelude::*;

verus! {

/// A resolution to be made: what is asked for, how, for which target, and
/// from which snapshot of the index.
#[derive(Debug, Clone)]
pub struct Resolver {
    pub manifest: Manifest,
    pub options: ResolutionOptions,
    /// The environment of the target.
    pub markers: MarkerEnvironment,
    /// The compatibility tags of the target, most preferred first.
    pub tags: Vec<String>,
    pub index: Index,
}

/// A release that may be chosen, with the file to install for it; all three
/// are positions in the snapshot.
#[derive(Debug, Clone, Copy, PartialEq, Eq, Structural)]
pub struct Candidate {
    pub package: usize,
    pub release: usize,
    pub file: usize,
}

/// Whether the requirement applies on the target, no extra being asked for.
pub open spec fn required_here(p: Resolver, r: Requirement) -> bool {
    applies(r.marker, p.markers, None)
}

/// Whether requirement `i` of the manifest applies on the target and pins
/// package `name` to exactly version `v`.
pub open spec fn root_pins_at(p: Resolver, i: int, name: Seq<char>, v: VersionView) -> bool {
    let r = p.manifest.requirements@[i];
    r.name@ == name && required_here(p, r) && pins(r.specifiers@, v)
}

/// Whether a requirement of the manifest pins package `name` to exactly version `v`.
pub open spec fn root_pins(p: Resolver, name: Seq<char>, v: VersionView) -> bool {
    exists|i: int|
        0 <= i < p.manifest.requirements@.len() && #[trigger] root_pins_at(p, i, name, v)
}

/// Whether constraint `i` admits version `v` of package `name`: a
/// constraint on another package, or one that does not apply on the target,
/// admits everything. The extras of a constraint play no part.
pub open spec fn constraint_admits(p: Resolver, i: int, name: Seq<char>, v: VersionView) -> bool {
    let c = p.manifest.constraints@[i];
    c.name@ == name && required_here(p, c) ==> all_satisfied(c.specifiers@, v)
}

/// Whether every constraint admits version `v` of package `name`.
pub open spec fn constraints_admit(p: Resolver, name: Seq<char>, v: VersionView) -> bool {
    forall|i: int|
        0 <= i < p.manifest.constraints@.len() ==> #[trigger] constraint_admits(p, i, name, v)
}

/// Whether requirement `i` of the manifest names a pre-release of package `name`.
pub open spec fn explicit_at(p: Resolver, i: int, name: Seq<char>) -> bool {
    let r = p.manifest.requirements@[i];
    r.name@ == name && required_here(p, r) && mentions_prerelease(r.specifiers@)
}

/// Whether a requirement of the manifest names a pre-release of package
/// `name` in a specifier.
pub open spec fn explicit_prerelease(p: Resolver, name: Seq<char>) -> bool {
    exists|i: int| 0 <= i < p.manifest.requirements@.len() && #[trigger] explicit_at(p, i, name)
}

/// Whether requirement `i` of the manifest is one on package `name`.
pub open spec fn direct_at(p: Resolver, i: int, name: Seq<char>) -> bool {
    p.manifest.requirements@[i].name@ == name
}

/// Whether the manifest itself requires package `name`.
pub open spec fn direct(p: Resolver, name: Seq<char>) -> bool {
    exists|i: int| 0 <= i < p.manifest.requirements@.len() && #[trigger] direct_at(p, i, name)
}

/// Whether preference `i` is for version `v` of package `name`.
pub open spec fn preferred_at(p: Resolver, i: int, name: Seq<char>, v: VersionView) -> bool {
    let r = p.manifest.preferences@[i];
    r.name@ == name && all_satisfied(r.specifiers@, v)
}

/// Whether a preference is for version `v` of package `name`.
pub open spec fn preferred(p: Resolver, name: Seq<char>, v: VersionView) -> bool {
    exists|i: int|
        0 <= i < p.manifest.preferences@.len() && #[trigger] preferred_at(p, i, name, v)
}

/// Release `ri` of package `pi`.
pub open spec fn release_at(p: Resolver, pi: int, ri: int) -> Release {
    p.index.packages@[pi].releases@[ri]
}

/// Whether `pi` and `ri` are the position of a release in the snapshot.
pub open spec fn in_index(p: Resolver, pi: int, ri: int) -> bool {
    0 <= pi < p.index.packages@.len() && 0 <= ri < p.index.packages@[pi].releases@.len()
}

/// Whether release `ri` of package `pi` may be chosen, whatever the policy
/// on pre-releases: its metadata is known; it was not withdrawn, unless the
/// manifest pins exactly this version; one of its files was uploaded in time
/// and fits the target; and every constraint admits it.
pub open spec fn admissible_but_for_policy(p: Resolver, pi: int, ri: int) -> bool {
    let name = p.index.packages@[pi].name@;
    let release = release_at(p, pi, ri);
    &&& release.metadata is Some
    &&& !release.yanked || root_pins(p, name, release.version@)
    &&& has_usable_file(release, p.tags@, p.options.exclude_newer)
    &&& constraints_admit(p, name, release.version@)
}

/// Whether release `ri` of package `pi` fails to be a final release that
/// may be chosen.
pub open spec fn not_final(p: Resolver, pi: int, ri: int) -> bool {
    admissible_but_for_policy(p, pi, ri) ==> prerelease(release_at(p, pi, ri).version@)
}

/// Whether package `pi` has no final release that may be chosen.
pub open spec fn without_final(p: Resolver, pi: int) -> bool {
    forall|ri: int|
        0 <= ri < p.index.packages@[pi].releases@.len() ==> #[trigger] not_final(p, pi, ri)
}

/// Whether the pre-releases of package `pi` are admitted. `second` says
/// that nothing could be resolved without pre-releases.
pub open spec fn admits_prereleases(p: Resolver, second: bool, pi: int) -> bool {
    match p.options.prerelease {
        PreReleaseMode::Disallow => false,
        PreReleaseMode::Allow => true,
        PreReleaseMode::Explicit => explicit_prerelease(p, p.index.packages@[pi].name@),
        PreReleaseMode::IfNecessary => second && without_final(p, pi),
    }
}

/// Whether release `ri` of package `pi` may be chosen.
pub open spec fn admissible(p: Resolver, second: bool, pi: int, ri: int) -> bool {
    admissible_but_for_policy(p, pi, ri) && (!prerelease(release_at(p, pi, ri).version@)
        || admits_prereleases(p, second, pi))
}

/// Whether the lowest version of package `name` is tried first.
pub open spec fn ascending(p: Resolver, name: Seq<char>) -> bool {
    match p.options.mode {
        ResolutionMode::Highest => false,
        ResolutionMode::Lowest => true,
        ResolutionMode::LowestDirect => direct(p, name),
    }
}

/// Whether release `a` of package `pi` is tried before release `b`: a
/// preferred version before one that is not; then the higher version, or the
/// lower where the mode says so; of two equal versions the one without local
/// label, then the one that stands first in the snapshot.
pub open spec fn before(p: Resolver, pi: int, a: int, b: int) -> bool {
    let name = p.index.packages@[pi].name@;
    let va = release_at(p, pi, a).version@;
    let vb = release_at(p, pi, b).version@;
    if preferred(p, name, va) != preferred(p, name, vb) {
        preferred(p, name, va)
    } else if order(va, vb) != Order::Equal {
        order(va, vb) == (if ascending(p, name) {
            Order::Less
        } else {
            Order::Greater
        })
    } else if (va.local.len() == 0) != (vb.local.len() == 0) {
        va.local.len() == 0
    } else {
        a < b
    }
}

/// The position, among the first `n` of `remaining`, of the release of
/// package `pi` that is tried first.
pub open spec fn best_position(p: Resolver, pi: int, remaining: Seq<usize>, n: int) -> int
    decreases n,
{
    if n <= 1 {
        0
    } else {
        let b = best_position(p, pi, remaining, n - 1);
        if before(p, pi, remaining[n - 1] as int, remaining[b] as int) {
            n - 1
        } else {
            b
        }
    }
}

/// The best position lies among the positions looked at.
pub proof fn lemma_best_position_in_range(p: Resolver, pi: int, remaining: Seq<usize>, n: int)
    requires
        n >= 1,
    ensures
        0 <= best_position(p, pi, remaining, n) < n,
    decreases n,
{
    if n > 1 {
        lemma_best_position_in_range(p, pi, remaining, n - 1);
    }
}

/// The releases of `remaining` in the order in which they are tried.
pub open spec fn ordered(p: Resolver, pi: int, remaining: Seq<usize>) -> Seq<usize>
    decreases remaining.len(),
{
    if remaining.len() == 0 {
        remaining
    } else {
        let k = best_position(p, pi, remaining, remaining.len() as int);
        proof {
            lemma_best_position_in_range(p, pi, remaining, remaining.len() as int);
        }
        seq![remaining[k]] + ordered(p, pi, remaining.remove(k))
    }
}

/// The releases among the first `n` of package `pi` that may be chosen, in
/// the order of the snapshot.
pub open spec fn admissible_releases(p: Resolver, second: bool, pi: int, n: int) -> Seq<usize>
    decreases n,
{
    if n <= 0 || n > p.index.packages@[pi].releases.len() {
        Seq::empty()
    } else if admissible(p, second, pi, n - 1) {
        admissible_releases(p, second, pi, n - 1).push((n - 1) as usize)
    } else {
        admissible_releases(p, second, pi, n - 1)
    }
}

/// The releases of package `pi` that may be chosen, in the order in which
/// they are tried.
pub open spec fn candidate_releases(p: Resolver, second: bool, pi: int) -> Seq<usize> {
    ordered(
        p,
        pi,
        admissible_releases(p, second, pi, p.index.packages@[pi].releases.len() as int),
    )
}

/// Every release that may be chosen lies in the snapshot and is admissible.
pub proof fn lemma_admissible_releases(p: Resolver, second: bool, pi: int, n: int)
    requires
        0 <= n <= p.index.packages@[pi].releases.len(),
    ensures
        forall|k: int|
            0 <= k < admissible_releases(p, second, pi, n).len() ==> {
                let ri = #[trigger] admissible_releases(p, second, pi, n)[k];
                ri < n && admissible(p, second, pi, ri as int)
            },
        forall|ri: int|
            0 <= ri < n && admissible(p, second, pi, ri) ==> admissible_releases(
                p,
                second,
                pi,
                n,
            ).contains(ri as usize),
    decreases n,
{
    if n > 0 {
        lemma_admissible_releases(p, second, pi, n - 1);
        let prev = admissible_releases(p, second, pi, n - 1);
        let all = admissible_releases(p, second, pi, n);
        assert forall|ri: int| 0 <= ri < n && admissible(p, second, pi, ri) implies all.contains(
            ri as usize,
        ) by {
            if ri == n - 1 {
                assert(all[all.len() - 1] == ri as usize);
            } else {
                let k = choose|k: int| 0 <= k < prev.len() && prev[k] == ri as usize;
                assert(all[k] == ri as usize);
            }
        }
    }
}

impl Resolver {
    /// A resolution of `manifest` under `options`, for the target that
    /// `markers` and `tags` describe, from the snapshot `index`.
    pub fn new(
        manifest: Manifest,
        options: ResolutionOptions,
        markers: MarkerEnvironment,
        tags: Vec<String>,
        index: Index,
    ) -> (p: Resolver)
        ensures
            p.manifest == manifest,
            p.options == options,
            p.markers == markers,
            p.tags == tags,
            p.index == index,
    {
        Resolver { manifest, options, markers, tags, index }
    }

    /// Whether the requirement applies on the target, no extra being asked for.
    pub fn applies_here(&self, r: &Requirement) -> (b: bool)
        ensures
            b == required_here(*self, *r),
    {
        marker_applies(&r.marker, &self.markers, None)
    }

    /// Whether a requirement of the manifest pins package `name` to exactly `v`.
    pub fn pinned_by_manifest(&self, name: &str, v: &Version) -> (b: bool)
        ensures
            b == root_pins(*self, name@, v@),
    {
        let roots = &self.manifest.requirements;
        let mut i: usize = 0;
        while i < roots.len()
            invariant
                i <= roots.len(),
                roots == &self.manifest.requirements,
                forall|k: int| 0 <= k < i ==> !#[trigger] root_pins_at(*self, k, name@, v@),
            decreases roots.len() - i,
        {
            let r = &roots[i];
            if same_text(r.name.as_str(), name) && self.applies_here(r) && pins_version(
                &r.specifiers,
                v,
            ) {
                assert(root_pins_at(*self, i as int, name@, v@));
                return true;
            }
            i = i + 1;
        }
        false
    }

    /// Whether every constraint admits version `v` of package `name`.
    pub fn admitted_by_constraints(&self, name: &str, v: &Version) -> (b: bool)
        ensures
            b == constraints_admit(*self, name@, v@),
    {
        let constraints = &self.manifest.constraints;
        let mut i: usize = 0;
        while i < constraints.len()
            invariant
                i <= constraints.len(),
                constraints == &self.manifest.constraints,
                forall|k: int| 0 <= k < i ==> #[trigger] constraint_admits(*self, k, name@, v@),
            decreases constraints.len() - i,
        {
            let c = &constraints[i];
            if same_text(c.name.as_str(), name) && self.applies_here(c) && !contains_all(
                &c.specifiers,
                v,
            ) {
                assert(!constraint_admits(*self, i as int, name@, v@));
                return false;
            }
            i = i + 1;
        }
        true
    }

    /// Whether a requirement of the manifest names a pre-release of package `name`.
    pub fn names_prerelease_of(&self, name: &str) -> (b: bool)
        ensures
            b == explicit_prerelease(*self, name@),
    {
        let roots = &self.manifest.requirements;
        let mut i: usize = 0;
        while i < roots.len()
            invariant
                i <= roots.len(),
                roots == &self.manifest.requirements,
                forall|k: int| 0 <= k < i ==> !#[trigger] explicit_at(*self, k, name@),
            decreases roots.len() - i,
        {
            let r = &roots[i];
            if same_text(r.name.as_str(), name) && self.applies_here(r) && names_prerelease(
                &r.specifiers,
            ) {
                assert(explicit_at(*self, i as int, name@));
                return true;
            }
            i = i + 1;
        }
        false
    }

    /// Whether the manifest itself requires package `name`.
    pub fn is_direct(&self, name: &str) -> (b: bool)
        ensures
            b == direct(*self, name@),
    {
        let roots = &self.manifest.requirements;
        let mut i: usize = 0;
        while i < roots.len()
            invariant
                i <= roots.len(),
                roots == &self.manifest.requirements,
                forall|k: int| 0 <= k < i ==> !#[trigger] direct_at(*self, k, name@),
            decreases roots.len() - i,
        {
            if same_text(roots[i].name.as_str(), name) {
                assert(direct_at(*self, i as int, name@));
                return true;
            }
            i = i + 1;
        }
        false
    }

    /// Whether a preference is for version `v` of package `name`.
    pub fn is_preferred(&self, name: &str, v: &Version) -> (b: bool)
        ensures
            b == preferred(*self, name@, v@),
    {
        let preferences = &self.manifest.preferences;
        let mut i: usize = 0;
        while i < preferences.len()
            invariant
                i <= preferences.len(),
                preferences == &self.manifest.preferences,
                forall|k: int| 0 <= k < i ==> !#[trigger] preferred_at(*self, k, name@, v@),
            decreases preferences.len() - i,
        {
            let r = &preferences[i];
            if same_text(r.name.as_str(), name) && contains_all(&r.specifiers, v) {
                assert(preferred_at(*self, i as int, name@, v@));
                return true;
            }
            i = i + 1;
        }
        false
    }

    /// Whether release `ri` of package `pi` may be chosen, whatever the
    /// policy on pre-releases.
    pub(crate) fn is_admissible_but_for_policy(&self, pi: usize, ri: usize) -> (b: bool)
        requires
            in_index(*self, pi as int, ri as int),
        ensures
            b == admissible_but_for_policy(*self, pi as int, ri as int),
    {
        let package = &self.index.packages[pi];
        let release = &package.releases[ri];
        let name = package.name.as_str();
        release.metadata.is_some() && (!release.yanked || self.pinned_by_manifest(
            name,
            &release.version,
        )) && release.select_file(&self.tags, self.options.exclude_newer).is_some()
            && self.admitted_by_constraints(name, &release.version)
    }

    /// Whether package `pi` has no final release that may be chosen.
    pub(crate) fn is_without_final(&self, pi: usize) -> (b: bool)
        requires
            pi < self.index.packages@.len(),
        ensures
            b == without_final(*self, pi as int),
    {
        let releases = &self.index.packages[pi].releases;
        let mut ri: usize = 0;
        while ri < releases.len()
            invariant
                ri <= releases.len(),
                pi < self.index.packages@.len(),
                releases == &self.index.packages@[pi as int].releases,
                forall|k: int| 0 <= k < ri ==> #[trigger] not_final(*self, pi as int, k),
            decreases releases.len() - ri,
        {
            if !releases[ri].version.is_prerelease() && self.is_admissible_but_for_policy(pi, ri) {
                assert(!not_final(*self, pi as int, ri as int));
                return false;
            }
            ri = ri + 1;
        }
        true
    }

    /// Whether the pre-releases of package `pi` are admitted.
    pub(crate) fn admits_prereleases_of(&self, second: bool, pi: usize) -> (b: bool)
        requires
            pi < self.index.packages@.len(),
        ensures
            b == admits_prereleases(*self, second, pi as int),
    {
        match self.options.prerelease {
            PreReleaseMode::Disallow => false,
            PreReleaseMode::Allow => true,
            PreReleaseMode::Explicit => self.names_prerelease_of(
                self.index.packages[pi].name.as_str(),
            ),
            PreReleaseMode::IfNecessary => second && self.is_without_final(pi),
        }
    }

    /// Whether release `ri` of package `pi` may be chosen.
    pub(crate) fn is_admissible(&self, second: bool, pi: usize, ri: usize) -> (b: bool)
        requires
            in_index(*self, pi as int, ri as int),
        ensures
            b == admissible(*self, second, pi as int, ri as int),
    {
        self.is_admissible_but_for_policy(pi, ri) && (
        !self.index.packages[pi].releases[ri].version.is_prerelease()
            || self.admits_prereleases_of(second, pi))
    }

    /// Whether the lowest version of package `name` is tried first.
    pub fn is_ascending(&self, name: &str) -> (b: bool)
        ensures
            b == ascending(*self, name@),
    {
        match self.options.mode {
            ResolutionMode::Highest => false,
            ResolutionMode::Lowest => true,
            ResolutionMode::LowestDirect => self.is_direct(name),
        }
    }

    /// Whether release `a` of package `pi` is tried before release `b`.
    pub(crate) fn tries_before(&self, pi: usize, a: usize, b: usize) -> (r: bool)
        requires
            in_index(*self, pi as int, a as int),
            in_index(*self, pi as int, b as int),
        ensures
            r == before(*self, pi as int, a as int, b as int),
    {
        let package = &self.index.packages[pi];
        let name = package.name.as_str();
        let va = &package.releases[a].version;
        let vb = &package.releases[b].version;
        let pa = self.is_preferred(name, va);
        let pb = self.is_preferred(name, vb);
        if pa != pb {
            return pa;
        }
        let o = va.compare(vb);
        if o != Order::Equal {
            let wanted = if self.is_ascending(name) {
                Order::Less
            } else {
                Order::Greater
            };
            return o == wanted;
        }
        let la = !va.is_local();
        let lb = !vb.is_local();
        if la != lb {
            return la;
        }
        a < b
    }

    /// The position in `remaining` of the release of package `pi` that is
    /// tried first.
    pub(crate) fn first_to_try(&self, pi: usize, remaining: &Vec<usize>) -> (k: usize)
        requires
            remaining@.len() > 0,
            pi < self.index.packages@.len(),
            forall|i: int|
                0 <= i < remaining@.len() ==> (#[trigger] remaining@[i])
                    < self.index.packages@[pi as int].releases@.len(),
        ensures
            k == best_position(*self, pi as int, remaining@, remaining@.len() as int),
            k < remaining@.len(),
    {
        let mut best: usize = 0;
        let mut n: usize = 1;
        while n < remaining.len()
            invariant
                1 <= n <= remaining.len(),
                best < n,
                pi < self.index.packages@.len(),
                forall|i: int|
                    0 <= i < remaining@.len() ==> (#[trigger] remaining@[i])
                        < self.index.packages@[pi as int].releases@.len(),
                best == best_position(*self, pi as int, remaining@, n as int),
            decreases remaining.len() - n,
        {
            if self.tries_before(pi, remaining[n], remaining[best]) {
                best = n;
            }
            n = n + 1;
        }
        best
    }

    /// The releases of package `pi` that may be chosen, in the order of the snapshot.
    pub(crate) fn admissible_of(&self, second: bool, pi: usize) -> (out: Vec<usize>)
        requires
            pi < self.index.packages@.len(),
        ensures
            out@ == admissible_releases(
                *self,
                second,
                pi as int,
                self.index.packages@[pi as int].releases.len() as int,
            ),
            forall|i: int|
                0 <= i < out@.len() ==> (#[trigger] out@[i])
                    < self.index.packages@[pi as int].releases@.len(),
    {
        let count = self.index.packages[pi].releases.len();
        let mut out: Vec<usize> = Vec::new();
        let mut n: usize = 0;
        while n < count
            invariant
                n <= count,
                pi < self.index.packages@.len(),
                count == self.index.packages@[pi as int].releases.len(),
                out@ == admissible_releases(*self, second, pi as int, n as int),
                forall|i: int| 0 <= i < out@.len() ==> (#[trigger] out@[i]) < count,
            decreases count - n,
        {
            if self.is_admissible(second, pi, n) {
                out.push(n);
            }
            n = n + 1;
        }
        out
    }

    /// Brings `remaining`, releases of package `pi`, into the order in which
    /// they are tried.
    pub(crate) fn in_order(&self, pi: usize, remaining: Vec<usize>) -> (out: Vec<usize>)
        requires
            pi < self.index.packages@.len(),
            forall|i: int|
                0 <= i < remaining@.len() ==> (#[trigger] remaining@[i])
                    < self.index.packages@[pi as int].releases@.len(),
        ensures
            out@ == ordered(*self, pi as int, remaining@),
    {
        let mut remaining = remaining;
        let mut out: Vec<usize> = Vec::new();
        let ghost all = remaining@;
        while remaining.len() > 0
            invariant
                pi < self.index.packages@.len(),
                forall|i: int|
                    0 <= i < remaining@.len() ==> (#[trigger] remaining@[i])
                        < self.index.packages@[pi as int].releases@.len(),
                out@ + ordered(*self, pi as int, remaining@) == ordered(*self, pi as int, all),
            decreases remaining.len(),
        {
            let ghost before_out = out@;
            let ghost before_remaining = remaining@;
            let k = self.first_to_try(pi, &remaining);
            let ri = remaining.remove(k);
            out.push(ri);
            proof {
                assert(ordered(*self, pi as int, before_remaining) == seq![ri] + ordered(
                    *self,
                    pi as int,
                    remaining@,
                ));
                assert(out@ + ordered(*self, pi as int, remaining@) =~= before_out + ordered(
                    *self,
                    pi as int,
                    before_remaining,
                ));
            }
        }
        assert(out@ =~= out@ + ordered(*self, pi as int, remaining@));
        out
    }
}

} // verus!
