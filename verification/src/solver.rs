//! The search for a version of every package that is needed.
//!
//! The state of the search is a list of decisions, one per package. What is
//! still to be done follows from it: the requirements of the manifest and of
//! the chosen releases are looked at again after every step.

use crate::candidate::{admissible, in_index, release_at, required_here, Resolver};
use crate::index::package_named;
use crate::marker::{applies, marker_applies};
use crate::requirement::Requirement;
use crate::specifier::{all_satisfied, contains_all};
use crate::text::{chars_of, compare_text, same_text, text_order};
use crate::version::{Order, VersionView};
use vstd::prelude::*;

verus! {

/// Where a requirement stands: in the manifest, or among those that a
/// release declares. All numbers are positions in the manifest or the snapshot.
#[derive(Debug, Clone, Copy, PartialEq, Eq, Structural)]
pub enum Origin {
    Manifest { index: usize },
    Release { package: usize, release: usize, index: usize },
}

/// The release chosen for a package, and which of the extras that the
/// release offers are asked for, position by position.
#[derive(Debug, Clone)]
pub struct Decision {
    pub package: usize,
    pub release: usize,
    pub extras: Vec<bool>,
}

/// The mathematical value of a [`Decision`].
pub struct DecisionView {
    pub package: usize,
    pub release: usize,
    pub extras: Seq<bool>,
}

impl View for Decision {
    type V = DecisionView;

    open spec fn view(&self) -> DecisionView {
        DecisionView { package: self.package, release: self.release, extras: self.extras@ }
    }
}

/// The values of a list of decisions, in order.
pub open spec fn decisions_view(ds: Seq<Decision>) -> Seq<DecisionView> {
    Seq::new(ds.len(), |i: int| ds[i]@)
}

/// The requirements that release `ri` of package `pi` declares.
pub open spec fn declared(p: Resolver, pi: int, ri: int) -> Seq<Requirement> {
    match release_at(p, pi, ri).metadata {
        Some(m) => m.requires_dist@,
        None => Seq::empty(),
    }
}

/// The extras that release `ri` of package `pi` offers.
pub open spec fn offered(p: Resolver, pi: int, ri: int) -> Seq<String> {
    match release_at(p, pi, ri).metadata {
        Some(m) => m.provides_extras@,
        None => Seq::empty(),
    }
}

/// Whether the origin is the position of a requirement.
pub open spec fn origin_ok(p: Resolver, o: Origin) -> bool {
    match o {
        Origin::Manifest { index } => index < p.manifest.requirements@.len(),
        Origin::Release { package, release, index } => in_index(p, package as int, release as int)
            && index < declared(p, package as int, release as int).len(),
    }
}

/// The requirement that stands at `o`.
pub open spec fn requirement_at(p: Resolver, o: Origin) -> Requirement {
    match o {
        Origin::Manifest { index } => p.manifest.requirements@[index as int],
        Origin::Release { package, release, index } => declared(
            p,
            package as int,
            release as int,
        )[index as int],
    }
}

/// Whether a decision names a release of the snapshot whose metadata is
/// known, with one flag per extra that the release offers.
pub open spec fn decision_ok(p: Resolver, d: DecisionView) -> bool {
    &&& in_index(p, d.package as int, d.release as int)
    &&& release_at(p, d.package as int, d.release as int).metadata is Some
    &&& d.extras.len() == offered(p, d.package as int, d.release as int).len()
}

/// Whether every decision is well formed.
pub open spec fn well_formed(p: Resolver, ds: Seq<DecisionView>) -> bool {
    forall|i: int| 0 <= i < ds.len() ==> decision_ok(p, #[trigger] ds[i])
}

/// Whether requirement `r` of the release of `d` applies because extra `j`
/// of the release is asked for.
pub open spec fn under_extra(p: Resolver, d: DecisionView, r: Requirement, j: int) -> bool {
    d.extras[j] && applies(
        r.marker,
        p.markers,
        Some(offered(p, d.package as int, d.release as int)[j]@),
    )
}

/// Whether requirement `r` of the release of `d` applies: on the target as
/// it is, or with one of the extras that are asked of the release.
pub open spec fn dependency_applies(p: Resolver, d: DecisionView, r: Requirement) -> bool {
    required_here(p, r) || exists|j: int| 0 <= j < d.extras.len() && #[trigger] under_extra(p, d, r, j)
}

/// The requirements among the first `n` of the manifest that apply.
pub open spec fn active_roots(p: Resolver, n: int) -> Seq<Origin>
    decreases n,
{
    if n <= 0 || n > p.manifest.requirements.len() {
        Seq::empty()
    } else if required_here(p, p.manifest.requirements@[n - 1]) {
        active_roots(p, n - 1).push(Origin::Manifest { index: (n - 1) as usize })
    } else {
        active_roots(p, n - 1)
    }
}

/// The requirements among the first `n` of `declared` that apply to the
/// release of `d`, which declares them.
pub open spec fn active_among(p: Resolver, d: DecisionView, declared: Vec<Requirement>, n: int) -> Seq<
    Origin,
>
    decreases n,
{
    if n <= 0 || n > declared.len() {
        Seq::empty()
    } else if dependency_applies(p, d, declared@[n - 1]) {
        active_among(p, d, declared, n - 1).push(
            Origin::Release { package: d.package, release: d.release, index: (n - 1) as usize },
        )
    } else {
        active_among(p, d, declared, n - 1)
    }
}

/// The requirements of the release of `d` that apply.
pub open spec fn active_dependencies(p: Resolver, d: DecisionView) -> Seq<Origin> {
    match release_at(p, d.package as int, d.release as int).metadata {
        Some(m) => active_among(p, d, m.requires_dist, m.requires_dist.len() as int),
        None => Seq::empty(),
    }
}

/// The requirements that apply, of the manifest and of the first `m` decisions.
pub open spec fn active_upto(p: Resolver, ds: Seq<DecisionView>, m: int) -> Seq<Origin>
    decreases m,
{
    if m <= 0 || m > ds.len() {
        active_roots(p, p.manifest.requirements.len() as int)
    } else {
        active_upto(p, ds, m - 1) + active_dependencies(p, ds[m - 1])
    }
}

/// All the requirements that apply in the state `ds`: those of the manifest,
/// then those of each chosen release.
pub open spec fn active(p: Resolver, ds: Seq<DecisionView>) -> Seq<Origin> {
    active_upto(p, ds, ds.len() as int)
}

/// Whether a decision was made for package `pi`.
pub open spec fn decided(ds: Seq<DecisionView>, pi: usize) -> bool {
    exists|i: int| 0 <= i < ds.len() && (#[trigger] ds[i]).package == pi
}

/// The position, from `from` on, of the decision for package `pi`.
pub open spec fn holder_from(ds: Seq<DecisionView>, pi: usize, from: int) -> Option<int>
    decreases ds.len() - from,
{
    if from < 0 || from >= ds.len() {
        None
    } else if ds[from].package == pi {
        Some(from)
    } else {
        holder_from(ds, pi, from + 1)
    }
}

/// The position of the decision for package `pi`.
pub open spec fn holder(ds: Seq<DecisionView>, pi: usize) -> Option<int> {
    holder_from(ds, pi, 0)
}

/// The package that the requirement at `o` names, if the snapshot holds it.
pub open spec fn target(p: Resolver, o: Origin) -> Option<usize> {
    package_named(p.index, requirement_at(p, o).name@)
}

/// The version chosen by decision `d`.
pub open spec fn chosen(p: Resolver, d: DecisionView) -> VersionView {
    release_at(p, d.package as int, d.release as int).version@
}

/// Whether the requirement at `o` names a package for which a version was
/// chosen that it does not admit.
pub open spec fn violated(p: Resolver, ds: Seq<DecisionView>, o: Origin) -> bool {
    match target(p, o) {
        Some(pi) => match holder(ds, pi) {
            Some(h) => !all_satisfied(requirement_at(p, o).specifiers@, chosen(p, ds[h])),
            None => false,
        },
        None => false,
    }
}

/// Whether one of the requirements `refs` is violated.
pub open spec fn conflict(p: Resolver, ds: Seq<DecisionView>, refs: Seq<Origin>) -> bool {
    exists|k: int| 0 <= k < refs.len() && violated(p, ds, #[trigger] refs[k])
}

/// The position, from `from` on, of the extra named `extra` among those offered.
pub open spec fn extra_from(offered: Seq<String>, extra: Seq<char>, from: int) -> Option<int>
    decreases offered.len() - from,
{
    if from < 0 || from >= offered.len() {
        None
    } else if offered[from]@ == extra {
        Some(from)
    } else {
        extra_from(offered, extra, from + 1)
    }
}

/// The first extra, among `wanted` from position `from` on, that the release
/// of `d` offers and that is not yet asked of it. An extra that the release
/// does not offer is passed over.
pub open spec fn missing_in(p: Resolver, d: DecisionView, wanted: Seq<String>, from: int) -> Option<
    int,
>
    decreases wanted.len() - from,
{
    if from < 0 || from >= wanted.len() {
        None
    } else {
        match extra_from(offered(p, d.package as int, d.release as int), wanted[from]@, 0) {
            Some(j) => if 0 <= j < d.extras.len() && !d.extras[j] {
                Some(j)
            } else {
                missing_in(p, d, wanted, from + 1)
            },
            None => missing_in(p, d, wanted, from + 1),
        }
    }
}

/// The decision and the extra that the requirement at `o` asks of it in
/// vain so far.
pub open spec fn missing_of(p: Resolver, ds: Seq<DecisionView>, o: Origin) -> Option<(int, int)> {
    match target(p, o) {
        Some(pi) => match holder(ds, pi) {
            Some(h) => match missing_in(p, ds[h], requirement_at(p, o).extras@, 0) {
                Some(j) => Some((h, j)),
                None => None,
            },
            None => None,
        },
        None => None,
    }
}

/// The first decision and extra that one of `refs`, from `from` on, asks for in vain.
pub open spec fn first_missing(p: Resolver, ds: Seq<DecisionView>, refs: Seq<Origin>, from: int) -> Option<
    (int, int),
>
    decreases refs.len() - from,
{
    if from < 0 || from >= refs.len() {
        None
    } else {
        match missing_of(p, ds, refs[from]) {
            Some(x) => Some(x),
            None => first_missing(p, ds, refs, from + 1),
        }
    }
}

/// The state in which extra `j` is asked of decision `h`.
pub open spec fn activate(ds: Seq<DecisionView>, h: int, j: int) -> Seq<DecisionView> {
    ds.update(
        h,
        DecisionView {
            package: ds[h].package,
            release: ds[h].release,
            extras: ds[h].extras.update(j, true),
        },
    )
}

/// Whether the requirement at `o` names a package for which nothing was
/// decided yet.
pub open spec fn pending(p: Resolver, ds: Seq<DecisionView>, o: Origin) -> bool {
    match target(p, o) {
        Some(pi) => !decided(ds, pi),
        None => true,
    }
}

/// Whether the requirement at `o` admits version `v` of package `name`; a
/// requirement on another package admits everything.
pub open spec fn wanted_by(p: Resolver, o: Origin, name: Seq<char>, v: VersionView) -> bool {
    requirement_at(p, o).name@ == name ==> all_satisfied(requirement_at(p, o).specifiers@, v)
}

/// Whether all of `refs` admit version `v` of package `name`.
pub open spec fn wanted(p: Resolver, refs: Seq<Origin>, name: Seq<char>, v: VersionView) -> bool {
    forall|k: int| 0 <= k < refs.len() ==> wanted_by(p, #[trigger] refs[k], name, v)
}

/// Whether release `ri` of package `pi` may be chosen and is admitted by all of `refs`.
pub open spec fn eligible_one(p: Resolver, second: bool, refs: Seq<Origin>, pi: int, ri: int) -> bool {
    admissible(p, second, pi, ri) && wanted(
        p,
        refs,
        p.index.packages@[pi].name@,
        release_at(p, pi, ri).version@,
    )
}

/// The releases among the first `n` of package `pi` that may be chosen and
/// that all of `refs` admit, in the order of the snapshot.
pub open spec fn eligible_upto(p: Resolver, second: bool, refs: Seq<Origin>, pi: int, n: int) -> Seq<
    usize,
>
    decreases n,
{
    if n <= 0 || n > p.index.packages@[pi].releases.len() {
        Seq::empty()
    } else if eligible_one(p, second, refs, pi, n - 1) {
        eligible_upto(p, second, refs, pi, n - 1).push((n - 1) as usize)
    } else {
        eligible_upto(p, second, refs, pi, n - 1)
    }
}

/// The releases of package `pi` that may be chosen and that all of `refs` admit.
pub open spec fn eligible(p: Resolver, second: bool, refs: Seq<Origin>, pi: int) -> Seq<usize> {
    eligible_upto(p, second, refs, pi, p.index.packages@[pi].releases.len() as int)
}

/// How many releases there are to choose from for the requirement at `o`:
/// none where the snapshot does not hold the package.
pub open spec fn choices(p: Resolver, second: bool, refs: Seq<Origin>, o: Origin) -> int {
    match target(p, o) {
        Some(pi) => eligible(p, second, refs, pi as int).len() as int,
        None => 0,
    }
}

/// Whether the package of the requirement at `a` is decided before that of
/// `b`: it has fewer releases to choose from, or as many and the name that
/// comes first.
pub open spec fn sooner(p: Resolver, second: bool, refs: Seq<Origin>, a: Origin, b: Origin) -> bool {
    choices(p, second, refs, a) < choices(p, second, refs, b) || (choices(p, second, refs, a)
        == choices(p, second, refs, b) && text_order(
        requirement_at(p, a).name@,
        requirement_at(p, b).name@,
    ) == Order::Less)
}

/// The position, among the first `n` of `refs`, of the requirement whose
/// package is decided next; `None` where none of them is pending.
pub open spec fn pick(p: Resolver, second: bool, ds: Seq<DecisionView>, refs: Seq<Origin>, n: int) -> Option<
    int,
>
    decreases n,
{
    if n <= 0 || n > refs.len() {
        None
    } else {
        let earlier = pick(p, second, ds, refs, n - 1);
        if !pending(p, ds, refs[n - 1]) {
            earlier
        } else {
            match earlier {
                Some(b) => if sooner(p, second, refs, refs[n - 1], refs[b]) {
                    Some(n - 1)
                } else {
                    earlier
                },
                None => Some(n - 1),
            }
        }
    }
}

/// How many of the first `n` packages of the snapshot are undecided.
pub open spec fn undecided(p: Resolver, ds: Seq<DecisionView>, n: int) -> nat
    decreases n,
{
    if n <= 0 || n > p.index.packages.len() {
        0
    } else if decided(ds, (n - 1) as usize) {
        undecided(p, ds, n - 1)
    } else {
        undecided(p, ds, n - 1) + 1
    }
}

/// How many of the first `n` flags are not set.
pub open spec fn idle(extras: Seq<bool>, n: int) -> nat
    decreases n,
{
    if n <= 0 || n > extras.len() {
        0
    } else if extras[n - 1] {
        idle(extras, n - 1)
    } else {
        idle(extras, n - 1) + 1
    }
}

/// How many extras the first `m` decisions could still be asked for.
pub open spec fn inactive(ds: Seq<DecisionView>, m: int) -> nat
    decreases m,
{
    if m <= 0 || m > ds.len() {
        0
    } else {
        inactive(ds, m - 1) + idle(ds[m - 1].extras, ds[m - 1].extras.len() as int)
    }
}

/// The decision for release `ri` of package `pi`, none of its extras asked for.
pub open spec fn fresh(p: Resolver, pi: usize, ri: usize) -> DecisionView {
    DecisionView {
        package: pi,
        release: ri,
        extras: Seq::new(offered(p, pi as int, ri as int).len(), |j: int| false),
    }
}

/// What a found holder is.
pub proof fn lemma_holder(ds: Seq<DecisionView>, pi: usize, from: int)
    requires
        0 <= from,
    ensures
        match holder_from(ds, pi, from) {
            Some(h) => from <= h < ds.len() && ds[h].package == pi && forall|i: int|
                from <= i < h ==> (#[trigger] ds[i]).package != pi,
            None => forall|i: int| from <= i < ds.len() ==> (#[trigger] ds[i]).package != pi,
        },
    decreases ds.len() - from,
{
    if from < ds.len() && ds[from].package != pi {
        lemma_holder(ds, pi, from + 1);
    }
}

/// A package has a holder exactly if it is decided.
pub proof fn lemma_holder_decided(ds: Seq<DecisionView>, pi: usize)
    ensures
        holder(ds, pi) is Some == decided(ds, pi),
{
    lemma_holder(ds, pi, 0);
}

/// What a missing extra is: a flag of an existing decision that is not set.
pub proof fn lemma_missing_in(p: Resolver, d: DecisionView, wanted: Seq<String>, from: int)
    requires
        0 <= from,
    ensures
        missing_in(p, d, wanted, from) matches Some(j) ==> 0 <= j < d.extras.len() && !d.extras[j],
    decreases wanted.len() - from,
{
    if from < wanted.len() {
        lemma_missing_in(p, d, wanted, from + 1);
    }
}

/// What the first missing extra is.
pub proof fn lemma_first_missing(p: Resolver, ds: Seq<DecisionView>, refs: Seq<Origin>, from: int)
    requires
        0 <= from,
    ensures
        match first_missing(p, ds, refs, from) {
            Some((h, j)) => 0 <= h < ds.len() && 0 <= j < ds[h].extras.len() && !ds[h].extras[j],
            None => forall|k: int| from <= k < refs.len() ==> missing_of(p, ds, #[trigger] refs[k]) is None,
        },
    decreases refs.len() - from,
{
    if from < refs.len() {
        match missing_of(p, ds, refs[from]) {
            Some((h, j)) => {
                let pi = target(p, refs[from])->0;
                lemma_holder(ds, pi, 0);
                lemma_missing_in(p, ds[h], requirement_at(p, refs[from]).extras@, 0);
            },
            None => {
                lemma_first_missing(p, ds, refs, from + 1);
            },
        }
    }
}

/// What the picked position is.
pub proof fn lemma_pick(p: Resolver, second: bool, ds: Seq<DecisionView>, refs: Seq<Origin>, n: int)
    requires
        0 <= n <= refs.len(),
    ensures
        match pick(p, second, ds, refs, n) {
            Some(k) => 0 <= k < n && pending(p, ds, refs[k]),
            None => forall|k: int| 0 <= k < n ==> !pending(p, ds, #[trigger] refs[k]),
        },
    decreases n,
{
    if n > 0 {
        lemma_pick(p, second, ds, refs, n - 1);
    }
}

/// A decision for one more package leaves one package less undecided.
pub proof fn lemma_push_undecided(p: Resolver, ds: Seq<DecisionView>, d: DecisionView, n: int)
    requires
        0 <= n <= p.index.packages.len(),
        !decided(ds, d.package),
    ensures
        undecided(p, ds.push(d), n) + (if d.package < n {
            1int
        } else {
            0int
        }) == undecided(p, ds, n),
    decreases n,
{
    if n > 0 {
        lemma_push_undecided(p, ds, d, n - 1);
        let q = (n - 1) as usize;
        let after = ds.push(d);
        if q == d.package {
            assert(after[ds.len() as int].package == q);
        } else {
            if decided(ds, q) {
                let i = choose|i: int| 0 <= i < ds.len() && (#[trigger] ds[i]).package == q;
                assert(after[i].package == q);
            }
            if decided(after, q) {
                let i = choose|i: int| 0 <= i < after.len() && (#[trigger] after[i]).package == q;
                assert(ds[i].package == q);
            }
        }
    }
}

/// To ask an extra of a decision changes nothing in what is undecided.
pub proof fn lemma_activate_undecided(p: Resolver, ds: Seq<DecisionView>, h: int, j: int, n: int)
    requires
        0 <= h < ds.len(),
    ensures
        undecided(p, activate(ds, h, j), n) == undecided(p, ds, n),
    decreases n,
{
    if n > 0 && n <= p.index.packages.len() {
        lemma_activate_undecided(p, ds, h, j, n - 1);
        lemma_activate_decided(ds, h, j, (n - 1) as usize);
    }
}

/// To ask an extra of a decision changes nothing in what is decided.
pub proof fn lemma_activate_decided(ds: Seq<DecisionView>, h: int, j: int, q: usize)
    requires
        0 <= h < ds.len(),
    ensures
        decided(activate(ds, h, j), q) == decided(ds, q),
{
    let after = activate(ds, h, j);
    if decided(ds, q) {
        let i = choose|i: int| 0 <= i < ds.len() && (#[trigger] ds[i]).package == q;
        assert(after[i].package == q);
    }
    if decided(after, q) {
        let i = choose|i: int| 0 <= i < after.len() && (#[trigger] after[i]).package == q;
        assert(ds[i].package == q);
    }
}

/// To set a flag that was not set leaves one flag less.
pub proof fn lemma_idle_update(extras: Seq<bool>, j: int, n: int)
    requires
        0 <= j < extras.len(),
        !extras[j],
        0 <= n <= extras.len(),
    ensures
        idle(extras.update(j, true), n) + (if j < n {
            1int
        } else {
            0int
        }) == idle(extras, n),
    decreases n,
{
    if n > 0 {
        lemma_idle_update(extras, j, n - 1);
    }
}

/// To ask a new extra of a decision leaves one extra less to ask for.
pub proof fn lemma_activate_inactive(ds: Seq<DecisionView>, h: int, j: int, m: int)
    requires
        0 <= h < ds.len(),
        0 <= j < ds[h].extras.len(),
        !ds[h].extras[j],
        0 <= m <= ds.len(),
    ensures
        inactive(activate(ds, h, j), m) + (if h < m {
            1int
        } else {
            0int
        }) == inactive(ds, m),
    decreases m,
{
    if m > 0 {
        lemma_activate_inactive(ds, h, j, m - 1);
        if h == m - 1 {
            lemma_idle_update(ds[h].extras, j, ds[h].extras.len() as int);
        }
    }
}

/// What the search finds from the state `ds`: the decisions that it ends
/// with, or `None` where every way from `ds` ends in a requirement that
/// cannot be met.
///
/// A requirement that is violated ends the way. An extra that is asked of a
/// chosen release is noted. Otherwise the next package is picked and its
/// releases are tried in order; with nothing left to pick the search is done.
pub open spec fn solution(p: Resolver, second: bool, ds: Seq<DecisionView>) -> Option<
    Seq<DecisionView>,
>
    decreases undecided(p, ds, p.index.packages.len() as int), inactive(ds, ds.len() as int), 1int, 0int,
{
    let refs = active(p, ds);
    if conflict(p, ds, refs) {
        None
    } else {
        match first_missing(p, ds, refs, 0) {
            Some((h, j)) => {
                proof {
                    lemma_first_missing(p, ds, refs, 0);
                    lemma_activate_undecided(p, ds, h, j, p.index.packages.len() as int);
                    lemma_activate_inactive(ds, h, j, ds.len() as int);
                }
                solution(p, second, activate(ds, h, j))
            },
            None => match pick(p, second, ds, refs, refs.len() as int) {
                None => Some(ds),
                Some(k) => match target(p, refs[k]) {
                    None => None,
                    Some(pi) => solution_among(
                        p,
                        second,
                        ds,
                        pi,
                        eligible(p, second, refs, pi as int),
                    ),
                },
            },
        }
    }
}

/// What the search finds from the state `ds` by choosing one of the
/// releases `remaining` of package `pi`: they are tried in order, and the
/// first with which the search succeeds is kept.
pub open spec fn solution_among(
    p: Resolver,
    second: bool,
    ds: Seq<DecisionView>,
    pi: usize,
    remaining: Seq<usize>,
) -> Option<Seq<DecisionView>>
    decreases undecided(p, ds, p.index.packages.len() as int), inactive(ds, ds.len() as int), 0int,
        remaining.len(),
{
    if remaining.len() == 0 || decided(ds, pi) || pi >= p.index.packages.len() {
        None
    } else {
        let k = crate::candidate::best_position(p, pi as int, remaining, remaining.len() as int);
        proof {
            crate::candidate::lemma_best_position_in_range(
                p,
                pi as int,
                remaining,
                remaining.len() as int,
            );
            lemma_push_undecided(
                p,
                ds,
                fresh(p, pi, remaining[k]),
                p.index.packages.len() as int,
            );
        }
        match solution(p, second, ds.push(fresh(p, pi, remaining[k]))) {
            Some(out) => Some(out),
            None => solution_among(p, second, ds, pi, remaining.remove(k)),
        }
    }
}

/// Whether every one of `refs` is the position of a requirement.
pub open spec fn origins_ok(p: Resolver, refs: Seq<Origin>) -> bool {
    forall|k: int| 0 <= k < refs.len() ==> origin_ok(p, #[trigger] refs[k])
}

/// A position held in a machine integer, as a mathematical integer.
pub open spec fn position(at: Option<usize>) -> Option<int> {
    match at {
        Some(i) => Some(i as int),
        None => None,
    }
}

/// Two positions held in machine integers, as mathematical integers.
pub open spec fn positions(at: Option<(usize, usize)>) -> Option<(int, int)> {
    match at {
        Some((h, j)) => Some((h as int, j as int)),
        None => None,
    }
}

/// The values of the decisions of a result.
pub open spec fn found_view(out: Option<Vec<Decision>>) -> Option<Seq<DecisionView>> {
    match out {
        Some(ds) => Some(decisions_view(ds@)),
        None => None,
    }
}

/// The requirement that stands at `o`.
pub(crate) fn requirement<'a>(p: &'a Resolver, o: Origin) -> (r: &'a Requirement)
    requires
        origin_ok(*p, o),
    ensures
        *r == requirement_at(*p, o),
{
    match o {
        Origin::Manifest { index } => &p.manifest.requirements[index],
        Origin::Release { package, release, index } => {
            match &p.index.packages[package].releases[release].metadata {
                Some(m) => &m.requires_dist[index],
                None => {
                    assert(false);
                    &p.manifest.requirements[0]
                },
            }
        },
    }
}

/// Whether requirement `r` of the release of `d` applies.
pub(crate) fn applies_to(p: &Resolver, d: &Decision, r: &Requirement) -> (b: bool)
    requires
        decision_ok(*p, d@),
    ensures
        b == dependency_applies(*p, d@, *r),
{
    if p.applies_here(r) {
        return true;
    }
    match &p.index.packages[d.package].releases[d.release].metadata {
        None => false,
        Some(m) => {
            let mut j: usize = 0;
            while j < d.extras.len()
                invariant
                    j <= d.extras.len(),
                    decision_ok(*p, d@),
                    release_at(*p, d.package as int, d.release as int).metadata == Some(*m),
                    forall|i: int| 0 <= i < j ==> !#[trigger] under_extra(*p, d@, *r, i),
                decreases d.extras.len() - j,
            {
                if d.extras[j] && marker_applies(
                    &r.marker,
                    &p.markers,
                    Some(m.provides_extras[j].as_str()),
                ) {
                    assert(under_extra(*p, d@, *r, j as int));
                    return true;
                }
                j = j + 1;
            }
            false
        },
    }
}

/// The requirements of the release of `d` that apply.
pub(crate) fn active_dependencies_of(p: &Resolver, d: &Decision) -> (refs: Vec<Origin>)
    requires
        decision_ok(*p, d@),
    ensures
        refs@ == active_dependencies(*p, d@),
        origins_ok(*p, refs@),
{
    let mut refs: Vec<Origin> = Vec::new();
    match &p.index.packages[d.package].releases[d.release].metadata {
        None => {},
        Some(meta) => {
            let declared = &meta.requires_dist;
            let mut k: usize = 0;
            while k < declared.len()
                invariant
                    k <= declared.len(),
                    decision_ok(*p, d@),
                    release_at(*p, d.package as int, d.release as int).metadata == Some(*meta),
                    declared == &meta.requires_dist,
                    refs@ == active_among(*p, d@, *declared, k as int),
                    origins_ok(*p, refs@),
                decreases declared.len() - k,
            {
                if applies_to(p, d, &declared[k]) {
                    refs.push(Origin::Release { package: d.package, release: d.release, index: k });
                }
                k = k + 1;
            }
        },
    }
    refs
}

/// All the requirements that apply in the state `ds`.
pub(crate) fn active_requirements(p: &Resolver, ds: &Vec<Decision>) -> (refs: Vec<Origin>)
    requires
        well_formed(*p, decisions_view(ds@)),
    ensures
        refs@ == active(*p, decisions_view(ds@)),
        origins_ok(*p, refs@),
{
    let ghost dv = decisions_view(ds@);
    let mut refs: Vec<Origin> = Vec::new();
    let roots = &p.manifest.requirements;
    let mut n: usize = 0;
    while n < roots.len()
        invariant
            n <= roots.len(),
            roots == &p.manifest.requirements,
            refs@ == active_roots(*p, n as int),
            origins_ok(*p, refs@),
        decreases roots.len() - n,
    {
        if p.applies_here(&roots[n]) {
            refs.push(Origin::Manifest { index: n });
        }
        n = n + 1;
    }
    let mut m: usize = 0;
    while m < ds.len()
        invariant
            m <= ds.len(),
            dv == decisions_view(ds@),
            well_formed(*p, dv),
            refs@ == active_upto(*p, dv, m as int),
            origins_ok(*p, refs@),
        decreases ds.len() - m,
    {
        let d = &ds[m];
        assert(dv[m as int] == d@);
        assert(decision_ok(*p, dv[m as int]));
        let more = active_dependencies_of(p, d);
        let ghost base = refs@;
        let mut k: usize = 0;
        while k < more.len()
            invariant
                k <= more.len(),
                origins_ok(*p, more@),
                refs@ == base + more@.take(k as int),
                origins_ok(*p, refs@),
            decreases more.len() - k,
        {
            refs.push(more[k]);
            assert(refs@ =~= base + more@.take(k + 1));
            k = k + 1;
        }
        assert(more@.take(more@.len() as int) =~= more@);
        m = m + 1;
    }
    refs
}

/// The decision for release `ri` of package `pi` with those of its extras
/// asked for that `extras` names.
pub open spec fn decision_with(p: Resolver, pi: usize, ri: usize, extras: Seq<String>) -> DecisionView {
    DecisionView {
        package: pi,
        release: ri,
        extras: Seq::new(
            offered(p, pi as int, ri as int).len(),
            |j: int| crate::text::lists(extras, offered(p, pi as int, ri as int)[j]@),
        ),
    }
}

/// What a release depends on when the extras `extras` are asked of it:
/// nothing is known where the snapshot has no metadata for it.
pub open spec fn dependencies_of(p: Resolver, pi: usize, ri: usize, extras: Seq<String>) -> Option<
    Seq<Origin>,
> {
    if in_index(p, pi as int, ri as int) && release_at(p, pi as int, ri as int).metadata is Some {
        Some(active_dependencies(p, decision_with(p, pi, ri, extras)))
    } else {
        None
    }
}

/// The requirements that release `release` of package `package` declares
/// and that apply on the target when the extras `extras` are asked of it: a
/// requirement whose marker is false is left out. `None` where the
/// snapshot holds no such release or not its metadata.
pub fn dependencies(p: &Resolver, package: usize, release: usize, extras: &Vec<String>) -> (out: Option<
    Vec<Origin>,
>)
    ensures
        match out {
            Some(refs) => dependencies_of(*p, package, release, extras@) == Some(refs@),
            None => dependencies_of(*p, package, release, extras@) is None,
        },
{
    if package >= p.index.packages.len() || release >= p.index.packages[package].releases.len() {
        return None;
    }
    match &p.index.packages[package].releases[release].metadata {
        None => None,
        Some(meta) => {
            let mut flags: Vec<bool> = Vec::new();
            let mut j: usize = 0;
            while j < meta.provides_extras.len()
                invariant
                    j <= meta.provides_extras.len(),
                    flags@.len() == j,
                    forall|k: int|
                        0 <= k < j ==> flags@[k] == crate::text::lists(
                            extras@,
                            (#[trigger] meta.provides_extras@[k])@,
                        ),
                decreases meta.provides_extras.len() - j,
            {
                flags.push(crate::text::listed(extras, meta.provides_extras[j].as_str()));
                j = j + 1;
            }
            let d = Decision { package, release, extras: flags };
            assert(d@.extras =~= decision_with(*p, package, release, extras@).extras);
            Some(active_dependencies_of(p, &d))
        },
    }
}

/// The position of the decision for package `pi`.
pub(crate) fn holder_of(ds: &Vec<Decision>, pi: usize) -> (found: Option<usize>)
    ensures
        position(found) == holder(decisions_view(ds@), pi),
        found matches Some(h) ==> h < ds@.len() && ds@[h as int].package == pi,
        found is Some == decided(decisions_view(ds@), pi),
{
    let ghost dv = decisions_view(ds@);
    let mut i: usize = 0;
    proof {
        lemma_holder_decided(dv, pi);
    }
    while i < ds.len()
        invariant
            i <= ds.len(),
            dv == decisions_view(ds@),
            holder(dv, pi) == holder_from(dv, pi, i as int),
        decreases ds.len() - i,
    {
        assert(dv[i as int] == ds@[i as int]@);
        if ds[i].package == pi {
            return Some(i);
        }
        i = i + 1;
    }
    None
}

/// Whether the requirement at `o` is violated by a decision.
fn is_violated(p: &Resolver, ds: &Vec<Decision>, o: Origin) -> (b: bool)
    requires
        origin_ok(*p, o),
        well_formed(*p, decisions_view(ds@)),
    ensures
        b == violated(*p, decisions_view(ds@), o),
{
    let r = requirement(p, o);
    match p.index.find(r.name.as_str()) {
        Some(pi) => match holder_of(ds, pi) {
            Some(h) => {
                let d = &ds[h];
                assert(decisions_view(ds@)[h as int] == d@);
                assert(decision_ok(*p, decisions_view(ds@)[h as int]));
                !contains_all(&r.specifiers, &p.index.packages[d.package].releases[d.release].version)
            },
            None => false,
        },
        None => false,
    }
}

/// Whether one of the requirements `refs` is violated by a decision.
pub(crate) fn has_conflict(p: &Resolver, ds: &Vec<Decision>, refs: &Vec<Origin>) -> (b: bool)
    requires
        origins_ok(*p, refs@),
        well_formed(*p, decisions_view(ds@)),
    ensures
        b == conflict(*p, decisions_view(ds@), refs@),
{
    let mut k: usize = 0;
    while k < refs.len()
        invariant
            k <= refs.len(),
            origins_ok(*p, refs@),
            well_formed(*p, decisions_view(ds@)),
            forall|i: int| 0 <= i < k ==> !violated(*p, decisions_view(ds@), #[trigger] refs@[i]),
        decreases refs.len() - k,
    {
        if is_violated(p, ds, refs[k]) {
            return true;
        }
        k = k + 1;
    }
    false
}

/// The position of the extra named `extra` among those offered.
fn extra_position(offered: &Vec<String>, extra: &str) -> (found: Option<usize>)
    ensures
        position(found) == extra_from(offered@, extra@, 0),
        found matches Some(j) ==> j < offered@.len(),
{
    let mut j: usize = 0;
    while j < offered.len()
        invariant
            j <= offered.len(),
            extra_from(offered@, extra@, 0) == extra_from(offered@, extra@, j as int),
        decreases offered.len() - j,
    {
        if same_text(offered[j].as_str(), extra) {
            return Some(j);
        }
        j = j + 1;
    }
    None
}

/// The first extra among `wanted` that the release of `d` offers and that
/// is not yet asked of it.
fn first_missing_extra(p: &Resolver, d: &Decision, wanted: &Vec<String>) -> (found: Option<usize>)
    requires
        decision_ok(*p, d@),
    ensures
        position(found) == missing_in(*p, d@, wanted@, 0),
        found matches Some(j) ==> j < d.extras@.len() && !d.extras@[j as int],
{
    match &p.index.packages[d.package].releases[d.release].metadata {
        None => {
            assert(false);
            None
        },
        Some(m) => {
            let mut from: usize = 0;
            while from < wanted.len()
                invariant
                    from <= wanted.len(),
                    decision_ok(*p, d@),
                    offered(*p, d.package as int, d.release as int) == m.provides_extras@,
                    missing_in(*p, d@, wanted@, 0) == missing_in(*p, d@, wanted@, from as int),
                decreases wanted.len() - from,
            {
                match extra_position(&m.provides_extras, wanted[from].as_str()) {
                    Some(j) => {
                        if j < d.extras.len() && !d.extras[j] {
                            return Some(j);
                        }
                    },
                    None => {},
                }
                from = from + 1;
            }
            None
        },
    }
}

/// The decision and the extra that the requirement at `o` asks of it in vain.
fn missing_for(p: &Resolver, ds: &Vec<Decision>, o: Origin) -> (found: Option<(usize, usize)>)
    requires
        origin_ok(*p, o),
        well_formed(*p, decisions_view(ds@)),
    ensures
        positions(found) == missing_of(*p, decisions_view(ds@), o),
{
    let r = requirement(p, o);
    match p.index.find(r.name.as_str()) {
        Some(pi) => match holder_of(ds, pi) {
            Some(h) => {
                let d = &ds[h];
                assert(decisions_view(ds@)[h as int] == d@);
                assert(decision_ok(*p, decisions_view(ds@)[h as int]));
                match first_missing_extra(p, d, &r.extras) {
                    Some(j) => Some((h, j)),
                    None => None,
                }
            },
            None => None,
        },
        None => None,
    }
}

/// The first decision and extra that one of `refs` asks for in vain.
pub(crate) fn find_missing(p: &Resolver, ds: &Vec<Decision>, refs: &Vec<Origin>) -> (found: Option<
    (usize, usize),
>)
    requires
        origins_ok(*p, refs@),
        well_formed(*p, decisions_view(ds@)),
    ensures
        positions(found) == first_missing(*p, decisions_view(ds@), refs@, 0),
{
    let mut k: usize = 0;
    while k < refs.len()
        invariant
            k <= refs.len(),
            origins_ok(*p, refs@),
            well_formed(*p, decisions_view(ds@)),
            first_missing(*p, decisions_view(ds@), refs@, 0) == first_missing(
                *p,
                decisions_view(ds@),
                refs@,
                k as int,
            ),
        decreases refs.len() - k,
    {
        match missing_for(p, ds, refs[k]) {
            Some(x) => {
                return Some(x);
            },
            None => {},
        }
        k = k + 1;
    }
    None
}

/// Whether all of `refs` admit version `v` of package `name`.
fn is_wanted(p: &Resolver, refs: &Vec<Origin>, name: &str, v: &crate::version::Version) -> (b: bool)
    requires
        origins_ok(*p, refs@),
    ensures
        b == wanted(*p, refs@, name@, v@),
{
    let mut k: usize = 0;
    while k < refs.len()
        invariant
            k <= refs.len(),
            origins_ok(*p, refs@),
            forall|i: int| 0 <= i < k ==> wanted_by(*p, #[trigger] refs@[i], name@, v@),
        decreases refs.len() - k,
    {
        let r = requirement(p, refs[k]);
        if same_text(r.name.as_str(), name) && !contains_all(&r.specifiers, v) {
            return false;
        }
        k = k + 1;
    }
    true
}

/// The releases of package `pi` that may be chosen and that all of `refs` admit.
pub(crate) fn eligible_releases(p: &Resolver, second: bool, refs: &Vec<Origin>, pi: usize) -> (out: Vec<
    usize,
>)
    requires
        origins_ok(*p, refs@),
        pi < p.index.packages@.len(),
    ensures
        out@ == eligible(*p, second, refs@, pi as int),
        forall|i: int|
            0 <= i < out@.len() ==> (#[trigger] out@[i]) < p.index.packages@[pi as int].releases@.len()
                && eligible_one(*p, second, refs@, pi as int, out@[i] as int),
{
    let package = &p.index.packages[pi];
    let count = package.releases.len();
    let mut out: Vec<usize> = Vec::new();
    let mut n: usize = 0;
    while n < count
        invariant
            n <= count,
            origins_ok(*p, refs@),
            pi < p.index.packages@.len(),
            package == &p.index.packages@[pi as int],
            count == package.releases.len(),
            out@ == eligible_upto(*p, second, refs@, pi as int, n as int),
            forall|i: int|
                0 <= i < out@.len() ==> (#[trigger] out@[i]) < count && eligible_one(
                    *p,
                    second,
                    refs@,
                    pi as int,
                    out@[i] as int,
                ),
        decreases count - n,
    {
        if p.is_admissible(second, pi, n) && is_wanted(
            p,
            refs,
            package.name.as_str(),
            &package.releases[n].version,
        ) {
            out.push(n);
        }
        n = n + 1;
    }
    out
}

/// How many releases there are to choose from for the requirement at `o`.
fn count_choices(p: &Resolver, second: bool, refs: &Vec<Origin>, o: Origin) -> (n: usize)
    requires
        origins_ok(*p, refs@),
        origin_ok(*p, o),
    ensures
        n == choices(*p, second, refs@, o),
{
    match p.index.find(requirement(p, o).name.as_str()) {
        Some(pi) => eligible_releases(p, second, refs, pi).len(),
        None => 0,
    }
}

/// Whether the requirement at `o` names a package for which nothing was decided.
fn is_pending(p: &Resolver, ds: &Vec<Decision>, o: Origin) -> (b: bool)
    requires
        origin_ok(*p, o),
    ensures
        b == pending(*p, decisions_view(ds@), o),
{
    match p.index.find(requirement(p, o).name.as_str()) {
        Some(pi) => holder_of(ds, pi).is_none(),
        None => true,
    }
}

/// The position in `refs` of the requirement whose package is decided next.
pub(crate) fn pick_next(p: &Resolver, second: bool, ds: &Vec<Decision>, refs: &Vec<Origin>) -> (found: Option<
    usize,
>)
    requires
        origins_ok(*p, refs@),
    ensures
        position(found) == pick(*p, second, decisions_view(ds@), refs@, refs@.len() as int),
        found matches Some(k) ==> k < refs@.len() && pending(*p, decisions_view(ds@), refs@[k as int]),
{
    let mut best: Option<usize> = None;
    let mut best_count: usize = 0;
    let mut n: usize = 0;
    while n < refs.len()
        invariant
            n <= refs.len(),
            origins_ok(*p, refs@),
            position(best) == pick(*p, second, decisions_view(ds@), refs@, n as int),
            best matches Some(b) ==> b < n && best_count == choices(*p, second, refs@, refs@[b as int])
                && pending(*p, decisions_view(ds@), refs@[b as int]),
        decreases refs.len() - n,
    {
        let o = refs[n];
        if is_pending(p, ds, o) {
            let count = count_choices(p, second, refs, o);
            let better = match best {
                None => true,
                Some(b) => count < best_count || (count == best_count && compare_text(
                    &chars_of(requirement(p, o).name.as_str()),
                    &chars_of(requirement(p, refs[b]).name.as_str()),
                ) == Order::Less),
            };
            if better {
                best = Some(n);
                best_count = count;
            }
        }
        n = n + 1;
    }
    best
}

/// A copy of a decision.
pub(crate) fn copy_decision(d: &Decision) -> (c: Decision)
    ensures
        c@ == d@,
{
    let extras = d.extras.clone();
    assert(extras@ =~= d.extras@);
    Decision { package: d.package, release: d.release, extras }
}

/// A copy of the decisions.
fn copy_decisions(ds: &Vec<Decision>) -> (out: Vec<Decision>)
    ensures
        decisions_view(out@) == decisions_view(ds@),
{
    let mut out: Vec<Decision> = Vec::new();
    let mut i: usize = 0;
    while i < ds.len()
        invariant
            i <= ds.len(),
            out@.len() == i,
            decisions_view(out@) == decisions_view(ds@).take(i as int),
        decreases ds.len() - i,
    {
        let ghost before = out@;
        out.push(copy_decision(&ds[i]));
        proof {
            let target = decisions_view(ds@).take(i + 1);
            assert forall|k: int| 0 <= k < i + 1 implies decisions_view(out@)[k] == target[k] by {
                if k < i {
                    assert(decisions_view(before)[k] == decisions_view(ds@).take(i as int)[k]);
                    assert(out@[k] == before[k]);
                }
            }
            assert(decisions_view(out@) =~= target);
        }
        i = i + 1;
    }
    assert(decisions_view(ds@).take(ds@.len() as int) =~= decisions_view(ds@));
    out
}

/// The decisions with extra `j` asked of decision `h`.
fn with_extra(ds: &Vec<Decision>, h: usize, j: usize) -> (out: Vec<Decision>)
    requires
        h < ds@.len(),
        j < ds@[h as int].extras@.len(),
    ensures
        decisions_view(out@) == activate(decisions_view(ds@), h as int, j as int),
{
    let ghost goal = activate(decisions_view(ds@), h as int, j as int);
    let mut out: Vec<Decision> = Vec::new();
    let mut i: usize = 0;
    while i < ds.len()
        invariant
            i <= ds.len(),
            h < ds@.len(),
            j < ds@[h as int].extras@.len(),
            goal == activate(decisions_view(ds@), h as int, j as int),
            out@.len() == i,
            decisions_view(out@) == goal.take(i as int),
        decreases ds.len() - i,
    {
        let mut d = copy_decision(&ds[i]);
        if i == h {
            let mut extras = d.extras;
            extras.set(j, true);
            d = Decision { package: d.package, release: d.release, extras };
        }
        let ghost before = out@;
        out.push(d);
        proof {
            let target = goal.take(i + 1);
            assert forall|k: int| 0 <= k < i + 1 implies decisions_view(out@)[k] == target[k] by {
                if k < i {
                    assert(decisions_view(before)[k] == goal.take(i as int)[k]);
                    assert(out@[k] == before[k]);
                } else {
                    assert(decisions_view(ds@)[i as int] == ds@[i as int]@);
                }
            }
            assert(decisions_view(out@) =~= target);
        }
        i = i + 1;
    }
    assert(goal.take(ds@.len() as int) =~= goal);
    out
}

/// The decision for release `ri` of package `pi`, none of its extras asked for.
fn new_decision(p: &Resolver, pi: usize, ri: usize) -> (d: Decision)
    requires
        in_index(*p, pi as int, ri as int),
    ensures
        d@ == fresh(*p, pi, ri),
{
    let mut extras: Vec<bool> = Vec::new();
    match &p.index.packages[pi].releases[ri].metadata {
        None => {},
        Some(m) => {
            let mut j: usize = 0;
            while j < m.provides_extras.len()
                invariant
                    j <= m.provides_extras.len(),
                    extras@ == Seq::new(j as nat, |k: int| false),
                decreases m.provides_extras.len() - j,
            {
                extras.push(false);
                assert(extras@ =~= Seq::new((j + 1) as nat, |k: int| false));
                j = j + 1;
            }
        },
    }
    assert(extras@ =~= fresh(*p, pi, ri).extras);
    Decision { package: pi, release: ri, extras }
}

/// Searches from the state `ds` for decisions that meet every requirement
/// that applies.
pub(crate) fn search(p: &Resolver, second: bool, ds: Vec<Decision>) -> (out: Option<Vec<Decision>>)
    requires
        well_formed(*p, decisions_view(ds@)),
    ensures
        found_view(out) == solution(*p, second, decisions_view(ds@)),
        out matches Some(o) ==> well_formed(*p, decisions_view(o@)),
    decreases
            undecided(*p, decisions_view(ds@), p.index.packages.len() as int),
            inactive(decisions_view(ds@), ds@.len() as int),
            1int,
            0int,
{
    let ghost dv = decisions_view(ds@);
    let refs = active_requirements(p, &ds);
    if has_conflict(p, &ds, &refs) {
        return None;
    }
    match find_missing(p, &ds, &refs) {
        Some((h, j)) => {
            proof {
                lemma_first_missing(*p, dv, refs@, 0);
                lemma_activate_undecided(*p, dv, h as int, j as int, p.index.packages.len() as int);
                lemma_activate_inactive(dv, h as int, j as int, dv.len() as int);
                assert(dv[h as int] == ds@[h as int]@);
            }
            let next = with_extra(&ds, h, j);
            proof {
                let nv = decisions_view(next@);
                assert forall|i: int| 0 <= i < nv.len() implies decision_ok(*p, #[trigger] nv[i]) by {
                    assert(decision_ok(*p, dv[i]));
                }
            }
            search(p, second, next)
        },
        None => match pick_next(p, second, &ds, &refs) {
            None => Some(ds),
            Some(k) => {
                match p.index.find(requirement(p, refs[k]).name.as_str()) {
                    None => None,
                    Some(pi) => {
                        let remaining = eligible_releases(p, second, &refs, pi);
                        try_each(p, second, ds, pi, remaining)
                    },
                }
            },
        },
    }
}

/// Tries the releases `remaining` of package `pi` in order, from the state `ds`.
pub(crate) fn try_each(
    p: &Resolver,
    second: bool,
    ds: Vec<Decision>,
    pi: usize,
    remaining: Vec<usize>,
) -> (out: Option<Vec<Decision>>)
    requires
        well_formed(*p, decisions_view(ds@)),
        pi < p.index.packages@.len(),
        !decided(decisions_view(ds@), pi),
        forall|i: int|
            0 <= i < remaining@.len() ==> in_index(*p, pi as int, (#[trigger] remaining@[i]) as int)
                && release_at(*p, pi as int, remaining@[i] as int).metadata is Some,
    ensures
        found_view(out) == solution_among(*p, second, decisions_view(ds@), pi, remaining@),
        out matches Some(o) ==> well_formed(*p, decisions_view(o@)),
    decreases
            undecided(*p, decisions_view(ds@), p.index.packages.len() as int),
            inactive(decisions_view(ds@), ds@.len() as int),
            0int,
            remaining@.len(),
{
    let ghost dv = decisions_view(ds@);
    if remaining.len() == 0 {
        return None;
    }
    let k = p.first_to_try(pi, &remaining);
    let ri = remaining[k];
    let mut next = copy_decisions(&ds);
    let d = new_decision(p, pi, ri);
    next.push(d);
    proof {
        let nv = decisions_view(next@);
        assert(nv =~= dv.push(fresh(*p, pi, ri)));
        lemma_push_undecided(*p, dv, fresh(*p, pi, ri), p.index.packages.len() as int);
        assert forall|i: int| 0 <= i < nv.len() implies decision_ok(*p, #[trigger] nv[i]) by {
            if i < dv.len() {
                assert(decision_ok(*p, dv[i]));
            }
        }
    }
    match search(p, second, next) {
        Some(out) => Some(out),
        None => {
            let mut rest = remaining;
            rest.remove(k);
            try_each(p, second, ds, pi, rest)
        },
    }
}

} // verus!
