//! The resolution of a manifest: from what is asked for to the graph of
//! what is installed.

use crate::candidate::{required_here, Resolver};
use crate::graph::{build_graph, graph_of, Graph, GraphView};
use crate::manifest::PreReleaseMode;
use crate::solver::{
    active, active_requirements, decisions_view, pick, pick_next, requirement, requirement_at,
    search, solution, Decision, DecisionView,
};
use crate::specifier::{Operator, Specifier};
use crate::version::prerelease;
use vstd::prelude::*;
use vstd::string::StringExecFns;

verus! {

/// Why a manifest could not be resolved.
#[derive(Debug, Clone, PartialEq, Eq)]
pub enum ResolveError {
    /// No choice of versions meets every requirement. `package` is the
    /// package that was decided first and for which every release failed.
    NoSolution { package: String },
    /// Requirement `requirement` of the manifest pins `package` to a
    /// pre-release, and the options admit none.
    PolicyViolation { requirement: usize, package: String },
}

/// The mathematical value of a [`ResolveError`].
pub enum ResolveErrorView {
    NoSolution { package: Seq<char> },
    PolicyViolation { requirement: usize, package: Seq<char> },
}

impl View for ResolveError {
    type V = ResolveErrorView;

    open spec fn view(&self) -> ResolveErrorView {
        match self {
            ResolveError::NoSolution { package } => ResolveErrorView::NoSolution {
                package: package@,
            },
            ResolveError::PolicyViolation { requirement, package } => ResolveErrorView::PolicyViolation {
                requirement: *requirement,
                package: package@,
            },
        }
    }
}

impl ResolveErrorView {
    /// The message shown to the user; it names the package.
    pub open spec fn message(self) -> Seq<char> {
        match self {
            ResolveErrorView::NoSolution { package } => "No solution found when resolving dependencies: no version of "@
                + package + " meets the requirements"@,
            ResolveErrorView::PolicyViolation { package, .. } => "The requirement on "@ + package
                + " pins a pre-release, and pre-releases are not allowed"@,
        }
    }
}

impl ResolveError {
    /// The message shown to the user.
    pub fn message(&self) -> (m: String)
        ensures
            m@ == self@.message(),
    {
        match self {
            ResolveError::NoSolution { package } => {
                let mut m = "No solution found when resolving dependencies: no version of ".to_owned();
                m.append(package.as_str());
                m.append(" meets the requirements");
                m
            },
            ResolveError::PolicyViolation { package, .. } => {
                let mut m = "The requirement on ".to_owned();
                m.append(package.as_str());
                m.append(" pins a pre-release, and pre-releases are not allowed");
                m
            },
        }
    }
}

/// Whether specifier `k` pins a pre-release.
pub open spec fn pins_prerelease_at(specifiers: Seq<Specifier>, k: int) -> bool {
    (specifiers[k].operator == Operator::Equal || specifiers[k].operator == Operator::ExactEqual)
        && prerelease(specifiers[k].version@)
}

/// Whether one of the specifiers pins a pre-release with `==` or `===`.
pub open spec fn pins_prerelease(specifiers: Seq<Specifier>) -> bool {
    exists|k: int| 0 <= k < specifiers.len() && #[trigger] pins_prerelease_at(specifiers, k)
}

/// Whether requirement `i` of the manifest goes against the options: it
/// applies on the target and pins a pre-release where none is admitted.
pub open spec fn violates_policy(p: Resolver, i: int) -> bool {
    p.options.prerelease == PreReleaseMode::Disallow && required_here(
        p,
        p.manifest.requirements@[i],
    ) && pins_prerelease(p.manifest.requirements@[i].specifiers@)
}

/// The first requirement of the manifest, from `from` on, that goes against
/// the options.
pub open spec fn first_violation(p: Resolver, from: int) -> Option<usize>
    decreases p.manifest.requirements.len() - from,
{
    if from < 0 || from >= p.manifest.requirements.len() {
        None
    } else if violates_policy(p, from) {
        Some(from as usize)
    } else {
        first_violation(p, from + 1)
    }
}

/// The package that is decided first: the one that a failed search reports.
pub open spec fn culprit(p: Resolver, second: bool) -> Seq<char> {
    let refs = active(p, Seq::empty());
    match pick(p, second, Seq::empty(), refs, refs.len() as int) {
        Some(k) => requirement_at(p, refs[k]).name@,
        None => Seq::empty(),
    }
}

/// The decisions of the resolution: those found without pre-releases that
/// need a second pass; failing that, and only where the options say
/// `IfNecessary`, those found in a second pass, in which the pre-releases
/// of packages without any admissible final release are admitted.
pub open spec fn decisions(p: Resolver) -> Option<Seq<DecisionView>> {
    match solution(p, false, Seq::empty()) {
        Some(ds) => Some(ds),
        None => if p.options.prerelease == PreReleaseMode::IfNecessary {
            solution(p, true, Seq::empty())
        } else {
            None
        },
    }
}

/// What the resolution of `p` gives: the graph of the decisions, or the
/// reason why there is none.
pub open spec fn resolution(p: Resolver) -> Result<GraphView, ResolveErrorView> {
    match first_violation(p, 0) {
        Some(i) => Err(
            ResolveErrorView::PolicyViolation {
                requirement: i,
                package: p.manifest.requirements@[i as int].name@,
            },
        ),
        None => match decisions(p) {
            Some(ds) => Ok(graph_of(p, ds)),
            None => Err(
                ResolveErrorView::NoSolution {
                    package: culprit(p, p.options.prerelease == PreReleaseMode::IfNecessary),
                },
            ),
        },
    }
}

/// The value of a result.
pub open spec fn result_view(r: Result<Graph, ResolveError>) -> Result<GraphView, ResolveErrorView> {
    match r {
        Ok(g) => Ok(g@),
        Err(e) => Err(e@),
    }
}

fn has_prerelease_pin(specifiers: &Vec<Specifier>) -> (b: bool)
    ensures
        b == pins_prerelease(specifiers@),
{
    let mut k: usize = 0;
    while k < specifiers.len()
        invariant
            k <= specifiers.len(),
            forall|i: int| 0 <= i < k ==> !#[trigger] pins_prerelease_at(specifiers@, i),
        decreases specifiers.len() - k,
    {
        let s = &specifiers[k];
        if (s.operator == Operator::Equal || s.operator == Operator::ExactEqual)
            && s.version.is_prerelease() {
            assert(pins_prerelease_at(specifiers@, k as int));
            return true;
        }
        k = k + 1;
    }
    false
}

impl Resolver {
    /// The first requirement of the manifest that goes against the options.
    pub fn policy_violation(&self) -> (found: Option<usize>)
        ensures
            found == first_violation(*self, 0),
            found matches Some(i) ==> i < self.manifest.requirements@.len(),
    {
        let roots = &self.manifest.requirements;
        let mut i: usize = 0;
        while i < roots.len()
            invariant
                i <= roots.len(),
                roots == &self.manifest.requirements,
                first_violation(*self, 0) == first_violation(*self, i as int),
            decreases roots.len() - i,
        {
            let r = &roots[i];
            if self.options.prerelease == PreReleaseMode::Disallow && self.applies_here(r)
                && has_prerelease_pin(&r.specifiers) {
                return Some(i);
            }
            i = i + 1;
        }
        None
    }

    /// The name of the package that is decided first.
    fn first_decided(&self, second: bool) -> (name: String)
        ensures
            name@ == culprit(*self, second),
    {
        let none: Vec<Decision> = Vec::new();
        assert(decisions_view(none@) =~= Seq::<DecisionView>::empty());
        let refs = active_requirements(self, &none);
        match pick_next(self, second, &none, &refs) {
            Some(k) => requirement(self, refs[k]).name.clone(),
            None => String::new(),
        }
    }

    /// Resolves the manifest: chooses a version for every package that is
    /// needed, such that every requirement that applies is met.
    pub fn resolve(&self) -> (r: Result<Graph, ResolveError>)
        ensures
            result_view(r) == resolution(*self),
    {
        match self.policy_violation() {
            Some(i) => {
                return Err(
                    ResolveError::PolicyViolation {
                        requirement: i,
                        package: self.manifest.requirements[i].name.clone(),
                    },
                );
            },
            None => {},
        }
        let none: Vec<Decision> = Vec::new();
        assert(decisions_view(none@) =~= Seq::<DecisionView>::empty());
        let if_necessary = self.options.prerelease == PreReleaseMode::IfNecessary;
        let found = match search(self, false, none) {
            Some(ds) => Some(ds),
            None => if if_necessary {
                let again: Vec<Decision> = Vec::new();
                assert(decisions_view(again@) =~= Seq::<DecisionView>::empty());
                search(self, true, again)
            } else {
                None
            },
        };
        match found {
            Some(ds) => Ok(build_graph(self, &ds)),
            None => Err(ResolveError::NoSolution { package: self.first_decided(if_necessary) }),
        }
    }
}

} // verus!
