//! Version specifiers: predicates on versions, and sets of them.

use crate::version::{order, prerelease, same_base, segment, Order, Version, VersionView};
use vstd::prelude::*;

verus! {

/// The operator of a version specifier.
#[derive(Debug, Clone, Copy, PartialEq, Eq, Structural)]
pub enum Operator {
    /// `== 1.2.3`
    Equal,
    /// `== 1.2.*`
    EqualStar,
    /// `=== 1.2.3`
    ExactEqual,
    /// `!= 1.2.3`
    NotEqual,
    /// `!= 1.2.*`
    NotEqualStar,
    /// `~= 1.2.3`
    TildeEqual,
    /// `< 1.2.3`
    LessThan,
    /// `<= 1.2.3`
    LessThanEqual,
    /// `> 1.2.3`
    GreaterThan,
    /// `>= 1.2.3`
    GreaterThanEqual,
}

/// One predicate on versions, such as `>= 1.2`.
#[derive(Debug, Clone)]
pub struct Specifier {
    pub operator: Operator,
    pub version: Version,
}

/// The mathematical value of a [`Specifier`].
pub struct SpecifierView {
    pub operator: Operator,
    pub version: VersionView,
}

impl View for Specifier {
    type V = SpecifierView;

    open spec fn view(&self) -> SpecifierView {
        SpecifierView { operator: self.operator, version: self.version@ }
    }
}

/// Whether the first `n` segments of `bound` are those of `v`, in the same epoch.
pub open spec fn prefix_matches(v: VersionView, bound: VersionView, n: int) -> bool {
    v.epoch == bound.epoch && forall|i: int|
        0 <= i < n ==> segment(v.release, i) == segment(bound.release, i)
}

/// Whether `v` equals `bound`: equal in the order of versions, and with the
/// same local label where `bound` has one.
pub open spec fn matches_exactly(v: VersionView, bound: VersionView) -> bool {
    order(v, bound) == Order::Equal && (bound.local.len() == 0 || v.local == bound.local)
}

/// Whether version `v` lies in the set that `operator` and `bound` describe.
///
/// `<` leaves out the pre-releases of `bound` unless `bound` is one itself,
/// and `>` its post-releases unless `bound` is one itself. `~=` asks for a
/// bound of at least two segments.
pub open spec fn satisfies(operator: Operator, bound: VersionView, v: VersionView) -> bool {
    match operator {
        Operator::Equal => matches_exactly(v, bound),
        Operator::NotEqual => !matches_exactly(v, bound),
        Operator::EqualStar => prefix_matches(v, bound, bound.release.len() as int),
        Operator::NotEqualStar => !prefix_matches(v, bound, bound.release.len() as int),
        Operator::ExactEqual => v == bound,
        Operator::TildeEqual => bound.release.len() >= 2 && order(v, bound) != Order::Less
            && prefix_matches(v, bound, bound.release.len() - 1),
        Operator::LessThan => order(v, bound) == Order::Less && !(!prerelease(bound)
            && prerelease(v) && same_base(v, bound)),
        Operator::LessThanEqual => order(v, bound) != Order::Greater,
        Operator::GreaterThan => order(v, bound) == Order::Greater && !(bound.post is None
            && v.post is Some && same_base(v, bound)),
        Operator::GreaterThanEqual => order(v, bound) != Order::Less,
    }
}

/// Whether `v` lies in every specifier of `specifiers`: in their intersection.
pub open spec fn all_satisfied(specifiers: Seq<Specifier>, v: VersionView) -> bool {
    forall|i: int|
        0 <= i < specifiers.len() ==> satisfies(
            #[trigger] specifiers[i].operator,
            specifiers[i].version@,
            v,
        )
}

/// Whether a specifier names a pre-release as its bound.
pub open spec fn mentions_prerelease(specifiers: Seq<Specifier>) -> bool {
    exists|i: int| 0 <= i < specifiers.len() && prerelease(#[trigger] specifiers[i].version@)
}

/// Whether a specifier pins exactly the version `v`, with `==` or `===`.
pub open spec fn pins(specifiers: Seq<Specifier>, v: VersionView) -> bool {
    exists|i: int|
        0 <= i < specifiers.len() && pins_one(#[trigger] specifiers[i].operator, specifiers[i].version@, v)
}

/// Whether the specifier of `operator` and `bound` pins exactly `v`.
pub open spec fn pins_one(operator: Operator, bound: VersionView, v: VersionView) -> bool {
    (operator == Operator::Equal || operator == Operator::ExactEqual) && satisfies(
        operator,
        bound,
        v,
    )
}

/// The intersection of two specifier sets holds exactly the versions that
/// lie in both.
pub proof fn lemma_intersection(a: Seq<Specifier>, b: Seq<Specifier>, v: VersionView)
    ensures
        all_satisfied(a + b, v) == (all_satisfied(a, v) && all_satisfied(b, v)),
{
    if all_satisfied(a + b, v) {
        assert forall|i: int| 0 <= i < a.len() implies satisfies(
            #[trigger] a[i].operator,
            a[i].version@,
            v,
        ) by {
            assert((a + b)[i] == a[i]);
        }
        assert forall|i: int| 0 <= i < b.len() implies satisfies(
            #[trigger] b[i].operator,
            b[i].version@,
            v,
        ) by {
            assert((a + b)[a.len() + i] == b[i]);
        }
    }
}

fn has_prefix(v: &Version, bound: &Version, n: usize) -> (b: bool)
    requires
        n <= bound.release.len(),
    ensures
        b == prefix_matches(v@, bound@, n as int),
{
    if v.epoch != bound.epoch {
        return false;
    }
    let mut i: usize = 0;
    while i < n
        invariant
            i <= n,
            n <= bound.release.len(),
            forall|k: int| 0 <= k < i ==> segment(v.release@, k) == segment(bound.release@, k),
        decreases n - i,
    {
        let x: u64 = if i < v.release.len() {
            v.release[i]
        } else {
            0
        };
        if x != bound.release[i] {
            assert(segment(v@.release, i as int) != segment(bound@.release, i as int));
            return false;
        }
        i = i + 1;
    }
    assert forall|k: int| 0 <= k < n implies segment(v@.release, k) == segment(
        bound@.release,
        k,
    ) by {
        assert(segment(v.release@, k) == segment(bound.release@, k));
    }
    true
}

fn same_release(a: &Vec<u64>, b: &Vec<u64>) -> (r: bool)
    ensures
        r == (a@ == b@),
{
    if a.len() != b.len() {
        return false;
    }
    let mut i: usize = 0;
    while i < a.len()
        invariant
            i <= a.len(),
            a.len() == b.len(),
            forall|k: int| 0 <= k < i ==> a@[k] == b@[k],
        decreases a.len() - i,
    {
        if a[i] != b[i] {
            return false;
        }
        i = i + 1;
    }
    assert(a@ =~= b@);
    true
}

fn identical(v: &Version, bound: &Version) -> (r: bool)
    ensures
        r == (v@ == bound@),
{
    v.epoch == bound.epoch && same_release(&v.release, &bound.release) && v.pre == bound.pre
        && v.post == bound.post && v.dev == bound.dev && v.local == bound.local
}

fn equal_to(v: &Version, bound: &Version) -> (r: bool)
    ensures
        r == matches_exactly(v@, bound@),
{
    v.compare(bound) == Order::Equal && (!bound.is_local() || v.local == bound.local)
}

impl Specifier {
    /// Whether `v` lies in the set of versions that the specifier describes.
    pub fn contains(&self, v: &Version) -> (b: bool)
        ensures
            b == satisfies(self.operator, self.version@, v@),
    {
        let bound = &self.version;
        match self.operator {
            Operator::Equal => equal_to(v, bound),
            Operator::NotEqual => !equal_to(v, bound),
            Operator::EqualStar => has_prefix(v, bound, bound.release.len()),
            Operator::NotEqualStar => !has_prefix(v, bound, bound.release.len()),
            Operator::ExactEqual => identical(v, bound),
            Operator::TildeEqual => bound.release.len() >= 2 && v.compare(bound) != Order::Less
                && has_prefix(v, bound, bound.release.len() - 1),
            Operator::LessThan => v.compare(bound) == Order::Less && !(!bound.is_prerelease()
                && v.is_prerelease() && v.has_base_of(bound)),
            Operator::LessThanEqual => v.compare(bound) != Order::Greater,
            Operator::GreaterThan => v.compare(bound) == Order::Greater && !(bound.post.is_none()
                && v.post.is_some() && v.has_base_of(bound)),
            Operator::GreaterThanEqual => v.compare(bound) != Order::Less,
        }
    }

    /// Whether the specifier pins exactly the version `v`.
    pub fn pins(&self, v: &Version) -> (b: bool)
        ensures
            b == pins_one(self.operator, self.version@, v@),
    {
        (self.operator == Operator::Equal || self.operator == Operator::ExactEqual)
            && self.contains(v)
    }
}

/// Whether `v` lies in every specifier of `specifiers`.
pub fn contains_all(specifiers: &Vec<Specifier>, v: &Version) -> (b: bool)
    ensures
        b == all_satisfied(specifiers@, v@),
{
    let mut i: usize = 0;
    while i < specifiers.len()
        invariant
            i <= specifiers.len(),
            forall|k: int|
                0 <= k < i ==> satisfies(
                    #[trigger] specifiers@[k].operator,
                    specifiers@[k].version@,
                    v@,
                ),
        decreases specifiers.len() - i,
    {
        if !specifiers[i].contains(v) {
            return false;
        }
        i = i + 1;
    }
    true
}

/// Whether some specifier of `specifiers` names a pre-release as its bound.
pub fn names_prerelease(specifiers: &Vec<Specifier>) -> (b: bool)
    ensures
        b == mentions_prerelease(specifiers@),
{
    let mut i: usize = 0;
    while i < specifiers.len()
        invariant
            i <= specifiers.len(),
            forall|k: int| 0 <= k < i ==> !prerelease(#[trigger] specifiers@[k].version@),
        decreases specifiers.len() - i,
    {
        if specifiers[i].version.is_prerelease() {
            return true;
        }
        i = i + 1;
    }
    false
}

/// Whether some specifier of `specifiers` pins exactly the version `v`.
pub fn pins_version(specifiers: &Vec<Specifier>, v: &Version) -> (b: bool)
    ensures
        b == pins(specifiers@, v@),
{
    let mut i: usize = 0;
    while i < specifiers.len()
        invariant
            i <= specifiers.len(),
            forall|k: int|
                0 <= k < i ==> !pins_one(
                    #[trigger] specifiers@[k].operator,
                    specifiers@[k].version@,
                    v@,
                ),
        decreases specifiers.len() - i,
    {
        if specifiers[i].pins(v) {
            return true;
        }
        i = i + 1;
    }
    false
}

} // verus!
