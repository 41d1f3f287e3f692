//! Versions of Python packages and their total order.

use crate::text::{decimal, push_all, push_decimal, push_str, chars_of};
use vstd::prelude::*;

verus! {

/// The phase of a pre-release.
#[derive(Debug, Clone, Copy, PartialEq, Eq, Structural)]
pub enum PreReleaseKind {
    Alpha,
    Beta,
    Rc,
}

/// A pre-release marker such as `rc2`.
#[derive(Debug, Clone, Copy, PartialEq, Eq, Structural)]
pub struct PreRelease {
    pub kind: PreReleaseKind,
    pub number: u64,
}

/// A version: `[epoch!]release[{a|b|rc}N][.postN][.devN][+local]`.
#[derive(Debug, Clone)]
pub struct Version {
    pub epoch: u64,
    /// The release segments, `[1, 2, 3]` for `1.2.3`.
    pub release: Vec<u64>,
    pub pre: Option<PreRelease>,
    pub post: Option<u64>,
    pub dev: Option<u64>,
    /// The local label, empty where the version has none.
    pub local: String,
}

/// The mathematical value of a [`Version`].
pub struct VersionView {
    pub epoch: u64,
    pub release: Seq<u64>,
    pub pre: Option<PreRelease>,
    pub post: Option<u64>,
    pub dev: Option<u64>,
    pub local: Seq<char>,
}

impl View for Version {
    type V = VersionView;

    open spec fn view(&self) -> VersionView {
        VersionView {
            epoch: self.epoch,
            release: self.release@,
            pre: self.pre,
            post: self.post,
            dev: self.dev,
            local: self.local@,
        }
    }
}

/// How one value stands to another.
#[derive(Debug, Clone, Copy, PartialEq, Eq, Structural)]
pub enum Order {
    Less,
    Equal,
    Greater,
}

/// The order of two integers.
pub open spec fn int_order(x: int, y: int) -> Order {
    if x < y {
        Order::Less
    } else if x == y {
        Order::Equal
    } else {
        Order::Greater
    }
}

/// Lexicographic combination: `first` decides unless it is `Equal`.
pub open spec fn lex(first: Order, second: Order) -> Order {
    if first == Order::Equal {
        second
    } else {
        first
    }
}

/// The order seen from the other side.
pub open spec fn flip(o: Order) -> Order {
    match o {
        Order::Less => Order::Greater,
        Order::Equal => Order::Equal,
        Order::Greater => Order::Less,
    }
}

/// What the orders of `a` to `b`, `b` to `c` and `a` to `c` satisfy in a
/// total preorder.
pub open spec fn composes(ab: Order, bc: Order, ac: Order) -> bool {
    &&& ab == Order::Equal ==> ac == bc
    &&& bc == Order::Equal ==> ac == ab
    &&& ab == Order::Less && bc == Order::Less ==> ac == Order::Less
    &&& ab == Order::Greater && bc == Order::Greater ==> ac == Order::Greater
}

/// The release segment at position `i`; a release is as good as followed by
/// zeros, so that `1.0` and `1.0.0` are the same.
pub open spec fn segment(release: Seq<u64>, i: int) -> int {
    if 0 <= i < release.len() {
        release[i] as int
    } else {
        0
    }
}

/// The longer of two lengths.
pub open spec fn longer(a: Seq<u64>, b: Seq<u64>) -> int {
    if a.len() > b.len() {
        a.len() as int
    } else {
        b.len() as int
    }
}

/// The order of two releases from position `i` on, segment by segment.
pub open spec fn release_order(a: Seq<u64>, b: Seq<u64>, i: int) -> Order
    decreases longer(a, b) - i,
{
    if i >= longer(a, b) {
        Order::Equal
    } else if segment(a, i) < segment(b, i) {
        Order::Less
    } else if segment(a, i) > segment(b, i) {
        Order::Greater
    } else {
        release_order(a, b, i + 1)
    }
}

/// The rank of a pre-release phase.
pub open spec fn kind_rank(kind: PreReleaseKind) -> int {
    match kind {
        PreReleaseKind::Alpha => 1,
        PreReleaseKind::Beta => 2,
        PreReleaseKind::Rc => 3,
    }
}

/// Where a version stands among those of one release by its pre-release
/// marker: a development release of the final version comes before every
/// pre-release, a version without marker after all of them.
pub open spec fn pre_rank(v: VersionView) -> (int, int) {
    match v.pre {
        Some(p) => (kind_rank(p.kind), p.number as int),
        None => if v.post is None && v.dev is Some {
            (0, 0)
        } else {
            (4, 0)
        },
    }
}

/// Where a version stands by its post-release marker: without one it comes first.
pub open spec fn post_rank(v: VersionView) -> int {
    match v.post {
        Some(n) => n as int,
        None => -1,
    }
}

/// Where a version stands by its development marker: without one it comes last.
pub open spec fn dev_rank(v: VersionView) -> (int, int) {
    match v.dev {
        Some(n) => (0, n as int),
        None => (1, 0),
    }
}

/// The order of two versions: by epoch, then release, then pre-release,
/// post-release and development markers. Local labels play no part.
pub open spec fn order(a: VersionView, b: VersionView) -> Order {
    lex(
        int_order(a.epoch as int, b.epoch as int),
        lex(
            release_order(a.release, b.release, 0),
            lex(
                int_order(pre_rank(a).0, pre_rank(b).0),
                lex(
                    int_order(pre_rank(a).1, pre_rank(b).1),
                    lex(
                        int_order(post_rank(a), post_rank(b)),
                        lex(
                            int_order(dev_rank(a).0, dev_rank(b).0),
                            int_order(dev_rank(a).1, dev_rank(b).1),
                        ),
                    ),
                ),
            ),
        ),
    )
}

/// Whether the version is a pre-release: one with a pre-release or a
/// development marker.
pub open spec fn prerelease(v: VersionView) -> bool {
    v.pre is Some || v.dev is Some
}

/// Whether two versions have the same epoch and release.
pub open spec fn same_base(a: VersionView, b: VersionView) -> bool {
    a.epoch == b.epoch && release_order(a.release, b.release, 0) == Order::Equal
}

/// A release order seen from the other side is the flipped order.
pub proof fn lemma_release_order_flips(a: Seq<u64>, b: Seq<u64>, i: int)
    ensures
        release_order(b, a, i) == flip(release_order(a, b, i)),
    decreases longer(a, b) - i,
{
    if i < longer(a, b) && segment(a, i) == segment(b, i) {
        lemma_release_order_flips(a, b, i + 1);
    }
}

/// Past the end of both releases every suffix is equal.
proof fn lemma_release_order_tail(a: Seq<u64>, b: Seq<u64>, i: int)
    requires
        i >= a.len(),
        i >= b.len(),
    ensures
        release_order(a, b, i) == Order::Equal,
{
}

/// Release orders compose as in a total preorder.
pub proof fn lemma_release_order_composes(a: Seq<u64>, b: Seq<u64>, c: Seq<u64>, i: int)
    requires
        0 <= i,
    ensures
        composes(release_order(a, b, i), release_order(b, c, i), release_order(a, c, i)),
    decreases longer(a, b) + longer(b, c) + longer(a, c) - i,
{
    if i >= longer(a, b) && i >= longer(b, c) && i >= longer(a, c) {
    } else if segment(a, i) == segment(b, i) && segment(b, i) == segment(c, i) {
        lemma_release_order_composes(a, b, c, i + 1);
        lemma_release_zero_suffix(a, b, i);
        lemma_release_zero_suffix(b, c, i);
        lemma_release_zero_suffix(a, c, i);
    } else {
        lemma_release_zero_suffix(a, b, i);
        lemma_release_zero_suffix(b, c, i);
        lemma_release_zero_suffix(a, c, i);
    }
}

/// One step of the comparison, also where `i` lies past both ends.
proof fn lemma_release_zero_suffix(a: Seq<u64>, b: Seq<u64>, i: int)
    requires
        0 <= i,
    ensures
        release_order(a, b, i) == (if segment(a, i) < segment(b, i) {
            Order::Less
        } else if segment(a, i) > segment(b, i) {
            Order::Greater
        } else {
            release_order(a, b, i + 1)
        }),
{
    if i >= longer(a, b) {
        lemma_release_order_tail(a, b, i + 1);
    }
}

/// Every version is equal to itself.
pub proof fn lemma_order_reflexive(a: VersionView)
    ensures
        order(a, a) == Order::Equal,
{
    lemma_release_reflexive(a.release, 0);
}

proof fn lemma_release_reflexive(a: Seq<u64>, i: int)
    ensures
        release_order(a, a, i) == Order::Equal,
    decreases longer(a, a) - i,
{
    if i < longer(a, a) {
        lemma_release_reflexive(a, i + 1);
    }
}

/// The order of `b` to `a` is the order of `a` to `b`, flipped.
pub proof fn lemma_order_flips(a: VersionView, b: VersionView)
    ensures
        order(b, a) == flip(order(a, b)),
{
    lemma_release_order_flips(a.release, b.release, 0);
}

/// The order is transitive: it is a total preorder on versions.
pub proof fn lemma_order_composes(a: VersionView, b: VersionView, c: VersionView)
    ensures
        composes(order(a, b), order(b, c), order(a, c)),
{
    lemma_release_order_composes(a.release, b.release, c.release, 0);
}

impl Order {
    /// The order seen from the other side.
    pub fn reversed(self) -> (o: Order)
        ensures
            o == flip(self),
    {
        match self {
            Order::Less => Order::Greater,
            Order::Equal => Order::Equal,
            Order::Greater => Order::Less,
        }
    }
}

fn order_u64(x: u64, y: u64) -> (o: Order)
    ensures
        o == int_order(x as int, y as int),
{
    if x < y {
        Order::Less
    } else if x == y {
        Order::Equal
    } else {
        Order::Greater
    }
}

/// The order of two releases, `1.0` and `1.0.0` being equal.
pub fn compare_release(a: &Vec<u64>, b: &Vec<u64>) -> (o: Order)
    ensures
        o == release_order(a@, b@, 0),
{
    let n = if a.len() > b.len() {
        a.len()
    } else {
        b.len()
    };
    let mut i: usize = 0;
    while i < n
        invariant
            i <= n,
            n == longer(a@, b@),
            release_order(a@, b@, 0) == release_order(a@, b@, i as int),
        decreases n - i,
    {
        let x: u64 = if i < a.len() {
            a[i]
        } else {
            0
        };
        let y: u64 = if i < b.len() {
            b[i]
        } else {
            0
        };
        if x < y {
            return Order::Less;
        }
        if x > y {
            return Order::Greater;
        }
        i = i + 1;
    }
    Order::Equal
}

impl Version {
    /// A final release with the given segments: `Version::new(vec![1, 2])` is `1.2`.
    pub fn new(release: Vec<u64>) -> (v: Version)
        ensures
            v@ == (VersionView {
                epoch: 0,
                release: release@,
                pre: None,
                post: None,
                dev: None,
                local: Seq::empty(),
            }),
    {
        Version { epoch: 0, release, pre: None, post: None, dev: None, local: String::new() }
    }

    /// A copy of the version.
    pub fn duplicate(&self) -> (v: Version)
        ensures
            v@ == self@,
    {
        let release = self.release.clone();
        assert(release@ =~= self.release@);
        Version {
            epoch: self.epoch,
            release,
            pre: self.pre,
            post: self.post,
            dev: self.dev,
            local: self.local.clone(),
        }
    }

    /// Whether the version is a pre-release.
    pub fn is_prerelease(&self) -> (b: bool)
        ensures
            b == prerelease(self@),
    {
        self.pre.is_some() || self.dev.is_some()
    }

    /// Whether the version carries a local label.
    pub fn is_local(&self) -> (b: bool)
        ensures
            b == (self@.local.len() > 0),
    {
        !self.local.as_str().is_empty()
    }

    /// How the version stands to `other` in the total order of versions.
    pub fn compare(&self, other: &Version) -> (o: Order)
        ensures
            o == order(self@, other@),
    {
        let by_epoch = order_u64(self.epoch, other.epoch);
        if by_epoch != Order::Equal {
            return by_epoch;
        }
        let by_release = compare_release(&self.release, &other.release);
        if by_release != Order::Equal {
            return by_release;
        }
        let (own_phase, own_number) = self.pre_key();
        let (other_phase, other_number) = other.pre_key();
        let by_phase = order_u64(own_phase, other_phase);
        if by_phase != Order::Equal {
            return by_phase;
        }
        let by_pre = order_u64(own_number, other_number);
        if by_pre != Order::Equal {
            return by_pre;
        }
        let by_post = match (self.post, other.post) {
            (None, None) => Order::Equal,
            (None, Some(_)) => Order::Less,
            (Some(_), None) => Order::Greater,
            (Some(x), Some(y)) => order_u64(x, y),
        };
        if by_post != Order::Equal {
            return by_post;
        }
        match (self.dev, other.dev) {
            (None, None) => Order::Equal,
            (None, Some(_)) => Order::Greater,
            (Some(_), None) => Order::Less,
            (Some(x), Some(y)) => order_u64(x, y),
        }
    }

    fn pre_key(&self) -> (k: (u64, u64))
        ensures
            k.0 == pre_rank(self@).0,
            k.1 == pre_rank(self@).1,
    {
        match self.pre {
            Some(p) => {
                let rank: u64 = match p.kind {
                    PreReleaseKind::Alpha => 1,
                    PreReleaseKind::Beta => 2,
                    PreReleaseKind::Rc => 3,
                };
                (rank, p.number)
            },
            None => if self.post.is_none() && self.dev.is_some() {
                (0, 0)
            } else {
                (4, 0)
            },
        }
    }

    /// Whether the version has the epoch and release of `other`.
    pub fn has_base_of(&self, other: &Version) -> (b: bool)
        ensures
            b == same_base(self@, other@),
    {
        self.epoch == other.epoch && compare_release(&self.release, &other.release)
            == Order::Equal
    }
}

/// The release segments, joined by dots.
pub open spec fn release_text(release: Seq<u64>) -> Seq<char>
    decreases release.len(),
{
    if release.len() == 0 {
        Seq::empty()
    } else if release.len() == 1 {
        decimal(release[0] as nat)
    } else {
        release_text(release.drop_last()) + seq!['.'] + decimal(release.last() as nat)
    }
}

/// The letters of a pre-release phase.
pub open spec fn kind_text(kind: PreReleaseKind) -> Seq<char> {
    match kind {
        PreReleaseKind::Alpha => seq!['a'],
        PreReleaseKind::Beta => seq!['b'],
        PreReleaseKind::Rc => seq!['r', 'c'],
    }
}

/// The epoch with its `!`, nothing for epoch zero.
pub open spec fn epoch_text(v: VersionView) -> Seq<char> {
    if v.epoch != 0 {
        decimal(v.epoch as nat) + seq!['!']
    } else {
        Seq::empty()
    }
}

/// The pre-release marker, such as `rc1`.
pub open spec fn pre_text(v: VersionView) -> Seq<char> {
    match v.pre {
        Some(p) => kind_text(p.kind) + decimal(p.number as nat),
        None => Seq::empty(),
    }
}

/// The post-release marker, such as `.post2`.
pub open spec fn post_text(v: VersionView) -> Seq<char> {
    match v.post {
        Some(n) => seq!['.', 'p', 'o', 's', 't'] + decimal(n as nat),
        None => Seq::empty(),
    }
}

/// The development marker, such as `.dev3`.
pub open spec fn dev_text(v: VersionView) -> Seq<char> {
    match v.dev {
        Some(n) => seq!['.', 'd', 'e', 'v'] + decimal(n as nat),
        None => Seq::empty(),
    }
}

/// The local label with its `+`.
pub open spec fn local_text(v: VersionView) -> Seq<char> {
    if v.local.len() > 0 {
        seq!['+'] + v.local
    } else {
        Seq::empty()
    }
}

/// The normal form of a version as text, such as `1!2.0rc1.post2.dev3+local`.
pub open spec fn version_text(v: VersionView) -> Seq<char> {
    epoch_text(v) + release_text(v.release) + pre_text(v) + post_text(v) + dev_text(v)
        + local_text(v)
}

fn push_epoch(out: &mut Vec<char>, v: &Version)
    ensures
        final(out)@ == old(out)@ + epoch_text(v@),
{
    if v.epoch != 0 {
        push_decimal(out, v.epoch);
        out.push('!');
    }
    assert(out@ =~= old(out)@ + epoch_text(v@));
}

fn push_release(out: &mut Vec<char>, release: &Vec<u64>)
    ensures
        final(out)@ == old(out)@ + release_text(release@),
{
    let mut i: usize = 0;
    assert(release@.take(0).len() == 0);
    assert(out@ =~= old(out)@ + release_text(release@.take(0)));
    while i < release.len()
        invariant
            i <= release.len(),
            out@ == old(out)@ + release_text(release@.take(i as int)),
        decreases release.len() - i,
    {
        let ghost before = out@;
        if i > 0 {
            out.push('.');
        }
        push_decimal(out, release[i]);
        proof {
            let next = release@.take(i + 1);
            assert(next.drop_last() == release@.take(i as int));
            assert(next.last() == release@[i as int]);
            assert(out@ =~= old(out)@ + release_text(next));
        }
        i = i + 1;
    }
    assert(release@.take(release@.len() as int) == release@);
}

fn push_pre(out: &mut Vec<char>, v: &Version)
    ensures
        final(out)@ == old(out)@ + pre_text(v@),
{
    match v.pre {
        Some(p) => {
            match p.kind {
                PreReleaseKind::Alpha => {
                    out.push('a');
                },
                PreReleaseKind::Beta => {
                    out.push('b');
                },
                PreReleaseKind::Rc => {
                    out.push('r');
                    out.push('c');
                },
            }
            assert(out@ =~= old(out)@ + kind_text(p.kind));
            push_decimal(out, p.number);
        },
        None => {},
    }
    assert(out@ =~= old(out)@ + pre_text(v@));
}

fn push_post(out: &mut Vec<char>, v: &Version)
    ensures
        final(out)@ == old(out)@ + post_text(v@),
{
    match v.post {
        Some(n) => {
            push_str(out, ".post");
            proof {
                reveal_strlit(".post");
                assert(".post"@ =~= seq!['.', 'p', 'o', 's', 't']);
            }
            push_decimal(out, n);
        },
        None => {},
    }
    assert(out@ =~= old(out)@ + post_text(v@));
}

fn push_dev(out: &mut Vec<char>, v: &Version)
    ensures
        final(out)@ == old(out)@ + dev_text(v@),
{
    match v.dev {
        Some(n) => {
            push_str(out, ".dev");
            proof {
                reveal_strlit(".dev");
                assert(".dev"@ =~= seq!['.', 'd', 'e', 'v']);
            }
            push_decimal(out, n);
        },
        None => {},
    }
    assert(out@ =~= old(out)@ + dev_text(v@));
}

fn push_local(out: &mut Vec<char>, v: &Version)
    ensures
        final(out)@ == old(out)@ + local_text(v@),
{
    if v.is_local() {
        out.push('+');
        let local = chars_of(v.local.as_str());
        push_all(out, &local);
    }
    assert(out@ =~= old(out)@ + local_text(v@));
}

/// Appends the normal form of `v` to `out`.
pub fn push_version(out: &mut Vec<char>, v: &Version)
    ensures
        final(out)@ == old(out)@ + version_text(v@),
{
    push_epoch(out, v);
    push_release(out, &v.release);
    push_pre(out, v);
    push_post(out, v);
    push_dev(out, v);
    push_local(out, v);
    assert(out@ =~= old(out)@ + version_text(v@));
}

} // verus!
