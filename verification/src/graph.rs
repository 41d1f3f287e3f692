//! The resolution graph: one node per chosen package, in the order of the
//! names, and one edge per requirement that joins two of them.

use crate::candidate::{release_at, Resolver};
use crate::requirement::Requirement;
use crate::solver::{
    active_among, active_dependencies, applies_to, chosen, copy_decision, decision_ok,
    decisions_view, holder, holder_of, offered, target, well_formed, Decision, DecisionView,
    Origin,
};
use crate::specifier::{Operator, Specifier};
use crate::text::{chars_of, compare_text, push_str, string_of, text_order, texts};
use crate::version::{push_version, version_text, Order, Version, VersionView};
use vstd::prelude::*;

verus! {

/// A package of the resolution at its chosen version.
#[derive(Debug, Clone)]
pub struct Node {
    /// The package's name.
    pub name: String,
    /// The extras asked of the package, in lexicographic order.
    pub extras: Vec<String>,
    /// The version chosen.
    pub version: Version,
    /// Where the release stands in the snapshot.
    pub decision: Decision,
}

/// The mathematical value of a [`Node`].
pub struct NodeView {
    pub name: Seq<char>,
    pub extras: Seq<Seq<char>>,
    pub version: VersionView,
    pub decision: DecisionView,
}

impl View for Node {
    type V = NodeView;

    open spec fn view(&self) -> NodeView {
        NodeView {
            name: self.name@,
            extras: texts(self.extras@),
            version: self.version@,
            decision: self.decision@,
        }
    }
}

/// A requirement of the release of node `from` that names the package of
/// node `to`; both are positions in the list of nodes.
#[derive(Debug, Clone, Copy, PartialEq, Eq)]
pub struct Edge {
    pub from: usize,
    pub to: usize,
    pub requirement: Origin,
}

/// The mathematical value of an [`Edge`].
pub struct EdgeView {
    pub from: int,
    pub to: int,
    pub requirement: Origin,
}

impl View for Edge {
    type V = EdgeView;

    open spec fn view(&self) -> EdgeView {
        EdgeView { from: self.from as int, to: self.to as int, requirement: self.requirement }
    }
}

/// The result of a resolution.
#[derive(Debug, Clone)]
pub struct Graph {
    pub nodes: Vec<Node>,
    pub edges: Vec<Edge>,
}

/// The mathematical value of a [`Graph`].
pub struct GraphView {
    pub nodes: Seq<NodeView>,
    pub edges: Seq<EdgeView>,
}

/// The values of a list of nodes, in order.
pub open spec fn nodes_view(nodes: Seq<Node>) -> Seq<NodeView> {
    Seq::new(nodes.len(), |i: int| nodes[i]@)
}

/// The values of a list of edges, in order.
pub open spec fn edges_view(edges: Seq<Edge>) -> Seq<EdgeView> {
    Seq::new(edges.len(), |i: int| edges[i]@)
}

impl View for Graph {
    type V = GraphView;

    open spec fn view(&self) -> GraphView {
        GraphView { nodes: nodes_view(self.nodes@), edges: edges_view(self.edges@) }
    }
}

/// The name of the package of a decision.
pub open spec fn name_of(p: Resolver, d: DecisionView) -> Seq<char> {
    p.index.packages@[d.package as int].name@
}

/// Where a text is put into a list of texts in lexicographic order: before
/// the first, from `from` on, that comes after it.
pub open spec fn text_point(sorted: Seq<Seq<char>>, text: Seq<char>, from: int) -> int
    decreases sorted.len() - from,
{
    if from < 0 || from >= sorted.len() {
        sorted.len() as int
    } else if text_order(text, sorted[from]) == Order::Less {
        from
    } else {
        text_point(sorted, text, from + 1)
    }
}

/// The point lies within the list or at its end.
pub proof fn lemma_text_point(sorted: Seq<Seq<char>>, text: Seq<char>, from: int)
    requires
        0 <= from <= sorted.len(),
    ensures
        from <= text_point(sorted, text, from) <= sorted.len(),
    decreases sorted.len() - from,
{
    if from < sorted.len() && text_order(text, sorted[from]) != Order::Less {
        lemma_text_point(sorted, text, from + 1);
    }
}

/// The names of the decisions, in order.
pub open spec fn names_of(p: Resolver, ds: Seq<DecisionView>) -> Seq<Seq<char>> {
    Seq::new(ds.len(), |i: int| name_of(p, ds[i]))
}

/// The first `n` decisions in the order of their packages' names; of two
/// with one name the earlier stays first.
pub open spec fn by_name(p: Resolver, ds: Seq<DecisionView>, n: int) -> Seq<DecisionView>
    decreases n,
{
    if n <= 0 || n > ds.len() {
        Seq::empty()
    } else {
        let sorted = by_name(p, ds, n - 1);
        sorted.insert(text_point(names_of(p, sorted), name_of(p, ds[n - 1]), 0), ds[n - 1])
    }
}

/// The names of those among the first `n` extras offered that are asked of
/// the decision, in lexicographic order.
pub open spec fn extras_of(p: Resolver, d: DecisionView, n: int) -> Seq<Seq<char>>
    decreases n,
{
    if n <= 0 || n > d.extras.len() {
        Seq::empty()
    } else if d.extras[n - 1] {
        let sorted = extras_of(p, d, n - 1);
        let extra = offered(p, d.package as int, d.release as int)[n - 1]@;
        sorted.insert(text_point(sorted, extra, 0), extra)
    } else {
        extras_of(p, d, n - 1)
    }
}

/// The node that stands for a decision.
pub open spec fn node_of(p: Resolver, d: DecisionView) -> NodeView {
    NodeView {
        name: name_of(p, d),
        extras: extras_of(p, d, d.extras.len() as int),
        version: chosen(p, d),
        decision: d,
    }
}

/// The edges for the first `n` of the requirements `refs` of node `a`: one
/// for each that names the package of another node.
pub open spec fn edges_among(
    p: Resolver,
    sorted: Seq<DecisionView>,
    a: int,
    refs: Seq<Origin>,
    n: int,
) -> Seq<EdgeView>
    decreases n,
{
    if n <= 0 || n > refs.len() {
        Seq::empty()
    } else {
        let earlier = edges_among(p, sorted, a, refs, n - 1);
        match target(p, refs[n - 1]) {
            Some(pi) => match holder(sorted, pi) {
                Some(t) => if t != a {
                    earlier.push(EdgeView { from: a, to: t, requirement: refs[n - 1] })
                } else {
                    earlier
                },
                None => earlier,
            },
            None => earlier,
        }
    }
}

/// The edges that leave the first `m` nodes.
pub open spec fn edges_upto(p: Resolver, sorted: Seq<DecisionView>, m: int) -> Seq<EdgeView>
    decreases m,
{
    if m <= 0 || m > sorted.len() {
        Seq::empty()
    } else {
        let refs = active_dependencies(p, sorted[m - 1]);
        edges_upto(p, sorted, m - 1) + edges_among(p, sorted, m - 1, refs, refs.len() as int)
    }
}

/// The graph of the decisions `ds`.
pub open spec fn graph_of(p: Resolver, ds: Seq<DecisionView>) -> GraphView {
    let sorted = by_name(p, ds, ds.len() as int);
    GraphView {
        nodes: Seq::new(sorted.len(), |i: int| node_of(p, sorted[i])),
        edges: edges_upto(p, sorted, sorted.len() as int),
    }
}

/// The extras in square brackets, joined by commas, the first `n` of them.
pub open spec fn extras_text(extras: Seq<Seq<char>>, n: int) -> Seq<char>
    decreases n,
{
    if n <= 0 || n > extras.len() {
        Seq::empty()
    } else if n == 1 {
        extras[0]
    } else {
        extras_text(extras, n - 1) + seq![','] + extras[n - 1]
    }
}

/// The line of a node: `name[extra1,extra2]==version` and a line feed; the
/// brackets only where there are extras.
pub open spec fn node_text(node: NodeView) -> Seq<char> {
    node.name + (if node.extras.len() > 0 {
        seq!['['] + extras_text(node.extras, node.extras.len() as int) + seq![']']
    } else {
        Seq::empty()
    }) + seq!['=', '='] + version_text(node.version) + seq!['\n']
}

/// The lines of the first `n` nodes.
pub open spec fn nodes_text(nodes: Seq<NodeView>, n: int) -> Seq<char>
    decreases n,
{
    if n <= 0 || n > nodes.len() {
        Seq::empty()
    } else {
        nodes_text(nodes, n - 1) + node_text(nodes[n - 1])
    }
}

/// The text of a graph: one line per node, in the order of the nodes.
pub open spec fn graph_text(g: GraphView) -> Seq<char> {
    nodes_text(g.nodes, g.nodes.len() as int)
}

fn push_extras(out: &mut Vec<char>, extras: &Vec<String>)
    ensures
        final(out)@ == old(out)@ + (if extras@.len() > 0 {
            seq!['['] + extras_text(texts(extras@), extras@.len() as int) + seq![']']
        } else {
            Seq::empty()
        }),
{
    if extras.len() == 0 {
        assert(out@ =~= old(out)@ + Seq::<char>::empty());
        return ;
    }
    out.push('[');
    let ghost start = out@;
    let mut n: usize = 0;
    assert(out@ =~= start + extras_text(texts(extras@), 0));
    while n < extras.len()
        invariant
            n <= extras.len(),
            out@ == start + extras_text(texts(extras@), n as int),
        decreases extras.len() - n,
    {
        let ghost before = out@;
        if n > 0 {
            out.push(',');
        }
        push_str(out, extras[n].as_str());
        proof {
            assert(texts(extras@)[n as int] == extras@[n as int]@);
            assert(out@ =~= start + extras_text(texts(extras@), n + 1));
        }
        n = n + 1;
    }
    out.push(']');
    assert(out@ =~= old(out)@ + (seq!['['] + extras_text(texts(extras@), extras@.len() as int)
        + seq![']']));
}

fn push_node(out: &mut Vec<char>, node: &Node)
    ensures
        final(out)@ == old(out)@ + node_text(node@),
{
    push_str(out, node.name.as_str());
    push_extras(out, &node.extras);
    out.push('=');
    out.push('=');
    push_version(out, &node.version);
    out.push('\n');
    assert(texts(node.extras@).len() == node.extras@.len());
    assert(out@ =~= old(out)@ + node_text(node@));
}

impl Graph {
    /// The text of the graph: one line `name[extras]==version` per node.
    pub fn to_text(&self) -> (text: String)
        ensures
            text@ == graph_text(self@),
    {
        let mut out: Vec<char> = Vec::new();
        let mut n: usize = 0;
        while n < self.nodes.len()
            invariant
                n <= self.nodes.len(),
                out@ == nodes_text(nodes_view(self.nodes@), n as int),
            decreases self.nodes.len() - n,
        {
            push_node(&mut out, &self.nodes[n]);
            assert(nodes_view(self.nodes@)[n as int] == self.nodes@[n as int]@);
            n = n + 1;
        }
        string_of(&out)
    }
}

/// Where `text` is put into `sorted`.
fn find_point(sorted: &Vec<String>, text: &str) -> (at: usize)
    ensures
        at == text_point(texts(sorted@), text@, 0),
        at <= sorted@.len(),
{
    let t = chars_of(text);
    let mut from: usize = 0;
    proof {
        lemma_text_point(texts(sorted@), text@, 0);
    }
    while from < sorted.len()
        invariant
            from <= sorted.len(),
            t@ == text@,
            text_point(texts(sorted@), text@, 0) == text_point(texts(sorted@), text@, from as int),
        decreases sorted.len() - from,
    {
        assert(texts(sorted@)[from as int] == sorted@[from as int]@);
        if compare_text(&t, &chars_of(sorted[from].as_str())) == Order::Less {
            return from;
        }
        from = from + 1;
    }
    from
}

/// The names of the extras that are asked of the decision, in order.
fn extras_in_order(p: &Resolver, d: &Decision) -> (out: Vec<String>)
    requires
        decision_ok(*p, d@),
    ensures
        texts(out@) == extras_of(*p, d@, d@.extras.len() as int),
{
    let mut out: Vec<String> = Vec::new();
    match &p.index.packages[d.package].releases[d.release].metadata {
        None => {
            assert(false);
        },
        Some(m) => {
            let mut n: usize = 0;
            assert(texts(out@) =~= extras_of(*p, d@, 0));
            while n < d.extras.len()
                invariant
                    n <= d.extras.len(),
                    decision_ok(*p, d@),
                    offered(*p, d.package as int, d.release as int) == m.provides_extras@,
                    texts(out@) == extras_of(*p, d@, n as int),
                decreases d.extras.len() - n,
            {
                if d.extras[n] {
                    let extra = &m.provides_extras[n];
                    let at = find_point(&out, extra.as_str());
                    let ghost before = out@;
                    out.insert(at, extra.clone());
                    assert(texts(out@) =~= texts(before).insert(at as int, extra@));
                }
                n = n + 1;
            }
        },
    }
    out
}

/// Where a decision for a package named `name` is put into `sorted`.
fn find_place(p: &Resolver, sorted: &Vec<Decision>, name: &str) -> (at: usize)
    requires
        well_formed(*p, decisions_view(sorted@)),
    ensures
        at == text_point(names_of(*p, decisions_view(sorted@)), name@, 0),
        at <= sorted@.len(),
{
    let ghost names = names_of(*p, decisions_view(sorted@));
    let t = chars_of(name);
    let mut from: usize = 0;
    proof {
        lemma_text_point(names, name@, 0);
    }
    while from < sorted.len()
        invariant
            from <= sorted.len(),
            t@ == name@,
            names == names_of(*p, decisions_view(sorted@)),
            well_formed(*p, decisions_view(sorted@)),
            text_point(names, name@, 0) == text_point(names, name@, from as int),
        decreases sorted.len() - from,
    {
        let d = &sorted[from];
        assert(decisions_view(sorted@)[from as int] == d@);
        assert(decision_ok(*p, decisions_view(sorted@)[from as int]));
        assert(names[from as int] == name_of(*p, d@));
        if compare_text(&t, &chars_of(p.index.packages[d.package].name.as_str())) == Order::Less {
            return from;
        }
        from = from + 1;
    }
    from
}

/// The decisions in the order of their packages' names.
pub(crate) fn sort_by_name(p: &Resolver, ds: &Vec<Decision>) -> (sorted: Vec<Decision>)
    requires
        well_formed(*p, decisions_view(ds@)),
    ensures
        decisions_view(sorted@) == by_name(*p, decisions_view(ds@), ds@.len() as int),
        well_formed(*p, decisions_view(sorted@)),
{
    let ghost dv = decisions_view(ds@);
    let mut sorted: Vec<Decision> = Vec::new();
    let mut n: usize = 0;
    assert(decisions_view(sorted@) =~= by_name(*p, dv, 0));
    while n < ds.len()
        invariant
            n <= ds.len(),
            dv == decisions_view(ds@),
            well_formed(*p, dv),
            decisions_view(sorted@) == by_name(*p, dv, n as int),
            well_formed(*p, decisions_view(sorted@)),
        decreases ds.len() - n,
    {
        let d = &ds[n];
        assert(dv[n as int] == d@);
        assert(decision_ok(*p, dv[n as int]));
        let at = find_place(p, &sorted, p.index.packages[d.package].name.as_str());
        let ghost before = sorted@;
        sorted.insert(at, copy_decision(d));
        proof {
            let bv = decisions_view(before);
            let sv = decisions_view(sorted@);
            assert(sv =~= bv.insert(at as int, d@));
            assert forall|i: int| 0 <= i < sv.len() implies decision_ok(*p, #[trigger] sv[i]) by {
                if i < at {
                    assert(decision_ok(*p, bv[i]));
                } else if i > at {
                    assert(decision_ok(*p, bv[i - 1]));
                }
            }
        }
        n = n + 1;
    }
    sorted
}

/// The node that stands for a decision.
pub(crate) fn make_node(p: &Resolver, d: &Decision) -> (node: Node)
    requires
        decision_ok(*p, d@),
    ensures
        node@ == node_of(*p, d@),
{
    let package = &p.index.packages[d.package];
    Node {
        name: package.name.clone(),
        extras: extras_in_order(p, d),
        version: package.releases[d.release].version.duplicate(),
        decision: copy_decision(d),
    }
}

/// Appends the edges that leave node `a`.
fn push_edges(p: &Resolver, sorted: &Vec<Decision>, a: usize, edges: &mut Vec<Edge>)
    requires
        well_formed(*p, decisions_view(sorted@)),
        a < sorted@.len(),
    ensures
        edges_view(final(edges)@) == edges_view(old(edges)@) + ({
            let refs = active_dependencies(*p, decisions_view(sorted@)[a as int]);
            edges_among(*p, decisions_view(sorted@), a as int, refs, refs.len() as int)
        }),
{
    let ghost sv = decisions_view(sorted@);
    let ghost start = edges_view(edges@);
    let d = &sorted[a];
    assert(sv[a as int] == d@);
    assert(decision_ok(*p, sv[a as int]));
    match &p.index.packages[d.package].releases[d.release].metadata {
        None => {
            assert(false);
        },
        Some(m) => {
            let declared = &m.requires_dist;
            let ghost refs = active_dependencies(*p, d@);
            let mut k: usize = 0;
            let ghost mut seen: int = 0;
            assert(edges_view(edges@) =~= start + edges_among(*p, sv, a as int, refs, 0));
            while k < declared.len()
                invariant
                    k <= declared.len(),
                    sv == decisions_view(sorted@),
                    well_formed(*p, sv),
                    a < sorted@.len(),
                    d == &sorted@[a as int],
                    decision_ok(*p, d@),
                    release_at(*p, d.package as int, d.release as int).metadata == Some(*m),
                    declared == &m.requires_dist,
                    refs == active_among(*p, d@, *declared, declared.len() as int),
                    0 <= seen <= refs.len(),
                    refs.take(seen) == active_among(*p, d@, *declared, k as int),
                    edges_view(edges@) == start + edges_among(*p, sv, a as int, refs, seen),
                decreases declared.len() - k,
            {
                proof {
                    lemma_active_among_grows(*p, d@, *declared, k as int + 1, declared.len() as int);
                }
                if applies_to(p, d, &declared[k]) {
                    let o = Origin::Release { package: d.package, release: d.release, index: k };
                    proof {
                        let next = active_among(*p, d@, *declared, k + 1);
                        assert(next == refs.take(seen).push(o));
                        assert(next == refs.take(next.len() as int));
                        assert(refs.take(seen).len() == seen);
                        assert(next.len() == seen + 1);
                        assert(next[seen] == o);
                        assert(refs.take(next.len() as int)[seen] == refs[seen]);
                        assert(refs[seen] == o);
                        assert(refs.take(seen + 1) =~= next);
                    }
                    let r = &declared[k];
                    match p.index.find(r.name.as_str()) {
                        Some(pi) => match holder_of(sorted, pi) {
                            Some(t) => {
                                if t != a {
                                    let ghost before = edges@;
                                    edges.push(Edge { from: a, to: t, requirement: o });
                                    assert(edges_view(edges@) =~= edges_view(before).push(
                                        EdgeView { from: a as int, to: t as int, requirement: o },
                                    ));
                                }
                            },
                            None => {},
                        },
                        None => {},
                    }
                    proof {
                        seen = seen + 1;
                    }
                    assert(edges_view(edges@) =~= start + edges_among(*p, sv, a as int, refs, seen));
                }
                k = k + 1;
            }
            assert(refs.take(seen) == refs);
            assert(seen == refs.len());
        },
    }
}

/// The active requirements among the first `n` are the first of those
/// among the first `m`, for `n` up to `m`.
pub proof fn lemma_active_among_grows(
    p: Resolver,
    d: DecisionView,
    declared: Vec<Requirement>,
    n: int,
    m: int,
)
    requires
        0 <= n <= m <= declared.len(),
    ensures
        active_among(p, d, declared, n).len() <= active_among(p, d, declared, m).len(),
        active_among(p, d, declared, n) == active_among(p, d, declared, m).take(
            active_among(p, d, declared, n).len() as int,
        ),
    decreases m - n,
{
    if n < m {
        lemma_active_among_grows(p, d, declared, n, m - 1);
        let a = active_among(p, d, declared, n);
        let b = active_among(p, d, declared, m - 1);
        let c = active_among(p, d, declared, m);
        assert(a =~= c.take(a.len() as int));
    } else {
        let a = active_among(p, d, declared, n);
        assert(a =~= a.take(a.len() as int));
    }
}

/// The graph of the decisions `ds`.
pub(crate) fn build_graph(p: &Resolver, ds: &Vec<Decision>) -> (g: Graph)
    requires
        well_formed(*p, decisions_view(ds@)),
    ensures
        g@ == graph_of(*p, decisions_view(ds@)),
{
    let sorted = sort_by_name(p, ds);
    let ghost sv = decisions_view(sorted@);
    let mut nodes: Vec<Node> = Vec::new();
    let mut edges: Vec<Edge> = Vec::new();
    let mut m: usize = 0;
    assert(edges_view(edges@) =~= edges_upto(*p, sv, 0));
    while m < sorted.len()
        invariant
            m <= sorted.len(),
            sv == decisions_view(sorted@),
            well_formed(*p, sv),
            nodes@.len() == m,
            forall|i: int| 0 <= i < m ==> (#[trigger] nodes@[i])@ == node_of(*p, sv[i]),
            edges_view(edges@) == edges_upto(*p, sv, m as int),
        decreases sorted.len() - m,
    {
        assert(sv[m as int] == sorted@[m as int]@);
        assert(decision_ok(*p, sv[m as int]));
        nodes.push(make_node(p, &sorted[m]));
        push_edges(p, &sorted, m, &mut edges);
        m = m + 1;
    }
    let g = Graph { nodes, edges };
    assert(g@.nodes =~= graph_of(*p, decisions_view(ds@)).nodes);
    g
}

/// Whether the requirement pins the node: it names the node's package and
/// asks for exactly the node's version, without extras or marker.
pub open spec fn pins_node(r: Requirement, node: NodeView) -> bool {
    &&& r.name@ == node.name
    &&& r.extras@.len() == 0
    &&& r.marker is None
    &&& r.specifiers@.len() == 1
    &&& r.specifiers@[0].operator == Operator::Equal
    &&& r.specifiers@[0].version@ == node.version
}

/// Whether the requirements pin every node of the graph, one by one.
pub open spec fn pins_graph(pins: Seq<Requirement>, g: GraphView) -> bool {
    pins.len() == g.nodes.len() && forall|n: int|
        0 <= n < g.nodes.len() ==> pins_node(#[trigger] pins[n], g.nodes[n])
}

impl Graph {
    /// One requirement `name==version` per node: the preferences that keep
    /// a later resolution at the versions of this one.
    pub fn pins(&self) -> (out: Vec<Requirement>)
        ensures
            pins_graph(out@, self@),
    {
        let mut out: Vec<Requirement> = Vec::new();
        let mut n: usize = 0;
        while n < self.nodes.len()
            invariant
                n <= self.nodes.len(),
                out@.len() == n,
                forall|i: int| 0 <= i < n ==> pins_node(#[trigger] out@[i], self@.nodes[i]),
            decreases self.nodes.len() - n,
        {
            let node = &self.nodes[n];
            let mut specifiers: Vec<Specifier> = Vec::new();
            specifiers.push(Specifier { operator: Operator::Equal, version: node.version.duplicate() });
            let r = Requirement {
                name: node.name.clone(),
                extras: Vec::new(),
                specifiers,
                marker: None,
            };
            assert(self@.nodes[n as int] == node@);
            assert(pins_node(r, self@.nodes[n as int]));
            out.push(r);
            n = n + 1;
        }
        out
    }
}

} // verus!
