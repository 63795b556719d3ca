use crate::locator::Locator;
use crate::module::{edges_within, has_edge, is_path, on_cycle};
use petgraph::graph::NodeIndex;
use petgraph::Graph;
use vstd::prelude::*;

verus! {

/// An external definition: a node of the syntax tree of a module, by the
/// index and generation of the node.
#[derive(Clone, Debug, PartialEq, Eq, Hash)]
pub struct External {
    pub loc: Locator,
    pub index: usize,
    pub generation: u64,
}

/// The mathematical value of an external definition.
pub struct ExternalV {
    pub loc: Seq<char>,
    pub index: nat,
    pub generation: nat,
}

impl External {
    pub open spec fn view(&self) -> ExternalV {
        ExternalV { loc: self.loc@, index: self.index as nat, generation: self.generation as nat }
    }

    /// Returns a copy of the definition.
    pub fn duplicate(&self) -> (r: External)
        ensures
            r@ == self@,
    {
        External { loc: self.loc.duplicate(), index: self.index, generation: self.generation }
    }

    /// Compares two definitions.
    pub fn same(&self, other: &External) -> (r: bool)
        ensures
            r == (self@ == other@),
    {
        self.index == other.index && self.generation == other.generation && self.loc.same(
            &other.loc,
        )
    }
}

/// The definitions held by the nodes of a graph, by node index.
pub uninterp spec fn def_nodes(g: Graph<External, ()>) -> Seq<ExternalV>;

/// The edges of a graph of definitions, as pairs of node indices, in insertion order.
pub uninterp spec fn def_edges(g: Graph<External, ()>) -> Seq<(usize, usize)>;

/// The result of `petgraph::algo::kosaraju_scc` on a graph of `n` nodes with
/// the given edges: its strongly connected components, as node indices.
pub uninterp spec fn scc_result(n: nat, edges: Seq<(usize, usize)>) -> Seq<Seq<usize>>;

/// A path along the edges leads from `u` to `v`.
pub open spec fn reaches(edges: Seq<(usize, usize)>, u: usize, v: usize) -> bool {
    exists|p: Seq<usize>|
        p.len() >= 1 && p[0] == u && p[p.len() - 1] == v && #[trigger] is_path(edges, p)
}

/// `v` lies in one of the components.
pub open spec fn in_components(comps: Seq<Seq<usize>>, v: usize) -> bool {
    exists|c: int, i: int| 0 <= c < comps.len() && 0 <= i < comps[c].len() && #[trigger] comps[c][i] == v
}

/// `comps` are the strongly connected components of the graph of `n` nodes:
/// each node lies in exactly one of them, once, and two nodes lie in the same
/// one exactly when each reaches the other.
pub open spec fn components_of(n: nat, edges: Seq<(usize, usize)>, comps: Seq<Seq<usize>>) -> bool {
    &&& forall|c: int, i: int|
        0 <= c < comps.len() && 0 <= i < comps[c].len() ==> #[trigger] comps[c][i] < n
    &&& forall|v: usize| v < n ==> #[trigger] in_components(comps, v)
    &&& forall|c1: int, i1: int, c2: int, i2: int|
        0 <= c1 < comps.len() && 0 <= i1 < comps[c1].len() && 0 <= c2 < comps.len() && 0 <= i2
            < comps[c2].len() && #[trigger] comps[c1][i1] == #[trigger] comps[c2][i2] ==> c1 == c2
            && i1 == i2
    &&& forall|c: int, i: int, j: int|
        0 <= c < comps.len() && 0 <= i < comps[c].len() && 0 <= j < comps[c].len() ==> reaches(
            edges,
            #[trigger] comps[c][i],
            #[trigger] comps[c][j],
        )
    &&& forall|c1: int, i: int, c2: int, j: int|
        0 <= c1 < comps.len() && 0 <= i < comps[c1].len() && 0 <= c2 < comps.len() && 0 <= j
            < comps[c2].len() && c1 != c2 ==> !(reaches(edges, #[trigger] comps[c1][i], #[trigger] comps[c2][j])
            && reaches(edges, comps[c2][j], comps[c1][i]))
}

/// `Graph::new`: an empty directed graph.
#[verifier::external_body]
fn def_graph_new() -> (r: Graph<External, ()>)
    ensures
        def_nodes(r) == Seq::<ExternalV>::empty(),
        def_edges(r) == Seq::<(usize, usize)>::empty(),
{
    Graph::new()
}

/// `Graph::add_node`: appends a node holding `ext` and returns its index.
#[verifier::external_body]
fn def_graph_add_node(g: &mut Graph<External, ()>, ext: External) -> (r: usize)
    requires
        def_nodes(*old(g)).len() < u32::MAX,
    ensures
        r == def_nodes(*old(g)).len(),
        def_nodes(*final(g)) == def_nodes(*old(g)).push(ext@),
        def_edges(*final(g)) == def_edges(*old(g)),
{
    g.add_node(ext).index()
}

/// `Graph::add_edge`: appends an edge from `a` to `b`.
#[verifier::external_body]
fn def_graph_add_edge(g: &mut Graph<External, ()>, a: usize, b: usize)
    requires
        a < def_nodes(*old(g)).len(),
        b < def_nodes(*old(g)).len(),
        def_edges(*old(g)).len() < u32::MAX,
    ensures
        def_nodes(*final(g)) == def_nodes(*old(g)),
        def_edges(*final(g)) == def_edges(*old(g)).push((a, b)),
{
    g.add_edge(NodeIndex::new(a), NodeIndex::new(b), ());
}

/// `Graph::node_weight`: the definition of a node, if the index is in bounds.
#[verifier::external_body]
fn def_graph_node_weight(g: &Graph<External, ()>, a: usize) -> (r: Option<&External>)
    requires
        a < u32::MAX,
    ensures
        r is Some <==> a < def_nodes(*g).len(),
        r matches Some(x) ==> x@ == def_nodes(*g)[a as int],
{
    g.node_weight(NodeIndex::new(a))
}

/// `Graph::find_edge`: the index of an edge from `a` to `b`, if there is one;
/// the contract claims only whether there is one.
#[verifier::external_body]
fn def_graph_find_edge(g: &Graph<External, ()>, a: usize, b: usize) -> (r: Option<usize>)
    requires
        a < u32::MAX,
        b < u32::MAX,
    ensures
        r is Some <==> has_edge(def_edges(*g), a, b),
{
    g.find_edge(NodeIndex::new(a), NodeIndex::new(b)).map(|e| e.index())
}

/// `petgraph::algo::kosaraju_scc`: the result is named by `scc_result`; the
/// contract claims that the components hold each node once and that two
/// nodes share a component exactly when each reaches the other. The order of
/// the components and of the nodes within one is left unsaid.
#[verifier::external_body]
fn def_graph_sccs(g: &Graph<External, ()>) -> (r: Vec<Vec<usize>>)
    ensures
        r@.map_values(|c: Vec<usize>| c@) == scc_result(def_nodes(*g).len(), def_edges(*g)),
        components_of(def_nodes(*g).len(), def_edges(*g), r@.map_values(|c: Vec<usize>| c@)),
{
    petgraph::algo::kosaraju_scc(g).into_iter().map(|c| c.into_iter().map(|n| n.index()).collect()).collect()
}

/// A graph of dependencies between variable definitions.
pub struct DefGraph {
    current: Option<External>,
    graph: Graph<External, ()>,
    count: usize,
}

/// The mathematical value of a graph of definitions.
pub struct DefGraphV {
    /// The current (i.e. opened) definition.
    pub current: Option<ExternalV>,
    /// The definitions, by node index.
    pub nodes: Seq<ExternalV>,
    /// The dependencies, from a definition to one it refers to.
    pub edges: Seq<(usize, usize)>,
}

/// The index of the first node from `i` on that holds `e`, or -1.
pub open spec fn def_index(nodes: Seq<ExternalV>, e: ExternalV, i: int) -> int
    decreases nodes.len() - i,
{
    if i < 0 || i >= nodes.len() {
        -1
    } else if nodes[i] == e {
        i
    } else {
        def_index(nodes, e, i + 1)
    }
}

/// The nodes after `e` is inserted: unchanged when it is known.
pub open spec fn insert_def(nodes: Seq<ExternalV>, e: ExternalV) -> Seq<ExternalV> {
    if def_index(nodes, e, 0) >= 0 {
        nodes
    } else {
        nodes.push(e)
    }
}

/// The node of `e` after it is inserted.
pub open spec fn def_node(nodes: Seq<ExternalV>, e: ExternalV) -> usize {
    if def_index(nodes, e, 0) >= 0 {
        def_index(nodes, e, 0) as usize
    } else {
        nodes.len() as usize
    }
}

proof fn lemma_def_index(nodes: Seq<ExternalV>, e: ExternalV, i: int)
    requires
        0 <= i <= nodes.len(),
    ensures
        def_index(nodes, e, i) == -1 || i <= def_index(nodes, e, i) < nodes.len(),
        def_index(nodes, e, i) != -1 ==> nodes[def_index(nodes, e, i)] == e,
        def_index(nodes, e, i) == -1 ==> forall|j: int|
            i <= j < nodes.len() ==> #[trigger] nodes[j] != e,
    decreases nodes.len() - i,
{
    if i < nodes.len() && nodes[i] != e {
        lemma_def_index(nodes, e, i + 1);
    }
}

impl DefGraph {
    pub closed spec fn view(&self) -> DefGraphV {
        DefGraphV {
            current: match self.current {
                Some(e) => Some(e@),
                None => None,
            },
            nodes: def_nodes(self.graph),
            edges: def_edges(self.graph),
        }
    }

    /// No definition is a node twice, and edges join nodes.
    pub open spec fn wf(&self) -> bool {
        &&& self@.nodes.no_duplicates()
        &&& self@.nodes.len() <= u32::MAX
        &&& edges_within(self@.nodes.len(), self@.edges)
        &&& self.inner_wf()
    }

    pub closed spec fn inner_wf(&self) -> bool {
        self.count == def_nodes(self.graph).len()
    }

    /// Creates an empty graph with no current definition.
    pub fn new() -> (r: DefGraph)
        ensures
            r.wf(),
            r@.current is None,
            r@.nodes == Seq::<ExternalV>::empty(),
            r@.edges == Seq::<(usize, usize)>::empty(),
    {
        DefGraph { current: None, graph: def_graph_new(), count: 0 }
    }

    /// Opens a definition, becoming the current definition.
    pub fn open(&mut self, from: External)
        requires
            old(self).wf(),
        ensures
            final(self).wf(),
            final(self)@.current == Some(from@),
            final(self)@.nodes == old(self)@.nodes,
            final(self)@.edges == old(self)@.edges,
    {
        self.current = Some(from);
    }

    /// Closes a definition.
    pub fn close(&mut self)
        requires
            old(self).wf(),
        ensures
            final(self).wf(),
            final(self)@.current is None,
            final(self)@.nodes == old(self)@.nodes,
            final(self)@.edges == old(self)@.edges,
    {
        self.current = None;
    }

    /// Returns the node of a definition, adding it when it is new.
    fn insert(&mut self, ext: External) -> (r: usize)
        requires
            old(self).wf(),
            old(self)@.nodes.len() < u32::MAX,
        ensures
            final(self).wf(),
            final(self)@.current == old(self)@.current,
            final(self)@.nodes == insert_def(old(self)@.nodes, ext@),
            final(self)@.edges == old(self)@.edges,
            r == def_node(old(self)@.nodes, ext@),
            r < final(self)@.nodes.len(),
    {
        let ghost nodes = self@.nodes;
        proof {
            lemma_def_index(nodes, ext@, 0);
        }
        let mut k: usize = 0;
        while k < self.count
            invariant
                self.wf(),
                self@.nodes == nodes,
                k <= self.count,
                def_index(nodes, ext@, 0) == def_index(nodes, ext@, k as int),
            decreases self.count - k,
        {
            if def_graph_node_weight(&self.graph, k).unwrap().same(&ext) {
                return k;
            }
            k = k + 1;
        }
        let r = def_graph_add_node(&mut self.graph, ext);
        self.count = self.count + 1;
        r
    }

    /// Connects the current definition, if any, to another definition.
    pub fn connect(&mut self, to: External)
        requires
            old(self).wf(),
            old(self)@.nodes.len() + 2 < u32::MAX,
            old(self)@.edges.len() < u32::MAX,
        ensures
            final(self).wf(),
            final(self)@.current == old(self)@.current,
            match old(self)@.current {
                None => final(self)@.nodes == old(self)@.nodes && final(self)@.edges == old(
                    self,
                )@.edges,
                Some(from) => {
                    let n1 = insert_def(old(self)@.nodes, from);
                    &&& final(self)@.nodes == insert_def(n1, to@)
                    &&& final(self)@.edges == old(self)@.edges.push(
                        (def_node(old(self)@.nodes, from), def_node(n1, to@)),
                    )
                },
            },
    {
        match &self.current {
            Some(from) => {
                let from = from.duplicate();
                let from_idx = self.insert(from);
                let to_idx = self.insert(to);
                def_graph_add_edge(&mut self.graph, from_idx, to_idx);
            },
            None => {},
        }
    }

    /// Identifies points of recursion in the graph of definitions: returns,
    /// for each node, whether its definition is recursive, that is, whether
    /// its strongly connected component holds more than one definition or a
    /// definition that refers to itself.
    pub fn identify_recursion(&self) -> (r: Vec<bool>)
        requires
            self.wf(),
        ensures
            r@.len() == self@.nodes.len(),
            forall|v: int| 0 <= v < r@.len() ==> #[trigger] r@[v] == on_cycle(self@.edges, v as usize),
    {
        let sccs = def_graph_sccs(&self.graph);
        let ghost comps = sccs@.map_values(|c: Vec<usize>| c@);
        let ghost n = self@.nodes.len();
        let ghost edges = self@.edges;
        let mut flags: Vec<bool> = Vec::new();
        let mut k: usize = 0;
        while k < self.count
            invariant
                k <= self.count,
                self.count == n,
                flags@.len() == k,
                forall|v: int| 0 <= v < k ==> !#[trigger] flags@[v],
            decreases self.count - k,
        {
            flags.push(false);
            k = k + 1;
        }
        let mut c: usize = 0;
        while c < sccs.len()
            invariant
                self.wf(),
                n == self@.nodes.len(),
                edges == self@.edges,
                comps == sccs@.map_values(|c: Vec<usize>| c@),
                components_of(n, edges, comps),
                c <= sccs.len(),
                flags@.len() == n,
                forall|v: int|
                    0 <= v < n ==> #[trigger] flags@[v] == (component_done(comps, c as int, v as usize)
                        && on_cycle(edges, v as usize)),
            decreases sccs.len() - c,
        {
            let component = &sccs[c];
            let trivial = if component.len() == 1 {
                assert(sccs@[c as int]@ == comps[c as int]);
                assert(comps[c as int][0] < n);
                def_graph_find_edge(&self.graph, component[0], component[0]).is_none()
            } else {
                false
            };
            proof {
                lemma_component_flag(n, edges, comps, c as int, trivial);
            }
            let mut i: usize = 0;
            while i < component.len()
                invariant
                    self.wf(),
                    n == self@.nodes.len(),
                    edges == self@.edges,
                    comps == sccs@.map_values(|c: Vec<usize>| c@),
                    components_of(n, edges, comps),
                    c < sccs.len(),
                    component@ == comps[c as int],
                    i <= component.len(),
                    flags@.len() == n,
                    forall|j: int| 0 <= j < comps[c as int].len() ==> (#[trigger] on_cycle(edges, comps[c as int][j]) == !trivial),
                    forall|v: int|
                        0 <= v < n ==> #[trigger] flags@[v] == ((component_done(comps, c as int, v as usize)
                            || in_prefix(comps[c as int], i as int, v as usize)) && on_cycle(edges, v as usize)),
                decreases component.len() - i,
            {
                let index = component[i];
                proof {
                    assert(comps[c as int][i as int] == index);
                }
                flags.set(index, !trivial);
                proof {
                    assert forall|v: int| 0 <= v < n implies #[trigger] flags@[v] == ((component_done(comps, c as int, v as usize)
                            || in_prefix(comps[c as int], i + 1, v as usize)) && on_cycle(edges, v as usize)) by {
                        if v == index {
                            assert(in_prefix(comps[c as int], i + 1, v as usize));
                        } else {
                            assert(in_prefix(comps[c as int], i + 1, v as usize) == in_prefix(comps[c as int], i as int, v as usize));
                        }
                    }
                }
                i = i + 1;
            }
            proof {
                assert forall|v: int| 0 <= v < n implies #[trigger] flags@[v] == (component_done(comps, c + 1, v as usize)
                    && on_cycle(edges, v as usize)) by {
                    lemma_component_done_step(n, edges, comps, c as int, v as usize);
                }
            }
            c = c + 1;
        }
        proof {
            assert forall|v: int| 0 <= v < flags@.len() implies #[trigger] flags@[v] == on_cycle(edges, v as usize) by {
                lemma_component_done_all(n, edges, comps, v as usize);
            }
        }
        flags
    }
}

/// `v` lies among the first `i` nodes of the component.
pub open spec fn in_prefix(comp: Seq<usize>, i: int, v: usize) -> bool {
    exists|j: int| 0 <= j < i && j < comp.len() && #[trigger] comp[j] == v
}

/// `v` lies in one of the first `c` components.
pub open spec fn component_done(comps: Seq<Seq<usize>>, c: int, v: usize) -> bool {
    exists|d: int, j: int| 0 <= d < c && 0 <= j < comps[d].len() && #[trigger] comps[d][j] == v
}

proof fn lemma_component_done_step(
    n: nat,
    edges: Seq<(usize, usize)>,
    comps: Seq<Seq<usize>>,
    c: int,
    v: usize,
)
    requires
        0 <= c < comps.len(),
    ensures
        component_done(comps, c + 1, v) == (component_done(comps, c, v) || in_prefix(
            comps[c],
            comps[c].len() as int,
            v,
        )),
{
    if component_done(comps, c + 1, v) {
        let (d, j) = choose|d: int, j: int|
            0 <= d < c + 1 && 0 <= j < comps[d].len() && #[trigger] comps[d][j] == v;
        if d == c {
            assert(in_prefix(comps[c], comps[c].len() as int, v));
        } else {
            assert(component_done(comps, c, v));
        }
    }
    if component_done(comps, c, v) {
        let (d, j) = choose|d: int, j: int|
            0 <= d < c && 0 <= j < comps[d].len() && #[trigger] comps[d][j] == v;
        assert(component_done(comps, c + 1, v));
    }
    if in_prefix(comps[c], comps[c].len() as int, v) {
        let j = choose|j: int| 0 <= j < comps[c].len() && j < comps[c].len() && #[trigger] comps[c][j] == v;
        assert(comps[c][j] == v);
        assert(component_done(comps, c + 1, v));
    }
}

proof fn lemma_component_done_all(
    n: nat,
    edges: Seq<(usize, usize)>,
    comps: Seq<Seq<usize>>,
    v: usize,
)
    requires
        components_of(n, edges, comps),
        v < n,
    ensures
        component_done(comps, comps.len() as int, v),
{
    assert(in_components(comps, v));
    let (c, i) = choose|c: int, i: int|
        0 <= c < comps.len() && 0 <= i < comps[c].len() && #[trigger] comps[c][i] == v;
    assert(comps[c][i] == v);
}

/// The paths `p` then `q`, where `q` starts where `p` ends, make a path.
proof fn lemma_path_concat(edges: Seq<(usize, usize)>, p: Seq<usize>, q: Seq<usize>)
    requires
        p.len() >= 1,
        q.len() >= 1,
        is_path(edges, p),
        is_path(edges, q),
        p[p.len() - 1] == q[0],
    ensures
        is_path(edges, p + q.drop_first()),
{
    let r = p + q.drop_first();
    assert forall|i: int| 0 <= i < r.len() - 1 implies #[trigger] has_edge(edges, r[i], r[i + 1]) by {
        if i < p.len() - 1 {
            assert(r[i] == p[i] && r[i + 1] == p[i + 1]);
            assert(has_edge(edges, p[i], p[i + 1]));
        } else {
            let k = i - (p.len() - 1);
            assert(r[i] == q[k]);
            assert(r[i + 1] == q[k + 1]);
            assert(has_edge(edges, q[k], q[k + 1]));
        }
    }
}

/// The part of a path between two of its positions is a path.
proof fn lemma_subpath(edges: Seq<(usize, usize)>, p: Seq<usize>, a: int, b: int)
    requires
        is_path(edges, p),
        0 <= a < b <= p.len(),
    ensures
        is_path(edges, p.subrange(a, b)),
{
    let s = p.subrange(a, b);
    assert forall|i: int| 0 <= i < s.len() - 1 implies #[trigger] has_edge(edges, s[i], s[i + 1]) by {
        assert(s[i] == p[a + i] && s[i + 1] == p[a + i + 1]);
        assert(has_edge(edges, p[a + i], p[a + i + 1]));
    }
}

/// A node lies on a cycle exactly when its component is not trivial: it holds
/// another node, or the node has an edge to itself.
proof fn lemma_component_flag(
    n: nat,
    edges: Seq<(usize, usize)>,
    comps: Seq<Seq<usize>>,
    c: int,
    trivial: bool,
)
    requires
        components_of(n, edges, comps),
        edges_within(n, edges),
        0 <= c < comps.len(),
        trivial == (comps[c].len() == 1 && !has_edge(edges, comps[c][0], comps[c][0])),
    ensures
        forall|j: int| 0 <= j < comps[c].len() ==> (#[trigger] on_cycle(edges, comps[c][j]) == !trivial),
{
    assert forall|j: int| 0 <= j < comps[c].len() implies (#[trigger] on_cycle(edges, comps[c][j]) == !trivial) by {
        let v = comps[c][j];
        if trivial {
            if on_cycle(edges, v) {
                let p = choose|p: Seq<usize>|
                    p.len() >= 2 && p[0] == v && p[p.len() - 1] == v && #[trigger] is_path(edges, p);
                assert(j == 0);
                // The first step of the cycle leaves `v` for some node `u`.
                let z: int = 0;
                assert(has_edge(edges, p[z], p[z + 1]));
                let u = p[1];
                if u == v {
                    assert(has_edge(edges, comps[c][0], comps[c][0]));
                } else {
                    // `v` reaches `u`, and `u` reaches back to `v`.
                    lemma_subpath(edges, p, 0, 2);
                    assert(p.subrange(0, 2)[1] == u);
                    assert(reaches(edges, v, u));
                    lemma_subpath(edges, p, 1, p.len() as int);
                    assert(p.subrange(1, p.len() as int)[0] == u);
                    assert(reaches(edges, u, v));
                    assert(u < n) by {
                        let e = choose|e: int| 0 <= e < edges.len() && edges[e] == (p[0], p[1]);
                        assert(edges[e].1 < n);
                    }
                    assert(in_components(comps, u));
                    let (c2, i2) = choose|c2: int, i2: int|
                        0 <= c2 < comps.len() && 0 <= i2 < comps[c2].len() && #[trigger] comps[c2][i2] == u;
                    if c2 == c {
                        assert(i2 == 0);
                        assert(false);
                    } else {
                        assert(!(reaches(edges, comps[c][j], comps[c2][i2]) && reaches(edges, comps[c2][i2], comps[c][j])));
                    }
                }
            }
        } else {
            if comps[c].len() == 1 {
                assert(has_edge(edges, v, v));
                let p = seq![v, v];
                assert(is_path(edges, p)) by {
                    assert forall|i: int| 0 <= i < p.len() - 1 implies #[trigger] has_edge(edges, p[i], p[i + 1]) by {
                        assert(i == 0);
                    }
                }
                assert(on_cycle(edges, v));
            } else {
                let k = if j == 0 { 1int } else { 0int };
                let u = comps[c][k];
                assert(u != v) by {
                    if u == v {
                        assert(comps[c][k] == comps[c][j]);
                    }
                }
                assert(reaches(edges, comps[c][j], comps[c][k]));
                assert(reaches(edges, comps[c][k], comps[c][j]));
                let p = choose|p: Seq<usize>|
                    p.len() >= 1 && p[0] == v && p[p.len() - 1] == u && #[trigger] is_path(edges, p);
                let q = choose|q: Seq<usize>|
                    q.len() >= 1 && q[0] == u && q[q.len() - 1] == v && #[trigger] is_path(edges, q);
                lemma_path_concat(edges, p, q);
                let r = p + q.drop_first();
                assert(p.len() >= 2) by {
                    if p.len() == 1 {
                        assert(p[0] == p[p.len() - 1]);
                    }
                }
                assert(r[0] == v);
                if q.len() == 1 {
                    assert(q[0] == q[q.len() - 1]);
                    assert(false);
                }
                assert(r[r.len() - 1] == q[q.len() - 1]);
                assert(on_cycle(edges, v));
            }
        }
    }
}

} // verus!
