use crate::errors::{Error, Kind};
use crate::locator::{Locator, Span};
use petgraph::graph::NodeIndex;
use petgraph::{Directed, Graph};
use vstd::prelude::*;

verus! {

/// The graph type of `petgraph`, opaque to Verus: its contents are known
/// through the names and wrappers below.
#[verifier::external_type_specification]
#[verifier::external_body]
#[verifier::reject_recursive_types(N)]
#[verifier::reject_recursive_types(E)]
#[verifier::reject_recursive_types(Ty)]
#[verifier::reject_recursive_types(Ix)]
pub struct ExGraph<N, E, Ty, Ix>(Graph<N, E, Ty, Ix>);

/// The marker type of directed `petgraph` graphs.
#[verifier::external_type_specification]
#[verifier::external_body]
pub struct ExDirected(Directed);

/// The locators held by the nodes of a graph, by node index.
pub uninterp spec fn graph_nodes(g: Graph<Locator, ()>) -> Seq<Seq<char>>;

/// The edges of a graph, as pairs of node indices, in insertion order.
pub uninterp spec fn graph_edges(g: Graph<Locator, ()>) -> Seq<(usize, usize)>;

/// The result of `petgraph::algo::toposort` on a graph of `n` nodes with the
/// given edges: the node indices in topological order, or a node on a cycle.
pub uninterp spec fn toposort_result(n: nat, edges: Seq<(usize, usize)>) -> Result<
    Seq<usize>,
    usize,
>;

/// The graph holds an edge from `a` to `b`.
pub open spec fn has_edge(edges: Seq<(usize, usize)>, a: usize, b: usize) -> bool {
    exists|k: int| 0 <= k < edges.len() && edges[k] == (a, b)
}

/// `order` lists each of the `n` nodes once, each before its successors.
pub open spec fn topological(n: nat, edges: Seq<(usize, usize)>, order: Seq<usize>) -> bool {
    &&& order.len() == n
    &&& order.no_duplicates()
    &&& forall|v: usize| v < n ==> #[trigger] order.contains(v)
    &&& forall|i: int| 0 <= i < order.len() ==> #[trigger] order[i] < n
    &&& forall|k: int, i: int, j: int|
        #![trigger edges[k], order[i], order[j]]
        0 <= k < edges.len() && 0 <= i < order.len() && 0 <= j < order.len() && order[i]
            == edges[k].0 && order[j] == edges[k].1 ==> i < j
}

/// Every edge joins two of the `n` nodes.
pub open spec fn edges_within(n: nat, edges: Seq<(usize, usize)>) -> bool {
    forall|k: int| 0 <= k < edges.len() ==> (#[trigger] edges[k]).0 < n && edges[k].1 < n
}

/// `p` is a path along the edges.
pub open spec fn is_path(edges: Seq<(usize, usize)>, p: Seq<usize>) -> bool {
    forall|i: int| 0 <= i < p.len() - 1 ==> #[trigger] has_edge(edges, p[i], p[i + 1])
}

/// The node `c` lies on a cycle: a path of at least one edge leads from `c` back to `c`.
pub open spec fn on_cycle(edges: Seq<(usize, usize)>, c: usize) -> bool {
    exists|p: Seq<usize>|
        p.len() >= 2 && p[0] == c && p[p.len() - 1] == c && #[trigger] is_path(edges, p)
}

/// `Graph::new`: an empty directed graph.
#[verifier::external_body]
fn graph_new() -> (r: Graph<Locator, ()>)
    ensures
        graph_nodes(r) == Seq::<Seq<char>>::empty(),
        graph_edges(r) == Seq::<(usize, usize)>::empty(),
{
    Graph::new()
}

/// `Graph::add_node`: appends a node holding `loc` and returns its index.
#[verifier::external_body]
fn graph_add_node(g: &mut Graph<Locator, ()>, loc: Locator) -> (r: usize)
    requires
        graph_nodes(*old(g)).len() < u32::MAX,
    ensures
        r == graph_nodes(*old(g)).len(),
        graph_nodes(*final(g)) == graph_nodes(*old(g)).push(loc@),
        graph_edges(*final(g)) == graph_edges(*old(g)),
{
    g.add_node(loc).index()
}

/// `Graph::add_edge`: appends an edge from `a` to `b`.
#[verifier::external_body]
fn graph_add_edge(g: &mut Graph<Locator, ()>, a: usize, b: usize)
    requires
        a < graph_nodes(*old(g)).len(),
        b < graph_nodes(*old(g)).len(),
        graph_edges(*old(g)).len() < u32::MAX,
    ensures
        graph_nodes(*final(g)) == graph_nodes(*old(g)),
        graph_edges(*final(g)) == graph_edges(*old(g)).push((a, b)),
{
    g.add_edge(NodeIndex::new(a), NodeIndex::new(b), ());
}

/// `Graph::edge_count`: the number of edges of the graph.
#[verifier::external_body]
fn graph_edge_count(g: &Graph<Locator, ()>) -> (r: usize)
    ensures
        r == graph_edges(*g).len(),
{
    g.edge_count()
}

/// `Graph::node_weight`: the locator of a node, if the index is in bounds.
#[verifier::external_body]
fn graph_node_weight(g: &Graph<Locator, ()>, a: usize) -> (r: Option<&Locator>)
    requires
        a < u32::MAX,
    ensures
        r is Some <==> a < graph_nodes(*g).len(),
        r matches Some(l) ==> l@ == graph_nodes(*g)[a as int],
{
    g.node_weight(NodeIndex::new(a))
}

/// `petgraph::algo::toposort`: the result is named by `toposort_result`; the
/// contract claims that an `Ok` lists each node once, each before its
/// successors, and that an `Err` holds a node that lies on a cycle (a self
/// loop is a cycle). Which order, and which node of a cycle, is left unsaid.
#[verifier::external_body]
fn graph_toposort(g: &Graph<Locator, ()>) -> (r: Result<Vec<usize>, usize>)
    ensures
        toposort_result(graph_nodes(*g).len(), graph_edges(*g)) == match r {
            Ok(o) => Ok(o@),
            Err(c) => Err::<Seq<usize>, usize>(c),
        },
        r matches Ok(o) ==> topological(graph_nodes(*g).len(), graph_edges(*g), o@),
        r matches Err(c) ==> c < graph_nodes(*g).len() && on_cycle(graph_edges(*g), c),
{
    match petgraph::algo::toposort(g, None) {
        Ok(order) => Ok(order.into_iter().map(|n| n.index()).collect()),
        Err(cycle) => Err(cycle.node_id().index()),
    }
}

/// No node on a cycle can be sorted: a topological order rules out cycles.
pub proof fn lemma_topological_acyclic(
    n: nat,
    edges: Seq<(usize, usize)>,
    order: Seq<usize>,
    c: usize,
)
    requires
        topological(n, edges, order),
        edges_within(n, edges),
        c < n,
    ensures
        !on_cycle(edges, c),
{
    if on_cycle(edges, c) {
        let p = choose|p: Seq<usize>|
            p.len() >= 2 && p[0] == c && p[p.len() - 1] == c && #[trigger] is_path(edges, p);
        assert(order.contains(c));
        let i0 = choose|i: int| 0 <= i < order.len() && order[i] == c;
        let last = (p.len() - 1) as int;
        lemma_path_positions(n, edges, order, p, i0, last);
        assert(order[i0] == p[last]);
        assert(false);
    }
}

/// Along a path from the node at position `i0`, every later node sits after `i0`.
proof fn lemma_path_positions(
    n: nat,
    edges: Seq<(usize, usize)>,
    order: Seq<usize>,
    p: Seq<usize>,
    i0: int,
    k: int,
)
    requires
        topological(n, edges, order),
        edges_within(n, edges),
        is_path(edges, p),
        0 <= i0 < order.len(),
        order[i0] == p[0],
        1 <= k < p.len(),
    ensures
        forall|j: int| 0 <= j < order.len() && #[trigger] order[j] == p[k] ==> j > i0,
    decreases k,
{
    let h = k - 1;
    assert(has_edge(edges, p[h], p[h + 1]));
    let e = choose|e: int| 0 <= e < edges.len() && edges[e] == (p[k - 1], p[k]);
    if k == 1 {
        assert forall|j: int| 0 <= j < order.len() && order[j] == p[k] implies j > i0 by {
            assert(order[i0] == edges[e].0 && order[j] == edges[e].1);
        }
    } else {
        lemma_path_positions(n, edges, order, p, i0, k - 1);
        assert(edges[e].0 < n);
        assert(order.contains(p[k - 1]));
        let jm = choose|j: int| 0 <= j < order.len() && order[j] == p[k - 1];
        assert forall|j: int| 0 <= j < order.len() && order[j] == p[k] implies j > i0 by {
            assert(order[jm] == edges[e].0 && order[j] == edges[e].1);
        }
    }
}


/// The graph of module dependencies, as mathematical values.
pub struct ModuleGraphV {
    /// The locators of the modules, by node index.
    pub nodes: Seq<Seq<char>>,
    /// The edges, from an imported module to the module that imports it.
    pub edges: Seq<(usize, usize)>,
    /// The modules whose imports are still to be read, the last one first.
    pub pending: Seq<usize>,
}

/// The index of the first node from `i` on whose locator is `loc`, or -1.
pub open spec fn node_index(nodes: Seq<Seq<char>>, loc: Seq<char>, i: int) -> int
    decreases nodes.len() - i,
{
    if i < 0 || i >= nodes.len() {
        -1
    } else if nodes[i] == loc {
        i
    } else {
        node_index(nodes, loc, i + 1)
    }
}

/// Records that module `n` imports the module at `loc`: a known module gets an
/// edge to `n`; a new module becomes a node with an edge to `n`, pending.
pub open spec fn import_step(s: ModuleGraphV, n: usize, loc: Seq<char>) -> ModuleGraphV {
    let k = node_index(s.nodes, loc, 0);
    if 0 <= k {
        ModuleGraphV { nodes: s.nodes, edges: s.edges.push((k as usize, n)), pending: s.pending }
    } else {
        let m = s.nodes.len() as usize;
        ModuleGraphV {
            nodes: s.nodes.push(loc),
            edges: s.edges.push((m, n)),
            pending: s.pending.push(m),
        }
    }
}

/// An import read from a module: the locator it resolves to, whether a
/// module can be found there, and where it stands.
pub struct Import {
    pub loc: Locator,
    pub valid: bool,
    pub span: Option<Span>,
}

/// The locators of the imports with their validity.
pub open spec fn imports_view(imports: Seq<Import>) -> Seq<(Seq<char>, bool)> {
    imports.map_values(|i: Import| (i.loc@, i.valid))
}

/// Records the imports of module `n` in order, or gives the position of the
/// first import that is new and not a valid module.
pub open spec fn imports_result(s: ModuleGraphV, n: usize, imps: Seq<(Seq<char>, bool)>) -> Result<
    ModuleGraphV,
    int,
>
    decreases imps.len(),
{
    if imps.len() == 0 {
        Ok(s)
    } else {
        match imports_result(s, n, imps.drop_last()) {
            Err(k) => Err(k),
            Ok(t) => {
                let (l, valid) = imps.last();
                if node_index(t.nodes, l, 0) < 0 && !valid {
                    Err(imps.len() - 1)
                } else {
                    Ok(import_step(t, n, l))
                }
            },
        }
    }
}

/// Once an import fails, the imports after it do not change the result.
proof fn lemma_imports_result_prefix(s: ModuleGraphV, n: usize, imps: Seq<(Seq<char>, bool)>, i: int)
    requires
        0 <= i < imps.len(),
        imports_result(s, n, imps.take(i + 1)) == Err::<ModuleGraphV, int>(i),
    ensures
        imports_result(s, n, imps) == Err::<ModuleGraphV, int>(i),
    decreases imps.len(),
{
    if imps.len() > i + 1 {
        assert(imps.drop_last().take(i + 1) =~= imps.take(i + 1));
        lemma_imports_result_prefix(s, n, imps.drop_last(), i);
    } else {
        assert(imps.take(i + 1) =~= imps);
    }
}

proof fn lemma_node_index(nodes: Seq<Seq<char>>, loc: Seq<char>, i: int)
    requires
        0 <= i <= nodes.len(),
    ensures
        node_index(nodes, loc, i) == -1 || i <= node_index(nodes, loc, i) < nodes.len(),
        node_index(nodes, loc, i) != -1 ==> nodes[node_index(nodes, loc, i)] == loc,
        node_index(nodes, loc, i) == -1 ==> forall|j: int|
            i <= j < nodes.len() ==> #[trigger] nodes[j] != loc,
    decreases nodes.len() - i,
{
    if i < nodes.len() && nodes[i] != loc {
        lemma_node_index(nodes, loc, i + 1);
    }
}

/// The graph of module dependencies built while a program is loaded: each
/// module is a node, each import an edge from the imported module to the
/// importing one.
pub struct ModuleGraph {
    graph: Graph<Locator, ()>,
    count: usize,
    queue: Vec<usize>,
}

impl ModuleGraph {
    /// The graph as mathematical values.
    pub closed spec fn view(&self) -> ModuleGraphV {
        ModuleGraphV {
            nodes: graph_nodes(self.graph),
            edges: graph_edges(self.graph),
            pending: self.queue@,
        }
    }

    /// No module is a node twice, edges and pending modules are nodes.
    pub open spec fn wf(&self) -> bool {
        &&& self@.nodes.no_duplicates()
        &&& self@.nodes.len() <= u32::MAX
        &&& edges_within(self@.nodes.len(), self@.edges)
        &&& forall|i: int| 0 <= i < self@.pending.len() ==> #[trigger] self@.pending[i] < self@.nodes.len()
        &&& self.inner_wf()
    }

    pub closed spec fn inner_wf(&self) -> bool {
        self.count == graph_nodes(self.graph).len()
    }

    /// Creates the graph of a program whose main module is at `base`: one
    /// node, pending.
    pub fn new(base: Locator) -> (r: ModuleGraph)
        ensures
            r.wf(),
            r@.nodes == seq![base@],
            r@.edges == Seq::<(usize, usize)>::empty(),
            r@.pending == seq![0usize],
    {
        let mut graph = graph_new();
        let root = graph_add_node(&mut graph, base);
        let mut queue: Vec<usize> = Vec::new();
        queue.push(root);
        let r = ModuleGraph { graph, count: 1, queue };
        assert(r@.nodes =~= seq![base@]);
        r
    }

    /// The number of modules.
    pub fn len(&self) -> (r: usize)
        requires
            self.wf(),
        ensures
            r == self@.nodes.len(),
    {
        self.count
    }

    /// The number of imports recorded so far.
    pub fn edge_count(&self) -> (r: usize)
        requires
            self.wf(),
        ensures
            r == self@.edges.len(),
    {
        graph_edge_count(&self.graph)
    }

    /// Takes the next module whose imports are to be read.
    pub fn next_pending(&mut self) -> (r: Option<usize>)
        requires
            old(self).wf(),
        ensures
            final(self).wf(),
            final(self)@.nodes == old(self)@.nodes,
            final(self)@.edges == old(self)@.edges,
            r is None ==> old(self)@.pending.len() == 0 && final(self)@.pending == old(self)@.pending,
            r matches Some(n) ==> old(self)@.pending.len() > 0 && n == old(self)@.pending.last()
                && final(self)@.pending == old(self)@.pending.drop_last(),
            r matches Some(n) ==> n < final(self)@.nodes.len(),
    {
        self.queue.pop()
    }

    /// The locator of module `n`.
    pub fn locator(&self, n: usize) -> (r: &Locator)
        requires
            self.wf(),
            n < self@.nodes.len(),
        ensures
            r@ == self@.nodes[n as int],
    {
        graph_node_weight(&self.graph, n).unwrap()
    }

    /// Returns the node of the module at `loc`, if known.
    pub fn find(&self, loc: &Locator) -> (r: Option<usize>)
        requires
            self.wf(),
        ensures
            match r {
                Some(k) => node_index(self@.nodes, loc@, 0) == k,
                None => node_index(self@.nodes, loc@, 0) == -1,
            },
    {
        let mut k: usize = 0;
        while k < self.count
            invariant
                self.wf(),
                k <= self.count,
                node_index(self@.nodes, loc@, 0) == node_index(self@.nodes, loc@, k as int),
            decreases self.count - k,
        {
            if graph_node_weight(&self.graph, k).unwrap().same(loc) {
                return Some(k);
            }
            k = k + 1;
        }
        None
    }

    /// Records the imports of module `n`, in order, and returns the new modules
    /// among them, which are now pending and are to be loaded; or the error of
    /// the first new import that is not a valid module.
    pub fn add_imports(&mut self, n: usize, imports: Vec<Import>) -> (r: Result<Vec<usize>, Error>)
        requires
            old(self).wf(),
            n < old(self)@.nodes.len(),
            old(self)@.nodes.len() + imports.len() < u32::MAX,
            old(self)@.edges.len() + imports.len() < u32::MAX,
        ensures
            final(self).wf(),
            match r {
                Ok(added) => {
                    &&& imports_result(old(self)@, n, imports_view(imports@)) == Ok::<
                        ModuleGraphV,
                        int,
                    >(final(self)@)
                    &&& added@ == Seq::new(
                        (final(self)@.nodes.len() - old(self)@.nodes.len()) as nat,
                        |j: int| (old(self)@.nodes.len() + j) as usize,
                    )
                },
                Err(e) => {
                    let k = imports_result(old(self)@, n, imports_view(imports@))->Err_0;
                    &&& imports_result(old(self)@, n, imports_view(imports@)) is Err
                    &&& 0 <= k < imports@.len()
                    &&& e.kind == Kind::InvalidModule(imports@[k].loc)
                    &&& e.msg@.len() == 0
                    &&& e.details@.len() == 0
                    &&& e.span == imports@[k].span
                },
            },
    {
        let ghost imps = imports_view(imports@);
        let ghost all = imports@;
        let ghost start = self@;
        let len = imports.len();
        let mut rest = imports;
        let mut added: Vec<usize> = Vec::new();
        let mut i: usize = 0;
        while i < len
            invariant
                self.wf(),
                i <= len,
                len == all.len(),
                all == imports@,
                start == old(self)@,
                n < start.nodes.len(),
                start.nodes.len() + len < u32::MAX,
                start.edges.len() + len < u32::MAX,
                imps == imports_view(all),
                rest@ == all.subrange(i as int, len as int),
                imports_result(start, n, imps.take(i as int)) == Ok::<ModuleGraphV, int>(self@),
                start.nodes.len() <= self@.nodes.len() <= start.nodes.len() + i,
                self@.edges.len() == start.edges.len() + i,
                added@ == Seq::new(
                    (self@.nodes.len() - start.nodes.len()) as nat,
                    |j: int| (start.nodes.len() + j) as usize,
                ),
            decreases len - i,
        {
            let ghost before = self@;
            let imp = rest.remove(0);
            proof {
                assert(imp == all[i as int]);
                assert(rest@ =~= all.subrange(i + 1, len as int));
                assert(imps.take(i + 1).drop_last() =~= imps.take(i as int));
                assert(imps.take(i + 1).last() == (imp.loc@, imp.valid));
                lemma_node_index(before.nodes, imp.loc@, 0);
            }
            match self.find(&imp.loc) {
                Some(k) => {
                    graph_add_edge(&mut self.graph, k, n);
                    assert(self@ == import_step(before, n, imp.loc@));
                },
                None => {
                    if !imp.valid {
                        let ghost g = imp;
                        proof {
                            assert(imports_result(start, n, imps.take(i + 1)) == Err::<
                                ModuleGraphV,
                                int,
                            >(i as int));
                            lemma_imports_result_prefix(start, n, imps, i as int);
                        }
                        let e = Error::new(Kind::InvalidModule(imp.loc), "").at(imp.span);
                        assert(e.kind == Kind::InvalidModule(all[i as int].loc));
                        assert(e.span == all[i as int].span);
                        proof {
                            reveal_strlit("");
                        }
                        assert(e.msg@.len() == 0);
                        return Err(e);
                    }
                    let ghost lv = imp.loc@;
                    let m = graph_add_node(&mut self.graph, imp.loc);
                    self.count = self.count + 1;
                    graph_add_edge(&mut self.graph, m, n);
                    self.queue.push(m);
                    added.push(m);
                    assert(self@.nodes =~= before.nodes.push(lv));
                    assert(self@ == import_step(before, n, lv));
                    assert(added@ =~= Seq::new(
                        (self@.nodes.len() - start.nodes.len()) as nat,
                        |j: int| (start.nodes.len() + j) as usize,
                    ));
                },
            }
            i = i + 1;
        }
        proof {
            assert(imps.take(len as int) =~= imps);
        }
        Ok(added)
    }

    /// Returns the modules in an order in which each is compiled after the
    /// modules it imports, or an error at a module that takes part in a cycle
    /// of imports.
    pub fn compile_order(&self) -> (r: Result<Vec<usize>, Error>)
        requires
            self.wf(),
        ensures
            r is Ok <==> forall|c: usize| c < self@.nodes.len() ==> !on_cycle(self@.edges, c),
            match r {
                Ok(o) => toposort_result(self@.nodes.len(), self@.edges) == Ok::<Seq<usize>, usize>(
                    o@,
                ) && topological(self@.nodes.len(), self@.edges, o@),
                Err(e) => exists|c: usize|
                    {
                        &&& toposort_result(self@.nodes.len(), self@.edges) == Err::<
                            Seq<usize>,
                            usize,
                        >(c)
                        &&& c < self@.nodes.len()
                        &&& on_cycle(self@.edges, c)
                        &&& e.kind is CycleDetected
                        &&& e.msg@ == "cycle in module dependencies"@
                        &&& e.details@.len() == 0
                        &&& e.span is Some
                        &&& e.span->0.loc@ == self@.nodes[c as int]
                        &&& e.span->0.start == 0
                        &&& e.span->0.end == 0
                    },
            },
    {
        match graph_toposort(&self.graph) {
            Ok(order) => {
                proof {
                    assert forall|c: usize| c < self@.nodes.len() implies !on_cycle(
                        self@.edges,
                        c,
                    ) by {
                        lemma_topological_acyclic(self@.nodes.len(), self@.edges, order@, c);
                    }
                }
                Ok(order)
            },
            Err(c) => {
                let loc = graph_node_weight(&self.graph, c).unwrap().duplicate();
                let e = Error::new(Kind::CycleDetected, "cycle in module dependencies").at(
                    Some(Span::new(loc, 0, 0)),
                );
                Err(e)
            },
        }
    }
}

/// The imports of a module, all valid.
pub open spec fn all_valid(ls: Seq<Seq<char>>) -> Seq<(Seq<char>, bool)> {
    ls.map_values(|l: Seq<char>| (l, true))
}

/// One round of the loading loop, where every import is valid and
/// `imports` gives the locators that each module imports: the last pending
/// module is taken, and its imports are recorded.
pub open spec fn load_round(
    s: ModuleGraphV,
    imports: spec_fn(Seq<char>) -> Seq<Seq<char>>,
) -> ModuleGraphV {
    if s.pending.len() == 0 {
        s
    } else {
        let n = s.pending.last();
        let t = ModuleGraphV { nodes: s.nodes, edges: s.edges, pending: s.pending.drop_last() };
        imports_result(t, n, all_valid(imports(s.nodes[n as int])))->Ok_0
    }
}

/// The module at `l` is reached from the module at `base` by following
/// imports.
pub open spec fn reaches(
    imports: spec_fn(Seq<char>) -> Seq<Seq<char>>,
    base: Seq<char>,
    l: Seq<char>,
) -> bool {
    exists|p: Seq<Seq<char>>|
        #![trigger p.last()]
        p.len() >= 1 && p[0] == base && p.last() == l && forall|i: int|
            0 <= i < p.len() - 1 ==> imports(p[i]).contains(#[trigger] p[i + 1])
}

/// The imports of module `n` are recorded: each is a node with an edge to `n`.
pub open spec fn recorded(
    s: ModuleGraphV,
    imports: spec_fn(Seq<char>) -> Seq<Seq<char>>,
    n: int,
) -> bool {
    forall|i: int|
        #![trigger imports(s.nodes[n])[i]]
        0 <= i < imports(s.nodes[n]).len() ==> exists|k: int|
            0 <= k < s.nodes.len() && #[trigger] s.nodes[k] == imports(s.nodes[n])[i] && has_edge(
                s.edges,
                k as usize,
                n as usize,
            )
}

/// What holds of the graph all along the loading of the program at `base`:
/// the main module is the first node, no module is a node twice, every node is
/// reached from the main module, and every node is pending, once, or has its
/// imports recorded.
pub open spec fn loading(
    s: ModuleGraphV,
    imports: spec_fn(Seq<char>) -> Seq<Seq<char>>,
    base: Seq<char>,
) -> bool {
    &&& s.nodes.len() > 0
    &&& s.nodes[0] == base
    &&& s.nodes.no_duplicates()
    &&& s.pending.no_duplicates()
    &&& forall|i: int| 0 <= i < s.pending.len() ==> #[trigger] s.pending[i] < s.nodes.len()
    &&& forall|n: int|
        0 <= n < s.nodes.len() ==> s.pending.contains(n as usize) || #[trigger] recorded(
            s,
            imports,
            n,
        )
    &&& forall|n: int| 0 <= n < s.nodes.len() ==> reaches(imports, base, #[trigger] s.nodes[n])
}

proof fn lemma_has_edge_grows(e1: Seq<(usize, usize)>, e2: Seq<(usize, usize)>, a: usize, b: usize)
    requires
        has_edge(e1, a, b),
        e1.len() <= e2.len(),
        forall|k: int| 0 <= k < e1.len() ==> #[trigger] e2[k] == e1[k],
    ensures
        has_edge(e2, a, b),
{
    let k = choose|k: int| 0 <= k < e1.len() && e1[k] == (a, b);
    assert(e2[k] == (a, b));
}

/// Recording imports that are all valid: the nodes, edges and pending
/// modules grow at their ends, each new node is one of the imports, and
/// every import is a node with an edge to `n`.
#[verifier::spinoff_prover]
#[verifier::rlimit(40)]
proof fn lemma_record_imports(t: ModuleGraphV, n: usize, ls: Seq<Seq<char>>)
    requires
        t.nodes.no_duplicates(),
        t.nodes.len() + ls.len() < u32::MAX,
    ensures
        imports_result(t, n, all_valid(ls)) is Ok,
        ({
            let r = imports_result(t, n, all_valid(ls))->Ok_0;
            &&& t.nodes.len() <= r.nodes.len() <= t.nodes.len() + ls.len()
            &&& forall|k: int| 0 <= k < t.nodes.len() ==> #[trigger] r.nodes[k] == t.nodes[k]
            &&& r.nodes.no_duplicates()
            &&& t.edges.len() <= r.edges.len()
            &&& forall|k: int| 0 <= k < t.edges.len() ==> #[trigger] r.edges[k] == t.edges[k]
            &&& r.pending == t.pending + Seq::new(
                (r.nodes.len() - t.nodes.len()) as nat,
                |j: int| (t.nodes.len() + j) as usize,
            )
            &&& forall|k: int| t.nodes.len() <= k < r.nodes.len() ==> ls.contains(#[trigger] r.nodes[k])
            &&& forall|i: int|
                #![trigger ls[i]]
                0 <= i < ls.len() ==> exists|k: int|
                    0 <= k < r.nodes.len() && #[trigger] r.nodes[k] == ls[i] && has_edge(
                        r.edges,
                        k as usize,
                        n,
                    )
        }),
    decreases ls.len(),
{
    if ls.len() == 0 {
        assert(all_valid(ls) =~= Seq::empty());
        let r = imports_result(t, n, all_valid(ls))->Ok_0;
        assert(r.pending =~= t.pending + Seq::new(0, |j: int| (t.nodes.len() + j) as usize));
    } else {
        let front = ls.drop_last();
        let l = ls.last();
        assert(all_valid(ls).drop_last() =~= all_valid(front));
        assert(all_valid(ls).last() == (l, true));
        lemma_record_imports(t, n, front);
        let q = imports_result(t, n, all_valid(front))->Ok_0;
        let r = import_step(q, n, l);
        assert(imports_result(t, n, all_valid(ls)) == Ok::<ModuleGraphV, int>(r));
        lemma_node_index(q.nodes, l, 0);
        let k = node_index(q.nodes, l, 0);
        assert(r.edges == q.edges.push(r.edges.last()));
        assert(has_edge(r.edges, r.edges.last().0, n)) by {
            assert(r.edges[r.edges.len() - 1] == r.edges.last());
        }
        assert forall|k2: int| 0 <= k2 < q.nodes.len() implies #[trigger] r.nodes[k2] == q.nodes[k2] by {
        }
        assert forall|e: int| 0 <= e < q.edges.len() implies #[trigger] r.edges[e] == q.edges[e] by {
        }
        if 0 <= k {
            assert(r.pending =~= t.pending + Seq::new(
                (r.nodes.len() - t.nodes.len()) as nat,
                |j: int| (t.nodes.len() + j) as usize,
            ));
        } else {
            assert(r.nodes == q.nodes.push(l));
            assert(r.nodes.no_duplicates()) by {
                assert forall|a: int, b: int| 0 <= a < b < r.nodes.len() implies r.nodes[a] != r.nodes[b] by {
                    if b == q.nodes.len() {
                        assert(q.nodes[a] != l);
                    }
                }
            }
            assert(r.pending =~= t.pending + Seq::new(
                (r.nodes.len() - t.nodes.len()) as nat,
                |j: int| (t.nodes.len() + j) as usize,
            ));
            assert(ls.contains(l)) by {
                assert(ls[ls.len() - 1] == l);
            }
        }
        assert forall|k2: int| t.nodes.len() <= k2 < r.nodes.len() implies ls.contains(#[trigger] r.nodes[k2]) by {
            if k2 < q.nodes.len() {
                let w = choose|w: int| 0 <= w < front.len() && front[w] == q.nodes[k2];
                assert(ls[w] == front[w]);
            } else {
                assert(ls[ls.len() - 1] == l);
            }
        }
        assert forall|i: int| #![trigger ls[i]] 0 <= i < ls.len() implies exists|k2: int|
            0 <= k2 < r.nodes.len() && #[trigger] r.nodes[k2] == ls[i] && has_edge(
                r.edges,
                k2 as usize,
                n,
            ) by {
            if i < front.len() {
                assert(front[i] == ls[i]);
                let k2 = choose|k2: int|
                    0 <= k2 < q.nodes.len() && #[trigger] q.nodes[k2] == front[i] && has_edge(
                        q.edges,
                        k2 as usize,
                        n,
                    );
                lemma_has_edge_grows(q.edges, r.edges, k2 as usize, n);
                assert(r.nodes[k2] == ls[i]);
            } else {
                if 0 <= k {
                    assert(r.nodes[k] == ls[i]);
                    assert(r.edges.last() == (k as usize, n));
                } else {
                    assert(r.nodes[q.nodes.len() as int] == ls[i]);
                    assert(r.edges.last() == (q.nodes.len() as usize, n));
                }
            }
        }
    }
}

/// At the start of the loading, the graph holds the main module alone,
/// pending.
pub proof fn lemma_loading_start(imports: spec_fn(Seq<char>) -> Seq<Seq<char>>, base: Seq<char>)
    ensures
        loading(
            ModuleGraphV { nodes: seq![base], edges: Seq::empty(), pending: seq![0usize] },
            imports,
            base,
        ),
{
    let s = ModuleGraphV { nodes: seq![base], edges: Seq::empty(), pending: seq![0usize] };
    let p = seq![base];
    assert(p.last() == base);
    assert(reaches(imports, base, base));
    assert(s.pending.contains(0usize)) by {
        assert(s.pending[0] == 0usize);
    }
}

/// A round of the loading loop keeps what holds along the loading: the
/// module taken from the pending ones gets its imports recorded, each import
/// that is not yet a node becomes one, once, and is pending.
#[verifier::spinoff_prover]
#[verifier::rlimit(40)]
pub proof fn lemma_loading_round(
    s: ModuleGraphV,
    imports: spec_fn(Seq<char>) -> Seq<Seq<char>>,
    base: Seq<char>,
)
    requires
        loading(s, imports, base),
        s.pending.len() > 0,
        s.nodes.len() + imports(s.nodes[s.pending.last() as int]).len() < u32::MAX,
    ensures
        loading(load_round(s, imports), imports, base),
        load_round(s, imports).pending.len() + s.nodes.len() == s.pending.len() - 1
            + load_round(s, imports).nodes.len(),
{
    let n = s.pending.last();
    let t = ModuleGraphV { nodes: s.nodes, edges: s.edges, pending: s.pending.drop_last() };
    let ls = imports(s.nodes[n as int]);
    assert(s.pending[s.pending.len() - 1] == n);
    lemma_record_imports(t, n, ls);
    let r = load_round(s, imports);
    assert(r == imports_result(t, n, all_valid(ls))->Ok_0);
    let old_len = s.nodes.len();
    let fresh = Seq::new((r.nodes.len() - old_len) as nat, |j: int| (old_len + j) as usize);
    assert(r.pending == t.pending + fresh);
    // pending modules are distinct and are nodes
    assert forall|i: int| 0 <= i < r.pending.len() implies #[trigger] r.pending[i] < r.nodes.len() by {
        if i < t.pending.len() {
            assert(r.pending[i] == s.pending[i]);
        } else {
            assert(r.pending[i] == fresh[i - t.pending.len()]);
        }
    }
    assert(r.pending.no_duplicates()) by {
        assert forall|a: int, b: int| 0 <= a < b < r.pending.len() implies r.pending[a] != r.pending[b] by {
            if b < t.pending.len() {
                assert(r.pending[a] == s.pending[a]);
                assert(r.pending[b] == s.pending[b]);
            } else if a < t.pending.len() {
                assert(r.pending[a] == s.pending[a]);
                assert(s.pending[a] < old_len);
                assert(r.pending[b] == fresh[b - t.pending.len()]);
            } else {
                assert(r.pending[a] == fresh[a - t.pending.len()]);
                assert(r.pending[b] == fresh[b - t.pending.len()]);
            }
        }
    }
    // every node is pending or recorded
    assert forall|m: int| 0 <= m < r.nodes.len() implies r.pending.contains(m as usize) || #[trigger] recorded(
        r,
        imports,
        m,
    ) by {
        if m >= old_len {
            assert(r.pending[t.pending.len() + (m - old_len)] == m as usize);
        } else if m == n as int {
            assert(r.nodes[m] == s.nodes[m]);
        } else if s.pending.contains(m as usize) {
            let i = choose|i: int| 0 <= i < s.pending.len() && s.pending[i] == m as usize;
            assert(i != s.pending.len() - 1);
            assert(r.pending[i] == s.pending[i]);
        } else {
            assert(recorded(s, imports, m));
            assert(r.nodes[m] == s.nodes[m]);
            assert forall|i: int| #![trigger imports(r.nodes[m])[i]] 0 <= i < imports(r.nodes[m]).len() implies exists|k: int|
                0 <= k < r.nodes.len() && #[trigger] r.nodes[k] == imports(r.nodes[m])[i] && has_edge(
                    r.edges,
                    k as usize,
                    m as usize,
                ) by {
                let k = choose|k: int|
                    0 <= k < s.nodes.len() && #[trigger] s.nodes[k] == imports(s.nodes[m])[i] && has_edge(
                        s.edges,
                        k as usize,
                        m as usize,
                    );
                lemma_has_edge_grows(s.edges, r.edges, k as usize, m as usize);
                assert(r.nodes[k] == s.nodes[k]);
            }
        }
    }
    // every node is reached from the main module
    assert forall|m: int| 0 <= m < r.nodes.len() implies reaches(imports, base, #[trigger] r.nodes[m]) by {
        if m < old_len {
            assert(r.nodes[m] == s.nodes[m]);
        } else {
            assert(ls.contains(r.nodes[m]));
            assert(reaches(imports, base, s.nodes[n as int]));
            let p = choose|p: Seq<Seq<char>>|
                #![trigger p.last()]
                p.len() >= 1 && p[0] == base && p.last() == s.nodes[n as int] && forall|i: int|
                    0 <= i < p.len() - 1 ==> imports(p[i]).contains(#[trigger] p[i + 1]);
            let p2 = p.push(r.nodes[m]);
            assert(p2.last() == r.nodes[m]);
            assert forall|i: int| 0 <= i < p2.len() - 1 implies imports(p2[i]).contains(#[trigger] p2[i + 1]) by {
                if i < p.len() - 1 {
                    assert(p2[i] == p[i]);
                    assert(p2[i + 1] == p[i + 1]);
                } else {
                    assert(p2[i] == p.last());
                }
            }
        }
    }
    assert(r.nodes[0] == s.nodes[0]);
}

/// When no module is pending, the nodes are exactly the modules reached from
/// the main module by imports.
pub proof fn lemma_loading_done(
    s: ModuleGraphV,
    imports: spec_fn(Seq<char>) -> Seq<Seq<char>>,
    base: Seq<char>,
    l: Seq<char>,
)
    requires
        loading(s, imports, base),
        s.pending.len() == 0,
    ensures
        reaches(imports, base, l) <==> s.nodes.contains(l),
{
    if s.nodes.contains(l) {
        let k = choose|k: int| 0 <= k < s.nodes.len() && s.nodes[k] == l;
        assert(reaches(imports, base, s.nodes[k]));
    }
    if reaches(imports, base, l) {
        let p = choose|p: Seq<Seq<char>>|
            #![trigger p.last()]
            p.len() >= 1 && p[0] == base && p.last() == l && forall|i: int|
                0 <= i < p.len() - 1 ==> imports(p[i]).contains(#[trigger] p[i + 1]);
        lemma_path_nodes(s, imports, base, p, p.len() - 1);
    }
}

proof fn lemma_path_nodes(
    s: ModuleGraphV,
    imports: spec_fn(Seq<char>) -> Seq<Seq<char>>,
    base: Seq<char>,
    p: Seq<Seq<char>>,
    i: int,
)
    requires
        loading(s, imports, base),
        s.pending.len() == 0,
        0 <= i < p.len(),
        p[0] == base,
        forall|j: int| 0 <= j < p.len() - 1 ==> imports(p[j]).contains(#[trigger] p[j + 1]),
    ensures
        s.nodes.contains(p[i]),
    decreases i,
{
    if i == 0 {
        assert(s.nodes[0] == base);
    } else {
        lemma_path_nodes(s, imports, base, p, i - 1);
        let n = choose|n: int| 0 <= n < s.nodes.len() && s.nodes[n] == p[i - 1];
        assert(!s.pending.contains(n as usize));
        assert(recorded(s, imports, n));
        assert(imports(p[i - 1]).contains(p[(i - 1) + 1]));
        let w = choose|w: int| 0 <= w < imports(p[i - 1]).len() && #[trigger] imports(p[i - 1])[w] == p[i];
        let k = choose|k: int|
            0 <= k < s.nodes.len() && #[trigger] s.nodes[k] == imports(s.nodes[n])[w] && has_edge(
                s.edges,
                k as usize,
                n as usize,
            );
        assert(s.nodes[k] == p[i]);
    }
}

/// Once every module is loaded, a compile order puts each module after the
/// modules it imports: where the module at position `b` of the order imports
/// the module at position `a`, `a` comes first.
pub proof fn lemma_loading_order(
    s: ModuleGraphV,
    imports: spec_fn(Seq<char>) -> Seq<Seq<char>>,
    base: Seq<char>,
    order: Seq<usize>,
    a: int,
    b: int,
)
    requires
        loading(s, imports, base),
        s.pending.len() == 0,
        topological(s.nodes.len(), s.edges, order),
        0 <= a < order.len(),
        0 <= b < order.len(),
        imports(s.nodes[order[b] as int]).contains(s.nodes[order[a] as int]),
    ensures
        a < b,
{
    let n = order[b] as int;
    assert(order[b] < s.nodes.len());
    assert(order[a] < s.nodes.len());
    assert(!s.pending.contains(n as usize));
    assert(recorded(s, imports, n));
    let w = choose|w: int|
        0 <= w < imports(s.nodes[n]).len() && #[trigger] imports(s.nodes[n])[w] == s.nodes[order[a] as int];
    let k = choose|k: int|
        0 <= k < s.nodes.len() && #[trigger] s.nodes[k] == imports(s.nodes[n])[w] && has_edge(
            s.edges,
            k as usize,
            n as usize,
        );
    assert(k == order[a] as int) by {
        if k != order[a] as int {
            assert(s.nodes[k] != s.nodes[order[a] as int]);
        }
    }
    let e = choose|e: int| 0 <= e < s.edges.len() && s.edges[e] == (k as usize, n as usize);
    assert(order[a] == s.edges[e].0 && order[b] == s.edges[e].1);
}

} // verus!
