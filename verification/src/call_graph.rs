//! The whole-program call graph: nodes are function names, unique per node;
//! directed edges mean "caller may directly call callee", at most one per
//! ordered pair. The adjacency structure itself is a petgraph directed graph
//! whose behaviour the contracts of a small trusted layer state; the logic
//! around it — name lookup, the exclusion policy, edge recording and the
//! bounded-depth reachability query — is verified against those contracts.

use crate::ir::Function;
use crate::ir::Instruction;
use crate::ir::Opcode;
use crate::ir::lemma_insts_split;
use crate::ir::lemma_insts_take_step;
use crate::ir::function_insts;
use crate::ir::insts_of_blocks;
use crate::ir::static_callee;
use crate::text::str_is_prefix;
use vstd::prelude::*;

verus! {

#[verifier::external_type_specification]
#[verifier::external_body]
#[verifier::reject_recursive_types(N)]
#[verifier::reject_recursive_types(E)]
#[verifier::reject_recursive_types(Ty)]
#[verifier::reject_recursive_types(Ix)]
pub struct ExGraph<N, E, Ty, Ix>(petgraph::graph::Graph<N, E, Ty, Ix>);

#[verifier::external_type_specification]
#[verifier::external_body]
pub struct ExDirected(petgraph::Directed);

/// The node weights of the underlying graph, in node-index order.
pub uninterp spec fn graph_nodes(g: petgraph::graph::DiGraph<String, ()>) -> Seq<Seq<char>>;

/// The edges of the underlying graph as (source, target) node-index pairs,
/// in edge-insertion order.
pub uninterp spec fn graph_edges(g: petgraph::graph::DiGraph<String, ()>) -> Seq<(int, int)>;

/// Relies on petgraph's `Graph::new`: a directed graph with no nodes and no
/// edges.
#[verifier::external_body]
fn pg_new() -> (g: petgraph::graph::DiGraph<String, ()>)
    ensures
        graph_nodes(g) == Seq::<Seq<char>>::empty(),
        graph_edges(g) == Seq::<(int, int)>::empty(),
{
    petgraph::graph::DiGraph::new()
}

/// Relies on petgraph's `Graph::add_node`: appends one node and returns its
/// index, the node count before the call; edges are untouched. It panics
/// only at the u32 index limit, which the precondition rules out.
#[verifier::external_body]
fn pg_add_node(g: &mut petgraph::graph::DiGraph<String, ()>, name: String) -> (i: usize)
    requires
        graph_nodes(*old(g)).len() < 0xFFFF_FFFF,
    ensures
        graph_nodes(*final(g)) == graph_nodes(*old(g)).push(name@),
        graph_edges(*final(g)) == graph_edges(*old(g)),
        i == graph_nodes(*old(g)).len(),
{
    g.add_node(name).index()
}

/// Relies on petgraph's `Graph::add_edge`: appends one directed edge
/// `a -> b`; nodes are untouched. It panics on an out-of-bounds endpoint and
/// at the u32 index limit, which the preconditions rule out.
#[verifier::external_body]
fn pg_add_edge(g: &mut petgraph::graph::DiGraph<String, ()>, a: usize, b: usize)
    requires
        a < graph_nodes(*old(g)).len(),
        b < graph_nodes(*old(g)).len(),
        graph_edges(*old(g)).len() < 0xFFFF_FFFF,
    ensures
        graph_nodes(*final(g)) == graph_nodes(*old(g)),
        graph_edges(*final(g)) == graph_edges(*old(g)).push((a as int, b as int)),
{
    g.add_edge(
        petgraph::graph::NodeIndex::new(a),
        petgraph::graph::NodeIndex::new(b),
        (),
    );
}

/// Relies on petgraph's `Graph::contains_edge`: whether some edge `a -> b`
/// is in the graph. The preconditions keep the u32 index conversion
/// faithful.
#[verifier::external_body]
fn pg_contains_edge(g: &petgraph::graph::DiGraph<String, ()>, a: usize, b: usize) -> (r: bool)
    requires
        a < graph_nodes(*g).len(),
        b < graph_nodes(*g).len(),
    ensures
        r == graph_edges(*g).contains((a as int, b as int)),
{
    g.contains_edge(petgraph::graph::NodeIndex::new(a), petgraph::graph::NodeIndex::new(b))
}

/// Relies on petgraph's `Graph::neighbors`: the targets of the edges out of
/// `a`, most recently inserted edge first — a target is listed exactly as
/// often as edges from `a` reach it. The precondition keeps the u32 index
/// conversion faithful.
#[verifier::external_body]
fn pg_neighbors(g: &petgraph::graph::DiGraph<String, ()>, a: usize) -> (r: Vec<usize>)
    requires
        a < graph_nodes(*g).len(),
    ensures
        r@.map_values(|b: usize| b as int) == graph_edges(*g).filter(
            |e: (int, int)| e.0 == a as int,
        ).map_values(|e: (int, int)| e.1).reverse(),
        forall|b: usize|
            #![trigger r@.contains(b)]
            r@.contains(b) <==> graph_edges(*g).contains((a as int, b as int)),
{
    g.neighbors(petgraph::graph::NodeIndex::new(a)).map(|n| n.index()).collect()
}

/// Relies on petgraph's `Graph::edge_count`: the number of edges.
#[verifier::external_body]
fn pg_edge_count(g: &petgraph::graph::DiGraph<String, ()>) -> (n: usize)
    ensures
        n == graph_edges(*g).len(),
{
    g.edge_count()
}

/// Relies on petgraph's `Graph::edge_endpoints`: the source and target node
/// indices of edge `e`, which exists by the precondition (it also keeps the
/// u32 index conversion faithful).
#[verifier::external_body]
fn pg_edge_endpoints(g: &petgraph::graph::DiGraph<String, ()>, e: usize) -> (r: (usize, usize))
    requires
        e < graph_edges(*g).len(),
    ensures
        graph_edges(*g)[e as int] == (r.0 as int, r.1 as int),
{
    let (a, b) = g.edge_endpoints(petgraph::graph::EdgeIndex::new(e)).unwrap();
    (a.index(), b.index())
}

/// The mathematical value of a `CallGraph`: node names in insertion order
/// (unique), and directed edges as ordered pairs of names in insertion order
/// (unique).
#[verifier::ext_equal]
pub struct GraphView {
    pub nodes: Seq<Seq<char>>,
    pub edges: Seq<(Seq<char>, Seq<char>)>,
}

/// The default excluded-callee prefixes: the compiler-intrinsic namespace
/// and dunder-style internal helpers.
pub open spec fn default_excluded_prefixes() -> Seq<Seq<char>> {
    seq!["llvm"@, "__"@]
}

/// Whether `name` matches one of the excluded prefixes.
pub open spec fn excluded_name(prefixes: Seq<Seq<char>>, name: Seq<char>) -> bool {
    exists|k: int| 0 <= k < prefixes.len() && (#[trigger] prefixes[k]).is_prefix_of(name)
}

/// Append `n` to `nodes` unless it is already a node.
pub open spec fn ensure_node(nodes: Seq<Seq<char>>, n: Seq<char>) -> Seq<Seq<char>> {
    if nodes.contains(n) {
        nodes
    } else {
        nodes.push(n)
    }
}

/// One edge insertion as the builder performs it: look up or create the two
/// endpoint nodes, then add the edge unless it is already present.
pub open spec fn add_edge_spec(g: GraphView, src: Seq<char>, dst: Seq<char>) -> GraphView {
    GraphView {
        nodes: ensure_node(ensure_node(g.nodes, src), dst),
        edges: if g.edges.contains((src, dst)) {
            g.edges
        } else {
            g.edges.push((src, dst))
        },
    }
}

/// The callee names the builder records for an instruction stream: the
/// statically known callees of call-like instructions, in stream order, with
/// excluded names filtered out.
pub open spec fn recorded_callees(insts: Seq<Instruction>, prefixes: Seq<Seq<char>>) -> Seq<
    Seq<char>,
>
    decreases insts.len(),
{
    if insts.len() == 0 {
        Seq::empty()
    } else {
        let rest = recorded_callees(insts.drop_last(), prefixes);
        match static_callee(insts.last()) {
            Some(name) => if !excluded_name(prefixes, name) {
                rest.push(name)
            } else {
                rest
            },
            None => rest,
        }
    }
}

/// Recording one caller's callees, in order.
pub open spec fn record_calls_spec(g: GraphView, caller: Seq<char>, callees: Seq<Seq<char>>) -> GraphView
    decreases callees.len(),
{
    if callees.len() == 0 {
        g
    } else {
        add_edge_spec(record_calls_spec(g, caller, callees.drop_last()), caller, callees.last())
    }
}

/// A directed whole-program call graph, built once per analysis run by
/// recording each function's statically resolvable calls, and queried
/// afterwards; append-only while being built.
pub struct CallGraph {
    graph: petgraph::graph::DiGraph<String, ()>,
    names: Vec<String>,
    excluded_prefixes: Vec<String>,
}

impl View for CallGraph {
    type V = GraphView;

    closed spec fn view(&self) -> GraphView {
        GraphView {
            nodes: self.node_names(),
            edges: graph_edges(self.graph).map_values(
                |e: (int, int)| (self.node_names()[e.0], self.node_names()[e.1]),
            ),
        }
    }
}

impl Default for CallGraph {
    /// The same empty graph `new` builds.
    fn default() -> (r: Self)
        ensures
            r.wf(),
            r@.nodes == Seq::<Seq<char>>::empty(),
            r@.edges == Seq::<(Seq<char>, Seq<char>)>::empty(),
            r.excluded() == default_excluded_prefixes(),
    {
        CallGraph::new()
    }
}

impl CallGraph {
    /// The node names, in insertion order.
    pub closed spec fn node_names(self) -> Seq<Seq<char>> {
        self.names@.map_values(|s: String| s@)
    }

    /// The excluded callee prefixes this graph was built with.
    pub closed spec fn excluded(self) -> Seq<Seq<char>> {
        self.excluded_prefixes@.map_values(|s: String| s@)
    }

    /// Well-formedness: the name index mirrors the graph's node weights,
    /// node names are unique, edges join in-range nodes, and no ordered pair
    /// carries more than one edge.
    pub closed spec fn wf(self) -> bool {
        &&& graph_nodes(self.graph) == self.node_names()
        &&& (forall|i: int, j: int|
            #![trigger self.node_names()[i], self.node_names()[j]]
            0 <= i < self.node_names().len() && 0 <= j < self.node_names().len() && i != j
                ==> self.node_names()[i] != self.node_names()[j])
        &&& (forall|k: int|
            0 <= k < graph_edges(self.graph).len() ==> 0 <= (
            #[trigger] graph_edges(self.graph)[k]).0 < self.node_names().len() && 0 <= graph_edges(
                self.graph,
            )[k].1 < self.node_names().len())
        &&& (forall|k: int, l: int|
            #![trigger graph_edges(self.graph)[k], graph_edges(self.graph)[l]]
            0 <= k < graph_edges(self.graph).len() && 0 <= l < graph_edges(self.graph).len() && k
                != l ==> graph_edges(self.graph)[k] != graph_edges(self.graph)[l])
    }

    /// An empty graph with the default exclusion policy.
    pub fn new() -> (r: Self)
        ensures
            r.wf(),
            r@.nodes == Seq::<Seq<char>>::empty(),
            r@.edges == Seq::<(Seq<char>, Seq<char>)>::empty(),
            r.excluded() == default_excluded_prefixes(),
    {
        let excluded = vec!["llvm".to_owned(), "__".to_owned()];
        let r = CallGraph { graph: pg_new(), names: Vec::new(), excluded_prefixes: excluded };
        proof {
            assert(r.node_names() =~= Seq::<Seq<char>>::empty());
            assert(r.excluded() =~= default_excluded_prefixes());
            assert(r@.edges =~= Seq::<(Seq<char>, Seq<char>)>::empty());
        }
        r
    }

    /// An empty graph with a caller-chosen exclusion policy: a callee is
    /// dropped when any of `prefixes` is a prefix of its name.
    pub fn with_excluded_prefixes(prefixes: Vec<String>) -> (r: Self)
        ensures
            r.wf(),
            r@.nodes == Seq::<Seq<char>>::empty(),
            r@.edges == Seq::<(Seq<char>, Seq<char>)>::empty(),
            r.excluded() == prefixes@.map_values(|s: String| s@),
    {
        let r = CallGraph { graph: pg_new(), names: Vec::new(), excluded_prefixes: prefixes };
        proof {
            assert(r.node_names() =~= Seq::<Seq<char>>::empty());
            assert(r@.edges =~= Seq::<(Seq<char>, Seq<char>)>::empty());
        }
        r
    }

    /// The number of nodes.
    pub fn node_count(&self) -> (n: usize)
        ensures
            n == self@.nodes.len(),
    {
        self.names.len()
    }

    /// The number of edges.
    pub fn edge_count(&self) -> (n: usize)
        ensures
            n == self@.edges.len(),
    {
        pg_edge_count(&self.graph)
    }

    /// The name of node `i`.
    pub fn node_name(&self, i: usize) -> (r: &String)
        requires
            i < self@.nodes.len(),
        ensures
            r@ == self@.nodes[i as int],
    {
        &self.names[i]
    }

    /// The endpoints of edge `e` as node indices, `None` when `e` is out of
    /// bounds.
    pub fn edge_endpoints(&self, e: usize) -> (r: Option<(usize, usize)>)
        requires
            self.wf(),
        ensures
            match r {
                Some(p) => e < self@.edges.len() && p.0 < self@.nodes.len() && p.1
                    < self@.nodes.len() && self@.edges[e as int] == (
                    self@.nodes[p.0 as int],
                    self@.nodes[p.1 as int],
                ),
                None => e >= self@.edges.len(),
            },
    {
        if e < self.edge_count() {
            let p = pg_edge_endpoints(&self.graph, e);
            Some(p)
        } else {
            None
        }
    }

    /// Look up the node named `name`, creating it if absent; returns its
    /// index.
    fn get_node_index(&mut self, name: &String) -> (i: usize)
        requires
            old(self).wf(),
            old(self)@.nodes.contains(name@) || old(self)@.nodes.len() < 0xFFFF_FFFF,
        ensures
            final(self).wf(),
            final(self)@.nodes == ensure_node(old(self)@.nodes, name@),
            final(self)@.edges == old(self)@.edges,
            graph_edges(final(self).graph) == graph_edges(old(self).graph),
            final(self).excluded() == old(self).excluded(),
            i < final(self)@.nodes.len(),
            final(self)@.nodes[i as int] == name@,
    {
        let ghost g0 = *self;
        let mut j: usize = 0;
        while j < self.names.len()
            invariant
                *self == g0,
                j <= self.names.len(),
                forall|k: int| 0 <= k < j ==> self.node_names()[k] != name@,
            decreases self.names.len() - j,
        {
            if self.names[j].eq(name) {
                proof {
                    assert(self@.nodes[j as int] == name@);
                    assert(ensure_node(g0@.nodes, name@) =~= g0@.nodes);
                }
                return j;
            }
            j += 1;
        }
        proof {
            assert(!g0@.nodes.contains(name@));
        }
        let i = pg_add_node(&mut self.graph, name.clone());
        self.names.push(name.clone());
        proof {
            assert(self.node_names() =~= g0.node_names().push(name@));
            assert(self@.nodes == ensure_node(g0@.nodes, name@));
            assert(self.excluded() =~= g0.excluded());
            assert forall|k: int| 0 <= k < graph_edges(self.graph).len() implies 0 <= (
            #[trigger] graph_edges(self.graph)[k]).0 < self.node_names().len() && 0 <= graph_edges(
                self.graph,
            )[k].1 < self.node_names().len() by {
                assert(graph_edges(self.graph)[k] == graph_edges(g0.graph)[k]);
            }
            assert(self@.edges =~= g0@.edges);
        }
        i
    }

    /// Whether `name` passes the exclusion filter: no excluded prefix is a
    /// prefix of it.
    fn valid_callee(&self, name: &String) -> (r: bool)
        ensures
            r == !excluded_name(self.excluded(), name@),
    {
        let mut j: usize = 0;
        while j < self.excluded_prefixes.len()
            invariant
                j <= self.excluded_prefixes.len(),
                forall|k: int| 0 <= k < j ==> !(#[trigger] self.excluded()[k]).is_prefix_of(name@),
            decreases self.excluded_prefixes.len() - j,
        {
            if str_is_prefix(self.excluded_prefixes[j].as_str(), name.as_str()) {
                proof {
                    assert(self.excluded()[j as int].is_prefix_of(name@));
                }
                return false;
            }
            j += 1;
        }
        true
    }

    /// Insert the directed edge `src -> dst`, creating the endpoint nodes as
    /// needed, unless the edge already exists.
    fn add_edge(&mut self, src: &String, dst: &String)
        requires
            old(self).wf(),
            add_edge_spec(old(self)@, src@, dst@).nodes.len() <= 0xFFFF_FFFF,
            add_edge_spec(old(self)@, src@, dst@).edges.len() <= 0xFFFF_FFFF,
        ensures
            final(self).wf(),
            final(self)@ == add_edge_spec(old(self)@, src@, dst@),
            final(self).excluded() == old(self).excluded(),
    {
        let ghost g0 = *self;
        let si = self.get_node_index(src);
        let ghost g1 = *self;
        let di = self.get_node_index(dst);
        let ghost g2 = *self;
        proof {
            assert(self@.nodes == ensure_node(ensure_node(g0@.nodes, src@), dst@));
            // `si` still names `src` after the second lookup: nodes are only
            // appended.
            assert(g2@.nodes[si as int] == src@);
            assert(self@.edges == g0@.edges);
        }
        if !pg_contains_edge(&self.graph, si, di) {
            proof {
                // The name pair is absent exactly when the index pair is:
                // the endpoints are in range and names are unique.
                assert(!g0@.edges.contains((src@, dst@))) by {
                    if g0@.edges.contains((src@, dst@)) {
                        let k = choose|k: int|
                            0 <= k < g0@.edges.len() && g0@.edges[k] == (src@, dst@);
                        assert(g2@.edges[k] == (src@, dst@));
                        let e = graph_edges(g2.graph)[k];
                        assert(g2@.nodes[e.0] == src@ && g2@.nodes[e.1] == dst@);
                        assert(e.0 == si && e.1 == di);
                        assert(graph_edges(g2.graph).contains((si as int, di as int)));
                    }
                }
                assert(graph_edges(g2.graph).len() < 0xFFFF_FFFF) by {
                    assert(add_edge_spec(g0@, src@, dst@).edges.len() == g0@.edges.len() + 1);
                    assert(g2@.edges.len() == graph_edges(g2.graph).len());
                }
            }
            pg_add_edge(&mut self.graph, si, di);
            proof {
                assert(self.node_names() == g2.node_names());
                assert(self@.edges =~= g2@.edges.push((src@, dst@)));
                assert forall|k: int, l: int|
                    #![trigger graph_edges(self.graph)[k], graph_edges(self.graph)[l]]
                    0 <= k < graph_edges(self.graph).len() && 0 <= l < graph_edges(
                        self.graph,
                    ).len() && k != l implies graph_edges(self.graph)[k] != graph_edges(
                    self.graph,
                )[l] by {
                    let n = graph_edges(g2.graph).len() as int;
                    if k < n && l < n {
                    } else {
                        // one of the two is the new edge, absent before
                        if graph_edges(self.graph)[k] == graph_edges(self.graph)[l] {
                            if k == n {
                                assert(graph_edges(g2.graph)[l] == (si as int, di as int));
                                assert(graph_edges(g2.graph).contains((si as int, di as int)));
                            } else {
                                assert(graph_edges(g2.graph)[k] == (si as int, di as int));
                                assert(graph_edges(g2.graph).contains((si as int, di as int)));
                            }
                        }
                    }
                }
                assert(self@ =~= add_edge_spec(g0@, src@, dst@));
            }
        } else {
            proof {
                // The index pair is present, so the name pair is too.
                let k = choose|k: int|
                    0 <= k < graph_edges(g2.graph).len() && graph_edges(g2.graph)[k] == (
                    si as int,
                    di as int,
                );
                assert(g2@.edges[k] == (src@, dst@));
                assert(g0@.edges.contains((src@, dst@)));
                assert(self@ =~= add_edge_spec(g0@, src@, dst@));
            }
        }
    }

    /// Record every statically resolvable, non-excluded call of `func` as an
    /// edge from `func`'s name to the callee's name, deduplicated; endpoint
    /// nodes are created as needed and nothing is ever removed. The two
    /// bounds are machine limits of the u32-indexed graph.
    pub fn add_callees_from_function(&mut self, func: &Function)
        requires
            old(self).wf(),
            record_calls_spec(
                old(self)@,
                func.name@,
                recorded_callees(function_insts(*func), old(self).excluded()),
            ).nodes.len() <= 0xFFFF_FFFF,
            record_calls_spec(
                old(self)@,
                func.name@,
                recorded_callees(function_insts(*func), old(self).excluded()),
            ).edges.len() <= 0xFFFF_FFFF,
        ensures
            final(self).wf(),
            final(self)@ == record_calls_spec(
                old(self)@,
                func.name@,
                recorded_callees(function_insts(*func), old(self).excluded()),
            ),
            final(self).excluded() == old(self).excluded(),
    {
        let caller_name = func.name.clone();
        let ghost g0 = *self;
        let ghost prefixes = self.excluded();
        let ghost full = function_insts(*func);
        let ghost full_rec = recorded_callees(full, prefixes);
        let mut bi: usize = 0;
        while bi < func.blocks.len()
            invariant
                bi <= func.blocks.len(),
                self.wf(),
                self.excluded() == prefixes,
                self@ == record_calls_spec(
                    g0@,
                    func.name@,
                    recorded_callees(insts_of_blocks(func.blocks@.take(bi as int)), prefixes),
                ),
            decreases func.blocks.len() - bi,
        {
            let ghost done_blocks = insts_of_blocks(func.blocks@.take(bi as int));
            let bb = &func.blocks[bi];
            let mut ii: usize = 0;
            while ii < bb.instructions.len()
                invariant
                    ii <= bb.instructions.len(),
                    self.wf(),
                    self.excluded() == prefixes,
                    self@ == record_calls_spec(
                        g0@,
                        func.name@,
                        recorded_callees(done_blocks + bb.instructions@.take(ii as int), prefixes),
                    ),
                decreases bb.instructions.len() - ii,
            {
                let inst = &bb.instructions[ii];
                let ghost processed = done_blocks + bb.instructions@.take(ii as int);
                let ghost processed_next = done_blocks + bb.instructions@.take(ii as int + 1);
                proof {
                    assert(bb.instructions@.take(ii as int + 1) =~= bb.instructions@.take(
                        ii as int,
                    ).push(*inst));
                    assert(processed_next =~= processed.push(*inst));
                    assert(processed_next.drop_last() =~= processed);
                }
                if inst.opcode == Opcode::Call || inst.opcode == Opcode::Invoke {
                    match &inst.callee {
                        Some(callee) => {
                            if self.valid_callee(callee) {
                                let ghost rp = recorded_callees(processed, prefixes);
                                let ghost rp_next = recorded_callees(processed_next, prefixes);
                                proof {
                                    assert(static_callee(*inst) == Some(callee@));
                                    assert(rp_next == rp.push(callee@));
                                    // `processed_next` is a prefix of the whole
                                    // stream, so the recorded callees so far are
                                    // a prefix of the whole recording; the graph
                                    // so far thus stays within the final bounds.
                                    lemma_insts_split(func.blocks@, bi as int + 1);
                                    lemma_insts_take_step(func.blocks@, bi as int);
                                    let tail_insts = bb.instructions@.skip(ii as int + 1)
                                        + insts_of_blocks(func.blocks@.skip(bi as int + 1));
                                    assert(bb.instructions@ =~= bb.instructions@.take(ii as int + 1)
                                        + bb.instructions@.skip(ii as int + 1));
                                    assert(full =~= processed_next + tail_insts);
                                    lemma_recorded_concat(processed_next, tail_insts, prefixes);
                                    assert(rp_next =~= full_rec.take(rp_next.len() as int));
                                    lemma_record_calls_prefix(
                                        g0@,
                                        func.name@,
                                        full_rec,
                                        rp_next.len() as int,
                                    );
                                    lemma_record_calls_push(g0@, func.name@, rp, callee@);
                                    assert(add_edge_spec(self@, func.name@, callee@)
                                        == record_calls_spec(g0@, func.name@, rp_next));
                                    assert(caller_name@ == func.name@);
                                }
                                self.add_edge(&caller_name, callee);
                            } else {
                                proof {
                                    assert(static_callee(*inst) == Some(callee@));
                                    assert(recorded_callees(processed_next, prefixes)
                                        == recorded_callees(processed, prefixes));
                                }
                            }
                        },
                        None => {
                            proof {
                                assert(static_callee(*inst) is None);
                                assert(recorded_callees(processed_next, prefixes)
                                    == recorded_callees(processed, prefixes));
                            }
                        },
                    }
                } else {
                    proof {
                        assert(static_callee(*inst) is None);
                        assert(recorded_callees(processed_next, prefixes) == recorded_callees(
                            processed,
                            prefixes,
                        ));
                    }
                }
                ii += 1;
            }
            proof {
                lemma_insts_take_step(func.blocks@, bi as int);
                assert(bb.instructions@.take(bb.instructions@.len() as int) =~= bb.instructions@);
                assert(done_blocks + bb.instructions@.take(ii as int) =~= insts_of_blocks(
                    func.blocks@.take(bi as int + 1),
                ));
            }
            bi += 1;
        }
        proof {
            assert(func.blocks@.take(func.blocks@.len() as int) =~= func.blocks@);
        }
    }

    /// The index of the node named `name`, if any.
    fn find_node(&self, name: &String) -> (r: Option<usize>)
        ensures
            match r {
                Some(i) => i < self@.nodes.len() && self@.nodes[i as int] == name@,
                None => !self@.nodes.contains(name@),
            },
    {
        let mut j: usize = 0;
        while j < self.names.len()
            invariant
                j <= self.names.len(),
                forall|k: int| 0 <= k < j ==> self@.nodes[k] != name@,
            decreases self.names.len() - j,
        {
            if self.names[j].eq(name) {
                return Some(j);
            }
            j += 1;
        }
        None
    }

    /// Every function name reachable from `caller` along at most `max_depth`
    /// call edges: breadth-first from the start node, cycle-safe, the start
    /// itself included, each name listed once; empty when `caller` is not a
    /// node of the graph.
    pub fn find_callees_within_depth(&self, caller: &str, max_depth: usize) -> (r: Vec<String>)
        requires
            self.wf(),
        ensures
            names_of(r@).to_set() == reachable_within(self@, caller@, max_depth as nat),
            forall|k: int, l: int| 0 <= k < l < r@.len() ==> r@[k]@ != r@[l]@,
    {
        let caller_string = caller.to_owned();
        let si: usize = match self.find_node(&caller_string) {
            Some(i) => i,
            None => {
                let r: Vec<String> = Vec::new();
                proof {
                    assert(names_of(r@).to_set() =~= Set::<Seq<char>>::empty());
                }
                return r;
            },
        };
        let n = self.names.len();
        let ghost iE = graph_edges(self.graph);
        let mut visited: Vec<bool> = Vec::new();
        let mut t: usize = 0;
        while t < n
            invariant
                t <= n,
                visited@.len() == t,
                forall|k: int| 0 <= k < t ==> !visited@[k],
            decreases n - t,
        {
            visited.push(false);
            t += 1;
        }
        visited.set(si, true);
        let mut frontier: Vec<usize> = Vec::new();
        frontier.push(si);
        let mut d: usize = 0;
        proof {
            assert(visited_set(visited@) =~= ireach(iE, si as int, 0));
            assert(iset_of(frontier@).contains(si as int)) by {
                assert(frontier@[0] as int == si as int);
            }
            assert(iset_of(frontier@) =~= ifrontier(iE, si as int, 0)) by {
                assert forall|i: int| iset_of(frontier@).contains(i) implies i == si as int by {
                    let k = choose|k: int|
                        0 <= k < frontier@.len() && (frontier@[k]) as int == i;
                }
            }
        }
        while d < max_depth && frontier.len() > 0
            invariant
                d <= max_depth,
                visited@.len() == n,
                visited_set(visited@) == ireach(iE, si as int, d as nat),
                iset_of(frontier@) == ifrontier(iE, si as int, d as nat),
                forall|k: int| 0 <= k < frontier@.len() ==> (#[trigger] frontier@[k]) < n,
            decreases max_depth - d,
        {
            let ghost fseq = frontier@;
            let ghost r_d = ireach(iE, si as int, d as nat);
            let mut next: Vec<usize> = Vec::new();
            let mut k: usize = 0;
            proof {
                assert(istep(iE, iset_of(fseq.take(0))) =~= Set::<int>::empty()) by {
                    assert forall|b: int| !istep(iE, iset_of(fseq.take(0))).contains(b) by {
                        if istep(iE, iset_of(fseq.take(0))).contains(b) {
                            let a = choose|a: int|
                                iset_of(fseq.take(0)).contains(a) && #[trigger] iE.contains(
                                    (a, b),
                                );
                            let kk = choose|kk: int|
                                0 <= kk < fseq.take(0).len() && (fseq.take(0)[kk]) as int == a;
                        }
                    }
                }
                assert(visited_set(visited@) =~= r_d.union(istep(iE, iset_of(fseq.take(0)))));
                assert(iset_of(next@) =~= istep(iE, iset_of(fseq.take(0))).difference(r_d)) by {
                    assert forall|i: int| !iset_of(next@).contains(i) by {
                        if iset_of(next@).contains(i) {
                            let kk = choose|kk: int|
                                0 <= kk < next@.len() && (next@[kk]) as int == i;
                        }
                    }
                }
            }
            while k < frontier.len()
                invariant
                    k <= frontier.len(),
                    frontier@ == fseq,
                    visited@.len() == n,
                    visited_set(visited@) == r_d.union(istep(iE, iset_of(fseq.take(k as int)))),
                    iset_of(next@) == istep(iE, iset_of(fseq.take(k as int))).difference(r_d),
                    forall|k2: int| 0 <= k2 < next@.len() ==> (#[trigger] next@[k2]) < n,
                decreases frontier.len() - k,
            {
                let x = frontier[k];
                let nbrs = pg_neighbors(&self.graph, x);
                let ghost pk = iset_of(fseq.take(k as int));
                let ghost pk1 = iset_of(fseq.take(k as int + 1));
                let mut m: usize = 0;
                proof {
                    assert(iset_of(nbrs@.take(0)) =~= Set::<int>::empty()) by {
                        assert forall|i: int| !iset_of(nbrs@.take(0)).contains(i) by {
                            if iset_of(nbrs@.take(0)).contains(i) {
                                let kk = choose|kk: int|
                                    0 <= kk < nbrs@.take(0).len() && (nbrs@.take(0)[kk]) as int
                                        == i;
                            }
                        }
                    }
                    assert(visited_set(visited@) =~= r_d.union(istep(iE, pk)).union(
                        iset_of(nbrs@.take(0)),
                    ));
                    assert(iset_of(next@) =~= istep(iE, pk).union(iset_of(nbrs@.take(0))).difference(
                        r_d,
                    ));
                }
                while m < nbrs.len()
                    invariant
                        m <= nbrs.len(),
                        visited@.len() == n,
                        visited_set(visited@) == r_d.union(istep(iE, pk)).union(
                            iset_of(nbrs@.take(m as int)),
                        ),
                        iset_of(next@) == istep(iE, pk).union(
                            iset_of(nbrs@.take(m as int)),
                        ).difference(r_d),
                        forall|k2: int| 0 <= k2 < next@.len() ==> (#[trigger] next@[k2]) < n,
                    decreases nbrs.len() - m,
                {
                    let b = nbrs[m];
                    proof {
                        assert(nbrs@.contains(nbrs@[m as int]));
                        assert(iE.contains((x as int, b as int)));
                        let kk = choose|kk: int| 0 <= kk < iE.len() && iE[kk] == (
                        x as int,
                        b as int,
                        );
                        assert(0 <= iE[kk].1 < self.node_names().len());
                        assert(b < n);
                        assert(nbrs@.take(m as int + 1) =~= nbrs@.take(m as int).push(b));
                        lemma_iset_push(nbrs@.take(m as int), b);
                        assert(iset_of(nbrs@.take(m as int + 1)) == iset_of(
                            nbrs@.take(m as int),
                        ).insert(b as int));
                    }
                    if !visited[b] {
                        let ghost vs0 = visited@;
                        let ghost ns0 = next@;
                        visited.set(b, true);
                        next.push(b);
                        proof {
                            assert(visited@ == vs0.update(b as int, true));
                            assert(next@ == ns0.push(b));
                            lemma_iset_push(ns0, b);
                            assert(iset_of(nbrs@.take(m as int + 1)).contains(b as int));
                            assert(!vs0[b as int]);
                            assert(!visited_set(vs0).contains(b as int));
                            assert(!r_d.contains(b as int));
                            assert forall|i2: int| visited_set(visited@).contains(i2) implies
                                r_d.union(istep(iE, pk)).union(
                                iset_of(nbrs@.take(m as int + 1)),
                            ).contains(i2) by {
                                if i2 != b as int {
                                    assert(vs0[i2] == visited@[i2]);
                                    assert(visited_set(vs0).contains(i2));
                                    if iset_of(nbrs@.take(m as int)).contains(i2) {
                                        assert(iset_of(nbrs@.take(m as int + 1)).contains(i2));
                                    }
                                }
                            }
                            assert forall|i2: int|
                                r_d.union(istep(iE, pk)).union(
                                    iset_of(nbrs@.take(m as int + 1)),
                                ).contains(i2) implies visited_set(visited@).contains(i2) by {
                                if i2 == b as int {
                                    assert(0 <= i2 < visited@.len() && visited@[i2]);
                                } else {
                                    if iset_of(nbrs@.take(m as int + 1)).contains(i2) {
                                        assert(iset_of(nbrs@.take(m as int)).contains(i2));
                                    }
                                    assert(visited_set(vs0).contains(i2));
                                    assert(visited@[i2] == vs0[i2]);
                                }
                            }
                            assert(visited_set(visited@) =~= r_d.union(istep(iE, pk)).union(
                                iset_of(nbrs@.take(m as int + 1)),
                            ));
                            assert forall|i2: int| iset_of(next@).contains(i2) implies istep(
                                iE,
                                pk,
                            ).union(iset_of(nbrs@.take(m as int + 1))).difference(r_d).contains(
                                i2,
                            ) by {
                                if i2 != b as int {
                                    assert(iset_of(ns0).contains(i2));
                                    if iset_of(nbrs@.take(m as int)).contains(i2) {
                                        assert(iset_of(nbrs@.take(m as int + 1)).contains(i2));
                                    }
                                }
                            }
                            assert forall|i2: int|
                                istep(iE, pk).union(
                                    iset_of(nbrs@.take(m as int + 1)),
                                ).difference(r_d).contains(i2) implies iset_of(next@).contains(
                                i2,
                            ) by {
                                if i2 != b as int {
                                    if iset_of(nbrs@.take(m as int + 1)).contains(i2) {
                                        assert(iset_of(nbrs@.take(m as int)).contains(i2));
                                    }
                                    assert(iset_of(ns0).contains(i2));
                                }
                                assert(iset_of(ns0).insert(b as int).contains(i2));
                            }
                            assert(iset_of(next@) =~= istep(iE, pk).union(
                                iset_of(nbrs@.take(m as int + 1)),
                            ).difference(r_d));
                        }
                    } else {
                        proof {
                            assert(visited_set(visited@).contains(b as int));
                            assert(visited_set(visited@) =~= r_d.union(istep(iE, pk)).union(
                                iset_of(nbrs@.take(m as int + 1)),
                            ));
                            assert(iset_of(next@) =~= istep(iE, pk).union(
                                iset_of(nbrs@.take(m as int + 1)),
                            ).difference(r_d));
                        }
                    }
                    m += 1;
                }
                proof {
                    assert(nbrs@.take(nbrs@.len() as int) =~= nbrs@);
                    assert(fseq.take(k as int + 1) =~= fseq.take(k as int).push(x));
                    lemma_iset_push(fseq.take(k as int), x);
                    assert(pk1 == pk.insert(x as int));
                    assert forall|b2: int| istep(iE, pk1).contains(b2) implies istep(
                        iE,
                        pk,
                    ).union(iset_of(nbrs@)).contains(b2) by {
                        let a = choose|a: int| pk1.contains(a) && #[trigger] iE.contains((a, b2));
                        if pk.contains(a) {
                            assert(istep(iE, pk).contains(b2));
                        } else {
                            assert(a == x as int);
                            let kk = choose|kk: int| 0 <= kk < iE.len() && iE[kk] == (a, b2);
                            assert(0 <= iE[kk].1 < self.node_names().len());
                            let bu = b2 as usize;
                            assert(iE.contains((x as int, bu as int)));
                            assert(nbrs@.contains(bu));
                            let kk2 = choose|kk2: int| 0 <= kk2 < nbrs@.len() && nbrs@[kk2] == bu;
                            assert((nbrs@[kk2]) as int == b2);
                            assert(iset_of(nbrs@).contains(b2));
                        }
                    }
                    assert forall|b2: int| istep(iE, pk).union(iset_of(nbrs@)).contains(b2) implies
                        istep(iE, pk1).contains(b2) by {
                        if istep(iE, pk).contains(b2) {
                            let a = choose|a: int| pk.contains(a) && #[trigger] iE.contains(
                                (a, b2),
                            );
                            assert(pk1.contains(a));
                            assert(istep(iE, pk1).contains(b2));
                        } else {
                            assert(iset_of(nbrs@).contains(b2));
                            let kk = choose|kk: int|
                                0 <= kk < nbrs@.len() && (nbrs@[kk]) as int == b2;
                            assert(nbrs@.contains(nbrs@[kk]));
                            assert(iE.contains((x as int, nbrs@[kk] as int)));
                            assert(pk1.contains(x as int));
                            assert(istep(iE, pk1).contains(b2));
                        }
                    }
                    assert(istep(iE, pk1) =~= istep(iE, pk).union(iset_of(nbrs@)));
                    assert(visited_set(visited@) =~= r_d.union(istep(iE, pk1)));
                    assert(iset_of(next@) =~= istep(iE, pk1).difference(r_d));
                }
                k += 1;
            }
            proof {
                assert(fseq.take(fseq.len() as int) =~= fseq);
                lemma_frontier_step(iE, si as int, d as nat);
                assert(visited_set(visited@) == ireach(iE, si as int, (d + 1) as nat));
                assert(iset_of(next@) =~= ifrontier(iE, si as int, (d + 1) as nat));
            }
            frontier = next;
            d += 1;
        }
        proof {
            if d < max_depth {
                assert(frontier@.len() == 0);
                assert(iset_of(frontier@) =~= Set::<int>::empty()) by {
                    assert forall|i: int| !iset_of(frontier@).contains(i) by {
                        if iset_of(frontier@).contains(i) {
                            let kk = choose|kk: int|
                                0 <= kk < frontier@.len() && (frontier@[kk]) as int == i;
                        }
                    }
                }
                assert(ifrontier(iE, si as int, d as nat) == Set::<int>::empty());
                assert(ifrontier(iE, si as int, 0).contains(si as int));
                assert(d >= 1);
                let dm1 = (d - 1) as nat;
                assert(ireach(iE, si as int, d as nat) =~= ireach(iE, si as int, dm1)) by {
                    assert forall|i: int| ireach(iE, si as int, d as nat).contains(i) implies
                        ireach(iE, si as int, dm1).contains(i) by {
                        if !ireach(iE, si as int, dm1).contains(i) {
                            assert(ifrontier(iE, si as int, d as nat).contains(i));
                        }
                    }
                }
                lemma_ireach_stable(iE, si as int, dm1, max_depth as nat);
                assert(visited_set(visited@) == ireach(iE, si as int, max_depth as nat));
            }
        }
        let mut out: Vec<String> = Vec::new();
        let mut i: usize = 0;
        proof {
            assert(visited_set(visited@.take(0)) =~= Set::<int>::empty());
            assert(names_of(out@) =~= Seq::<Seq<char>>::empty());
            assert(names_of(out@).to_set() =~= names_image(
                self@.nodes,
                visited_set(visited@.take(0)),
            )) by {
                assert forall|nm: Seq<char>|
                    !names_image(self@.nodes, visited_set(visited@.take(0))).contains(nm) by {
                    if names_image(self@.nodes, visited_set(visited@.take(0))).contains(nm) {
                        let j = choose|j: int|
                            visited_set(visited@.take(0)).contains(j) && 0 <= j
                                < self@.nodes.len() && self@.nodes[j] == nm;
                    }
                }
            }
        }
        while i < n
            invariant
                i <= n,
                visited@.len() == n,
                names_of(out@).to_set() == names_image(
                    self@.nodes,
                    visited_set(visited@.take(i as int)),
                ),
                forall|k2: int, l2: int| 0 <= k2 < l2 < out@.len() ==> out@[k2]@ != out@[l2]@,
            decreases n - i,
        {
            if visited[i] {
                let nm = self.names[i].clone();
                proof {
                    // the new name is not yet in the output
                    assert(!names_of(out@).to_set().contains(self@.nodes[i as int])) by {
                        if names_of(out@).to_set().contains(self@.nodes[i as int]) {
                            let j = choose|j: int|
                                visited_set(visited@.take(i as int)).contains(j) && 0 <= j
                                    < self@.nodes.len() && self@.nodes[j] == self@.nodes[i as int];
                            assert(j < i);
                            assert(false);
                        }
                    }
                }
                let ghost os0 = out@;
                out.push(nm);
                proof {
                    assert(out@ == os0.push(nm));
                    assert(nm@ == self@.nodes[i as int]);
                    assert(visited_set(visited@.take(i as int + 1)) =~= visited_set(
                        visited@.take(i as int),
                    ).insert(i as int));
                    assert(names_of(out@) =~= names_of(os0).push(self@.nodes[i as int]));
                    assert forall|nm2: Seq<char>| names_of(out@).to_set().contains(nm2) implies
                        names_image(
                        self@.nodes,
                        visited_set(visited@.take(i as int + 1)),
                    ).contains(nm2) by {
                        lemma_push_contains(names_of(os0), self@.nodes[i as int], nm2);
                        if names_of(os0).contains(nm2) {
                            assert(names_of(os0).to_set().contains(nm2));
                            let j = choose|j: int|
                                visited_set(visited@.take(i as int)).contains(j) && 0 <= j
                                    < self@.nodes.len() && self@.nodes[j] == nm2;
                            assert(visited_set(visited@.take(i as int + 1)).contains(j));
                        } else {
                            assert(nm2 == self@.nodes[i as int]);
                            assert(visited_set(visited@.take(i as int + 1)).contains(i as int));
                        }
                    }
                    assert forall|nm2: Seq<char>|
                        names_image(
                            self@.nodes,
                            visited_set(visited@.take(i as int + 1)),
                        ).contains(nm2) implies names_of(out@).to_set().contains(nm2) by {
                        let j = choose|j: int|
                            visited_set(visited@.take(i as int + 1)).contains(j) && 0 <= j
                                < self@.nodes.len() && self@.nodes[j] == nm2;
                        lemma_push_contains(names_of(os0), self@.nodes[i as int], nm2);
                        if j < i {
                            assert(visited_set(visited@.take(i as int)).contains(j));
                            assert(names_image(
                                self@.nodes,
                                visited_set(visited@.take(i as int)),
                            ).contains(nm2));
                            assert(names_of(os0).to_set().contains(nm2));
                            assert(names_of(os0).contains(nm2));
                        } else {
                            assert(j == i);
                            assert(nm2 == self@.nodes[i as int]);
                        }
                        assert(names_of(out@).contains(nm2));
                    }
                    assert(names_of(out@).to_set() =~= names_image(
                        self@.nodes,
                        visited_set(visited@.take(i as int + 1)),
                    ));
                    // uniqueness of the output names
                    assert forall|k2: int, l2: int|
                        0 <= k2 < l2 < out@.len() implies out@[k2]@ != out@[l2]@ by {
                        if l2 < out@.len() - 1 {
                            assert(os0[k2] == out@[k2]);
                            assert(os0[l2] == out@[l2]);
                        } else {
                            assert(out@[l2]@ == self@.nodes[i as int]);
                            assert(out@[k2] == os0[k2]);
                            assert(names_of(os0)[k2] == os0[k2]@);
                            assert(names_of(os0).contains(os0[k2]@));
                            assert(names_of(os0).to_set().contains(out@[k2]@));
                        }
                    }
                }
            } else {
                proof {
                    assert(visited_set(visited@.take(i as int + 1)) =~= visited_set(
                        visited@.take(i as int),
                    ));
                }
            }
            i += 1;
        }
        proof {
            assert(visited@.take(n as int) =~= visited@);
            lemma_reach_image(*self, si as int, max_depth as nat);
            assert(self@.nodes[si as int] == caller@);
            assert(self@.nodes.contains(caller@));
            assert(names_of(out@).to_set() == reachable_within(self@, caller@, max_depth as nat));
        }
        out
    }
}

/// One breadth-first expansion step: every name an edge leads to from `s`.
pub open spec fn step_set(edges: Seq<(Seq<char>, Seq<char>)>, s: Set<Seq<char>>) -> Set<Seq<char>> {
    Set::new(
        |b: Seq<char>| exists|a: Seq<char>| s.contains(a) && #[trigger] edges.contains((a, b)),
    )
}

/// The names reachable from `start` along `edges` by a path of at most
/// `depth` edges.
pub open spec fn reach_set(
    edges: Seq<(Seq<char>, Seq<char>)>,
    start: Seq<char>,
    depth: nat,
) -> Set<Seq<char>>
    decreases depth,
{
    if depth == 0 {
        Set::empty().insert(start)
    } else {
        reach_set(edges, start, (depth - 1) as nat).union(
            step_set(edges, reach_set(edges, start, (depth - 1) as nat)),
        )
    }
}

/// The bounded reachability query's value: the names within `depth` edges of
/// `start`, the start included; empty when `start` is not a node.
pub open spec fn reachable_within(g: GraphView, start: Seq<char>, depth: nat) -> Set<Seq<char>> {
    if g.nodes.contains(start) {
        reach_set(g.edges, start, depth)
    } else {
        Set::<Seq<char>>::empty()
    }
}

/// Law: a depth-0 query from a node of the graph yields exactly that node.
pub proof fn lemma_reachable_depth_zero(g: GraphView, start: Seq<char>)
    requires
        g.nodes.contains(start),
    ensures
        reachable_within(g, start, 0) == Set::<Seq<char>>::empty().insert(start),
{
}

/// Law: a query from a name that is not a node yields the empty set,
/// whatever the depth.
pub proof fn lemma_reachable_missing_start(g: GraphView, start: Seq<char>, depth: nat)
    requires
        !g.nodes.contains(start),
    ensures
        reachable_within(g, start, depth) == Set::<Seq<char>>::empty(),
{
}

/// Membership after a push: the old members and the pushed value.
proof fn lemma_push_contains<A>(s: Seq<A>, x: A, y: A)
    ensures
        s.push(x).contains(y) <==> (s.contains(y) || x == y),
{
    if s.contains(y) {
        let i = choose|i: int| 0 <= i < s.len() && s[i] == y;
        assert(s.push(x)[i] == y);
    }
    if x == y {
        assert(s.push(x)[s.len() as int] == y);
    }
    if s.push(x).contains(y) {
        let i = choose|i: int| 0 <= i < s.push(x).len() && s.push(x)[i] == y;
        if i < s.len() {
            assert(s[i] == y);
        }
    }
}

/// Everything recorded is present afterwards: old nodes and edges, the
/// caller (once any callee is recorded), every callee and its edge.
proof fn lemma_record_calls_saturates(g: GraphView, caller: Seq<char>, callees: Seq<Seq<char>>)
    ensures
        forall|n: Seq<char>|
            g.nodes.contains(n) ==> record_calls_spec(g, caller, callees).nodes.contains(n),
        forall|e: (Seq<char>, Seq<char>)|
            g.edges.contains(e) ==> record_calls_spec(g, caller, callees).edges.contains(e),
        callees.len() > 0 ==> record_calls_spec(g, caller, callees).nodes.contains(caller),
        forall|k: int|
            0 <= k < callees.len() ==> record_calls_spec(g, caller, callees).nodes.contains(
                #[trigger] callees[k],
            ) && record_calls_spec(g, caller, callees).edges.contains((caller, callees[k])),
    decreases callees.len(),
{
    if callees.len() == 0 {
    } else {
        lemma_record_calls_saturates(g, caller, callees.drop_last());
        let prev = record_calls_spec(g, caller, callees.drop_last());
        let d = callees.last();
        let nodes1 = ensure_node(prev.nodes, caller);
        let nodes2 = ensure_node(nodes1, d);
        assert forall|n: Seq<char>| prev.nodes.contains(n) implies nodes2.contains(n) by {
            lemma_push_contains(prev.nodes, caller, n);
            lemma_push_contains(nodes1, d, n);
        }
        assert(nodes1.contains(caller)) by {
            lemma_push_contains(prev.nodes, caller, caller);
        }
        assert(nodes2.contains(caller)) by {
            lemma_push_contains(nodes1, d, caller);
        }
        assert(nodes2.contains(d)) by {
            lemma_push_contains(nodes1, d, d);
        }
        assert forall|e: (Seq<char>, Seq<char>)|
            prev.edges.contains(e) implies record_calls_spec(g, caller, callees).edges.contains(
            e,
        ) by {
            lemma_push_contains(prev.edges, (caller, d), e);
        }
        assert(record_calls_spec(g, caller, callees).edges.contains((caller, d))) by {
            lemma_push_contains(prev.edges, (caller, d), (caller, d));
        }
        assert forall|k: int| 0 <= k < callees.len() implies record_calls_spec(
            g,
            caller,
            callees,
        ).nodes.contains(#[trigger] callees[k]) && record_calls_spec(
            g,
            caller,
            callees,
        ).edges.contains((caller, callees[k])) by {
            if k < callees.len() - 1 {
                assert(callees.drop_last()[k] == callees[k]);
            }
        }
    }
}

/// Recording into a graph that already holds every effect changes nothing.
proof fn lemma_record_calls_closed(h: GraphView, caller: Seq<char>, callees: Seq<Seq<char>>)
    requires
        callees.len() > 0 ==> h.nodes.contains(caller),
        forall|k: int|
            0 <= k < callees.len() ==> h.nodes.contains(#[trigger] callees[k]) && h.edges.contains(
                (caller, callees[k]),
            ),
    ensures
        record_calls_spec(h, caller, callees) == h,
    decreases callees.len(),
{
    if callees.len() == 0 {
    } else {
        assert forall|k: int| 0 <= k < callees.drop_last().len() implies h.nodes.contains(
            #[trigger] callees.drop_last()[k],
        ) && h.edges.contains((caller, callees.drop_last()[k])) by {
            assert(callees.drop_last()[k] == callees[k]);
        }
        lemma_record_calls_closed(h, caller, callees.drop_last());
        assert(callees.last() == callees[callees.len() - 1]);
        assert(add_edge_spec(h, caller, callees.last()) =~= h);
    }
}

/// Law: the builder is idempotent — recording the same caller's callees a
/// second time returns the graph unchanged, so no duplicate edges and no
/// change in edge count.
pub proof fn lemma_record_calls_idempotent(g: GraphView, caller: Seq<char>, callees: Seq<Seq<char>>)
    ensures
        record_calls_spec(record_calls_spec(g, caller, callees), caller, callees)
            == record_calls_spec(g, caller, callees),
{
    lemma_record_calls_saturates(g, caller, callees);
    lemma_record_calls_closed(record_calls_spec(g, caller, callees), caller, callees);
}

/// No recorded callee name is excluded.
proof fn lemma_recorded_callees_valid(insts: Seq<Instruction>, prefixes: Seq<Seq<char>>)
    ensures
        forall|k: int|
            0 <= k < recorded_callees(insts, prefixes).len() ==> !excluded_name(
                prefixes,
                #[trigger] recorded_callees(insts, prefixes)[k],
            ),
    decreases insts.len(),
{
    if insts.len() == 0 {
    } else {
        lemma_recorded_callees_valid(insts.drop_last(), prefixes);
        let rest = recorded_callees(insts.drop_last(), prefixes);
        let cur = recorded_callees(insts, prefixes);
        assert forall|k: int| 0 <= k < cur.len() implies !excluded_name(
            prefixes,
            #[trigger] cur[k],
        ) by {
            match static_callee(insts.last()) {
                Some(name) => {
                    if !excluded_name(prefixes, name) {
                        assert(cur == rest.push(name));
                        if k < rest.len() {
                            assert(cur[k] == rest[k]);
                        } else {
                            assert(cur[k] == name);
                        }
                    } else {
                        assert(cur[k] == rest[k]);
                    }
                },
                None => {
                    assert(cur[k] == rest[k]);
                },
            }
        }
    }
}

/// A name that is neither the caller nor a recorded callee is a node, or an
/// edge target, after recording exactly as before.
proof fn lemma_record_calls_untouched(
    g: GraphView,
    caller: Seq<char>,
    callees: Seq<Seq<char>>,
    n: Seq<char>,
)
    requires
        !callees.contains(n),
    ensures
        n != caller ==> record_calls_spec(g, caller, callees).nodes.contains(n) == g.nodes.contains(
            n,
        ),
        forall|a: Seq<char>|
            record_calls_spec(g, caller, callees).edges.contains((a, n)) == g.edges.contains(
                (a, n),
            ),
    decreases callees.len(),
{
    if callees.len() == 0 {
    } else {
        assert(!callees.drop_last().contains(n)) by {
            if callees.drop_last().contains(n) {
                let i = choose|i: int|
                    0 <= i < callees.drop_last().len() && callees.drop_last()[i] == n;
                assert(callees[i] == n);
            }
        }
        lemma_record_calls_untouched(g, caller, callees.drop_last(), n);
        let prev = record_calls_spec(g, caller, callees.drop_last());
        let d = callees.last();
        assert(d != n);
        let nodes1 = ensure_node(prev.nodes, caller);
        if n != caller {
            lemma_push_contains(prev.nodes, caller, n);
            lemma_push_contains(nodes1, d, n);
        }
        assert forall|a: Seq<char>|
            record_calls_spec(g, caller, callees).edges.contains((a, n)) == prev.edges.contains(
            (a, n),
        ) by {
            lemma_push_contains(prev.edges, (caller, d), (a, n));
        }
    }
}

/// Law: recording a function's calls never creates a node for an excluded
/// callee name — afterwards such a name is a node only if it already was
/// one, or is the caller's own name and some call was recorded — and never
/// an edge pointing at such a name.
pub proof fn lemma_record_calls_excluded(
    g: GraphView,
    caller: Seq<char>,
    insts: Seq<Instruction>,
    prefixes: Seq<Seq<char>>,
    n: Seq<char>,
)
    requires
        excluded_name(prefixes, n),
    ensures
        record_calls_spec(g, caller, recorded_callees(insts, prefixes)).nodes.contains(n) <==> (
        g.nodes.contains(n) || (n == caller && recorded_callees(insts, prefixes).len() > 0)),
        forall|a: Seq<char>|
            record_calls_spec(g, caller, recorded_callees(insts, prefixes)).edges.contains((a, n))
                <==> g.edges.contains((a, n)),
{
    let ds = recorded_callees(insts, prefixes);
    lemma_recorded_callees_valid(insts, prefixes);
    assert(!ds.contains(n)) by {
        if ds.contains(n) {
            let k = choose|k: int| 0 <= k < ds.len() && ds[k] == n;
            assert(!excluded_name(prefixes, ds[k]));
        }
    }
    lemma_record_calls_untouched(g, caller, ds, n);
    lemma_record_calls_saturates(g, caller, ds);
    if n == caller && ds.len() == 0 {
        assert(record_calls_spec(g, caller, ds) == g);
    }
}

/// The views of a sequence of strings.
pub open spec fn names_of(v: Seq<String>) -> Seq<Seq<char>> {
    v.map_values(|s: String| s@)
}

// Reachability at the level of node indices, internal to the breadth-first
// search; the public contracts speak of names, and `lemma_reach_image`
// carries the result across.
spec fn istep(edges: Seq<(int, int)>, s: Set<int>) -> Set<int> {
    Set::new(|b: int| exists|a: int| s.contains(a) && #[trigger] edges.contains((a, b)))
}

spec fn ireach(edges: Seq<(int, int)>, start: int, depth: nat) -> Set<int>
    decreases depth,
{
    if depth == 0 {
        Set::empty().insert(start)
    } else {
        ireach(edges, start, (depth - 1) as nat).union(
            istep(edges, ireach(edges, start, (depth - 1) as nat)),
        )
    }
}

spec fn ifrontier(edges: Seq<(int, int)>, start: int, depth: nat) -> Set<int> {
    if depth == 0 {
        Set::empty().insert(start)
    } else {
        ireach(edges, start, depth).difference(ireach(edges, start, (depth - 1) as nat))
    }
}

spec fn iset_of(s: Seq<usize>) -> Set<int> {
    Set::new(|i: int| exists|k: int| 0 <= k < s.len() && (#[trigger] s[k]) as int == i)
}

spec fn visited_set(v: Seq<bool>) -> Set<int> {
    Set::new(|i: int| 0 <= i < v.len() && v[i])
}

spec fn names_image(nodes: Seq<Seq<char>>, s: Set<int>) -> Set<Seq<char>> {
    Set::new(
        |nm: Seq<char>|
            exists|i: int| #[trigger] s.contains(i) && 0 <= i < nodes.len() && nodes[i] == nm,
    )
}

proof fn lemma_iset_push(s: Seq<usize>, x: usize)
    ensures
        iset_of(s.push(x)) == iset_of(s).insert(x as int),
{
    assert forall|i: int| iset_of(s.push(x)).contains(i) implies iset_of(s).insert(
        x as int,
    ).contains(i) by {
        let k = choose|k: int| 0 <= k < s.push(x).len() && (s.push(x)[k]) as int == i;
        if k < s.len() {
            assert(s[k] as int == i);
            assert(iset_of(s).contains(i));
        }
    }
    assert forall|i: int| iset_of(s).insert(x as int).contains(i) implies iset_of(
        s.push(x),
    ).contains(i) by {
        if iset_of(s).contains(i) {
            let k = choose|k: int| 0 <= k < s.len() && (s[k]) as int == i;
            assert(s.push(x)[k] as int == i);
        } else {
            assert(s.push(x)[s.len() as int] as int == x as int);
        }
    }
    assert(iset_of(s.push(x)) =~= iset_of(s).insert(x as int));
}

proof fn lemma_ireach_in_range(g: CallGraph, start: int, d: nat)
    requires
        g.wf(),
        0 <= start < g@.nodes.len(),
    ensures
        forall|i: int|
            #[trigger] ireach(graph_edges(g.graph), start, d).contains(i) ==> 0 <= i
                < g@.nodes.len(),
    decreases d,
{
    if d == 0 {
    } else {
        lemma_ireach_in_range(g, start, (d - 1) as nat);
        let iE = graph_edges(g.graph);
        let prev = ireach(iE, start, (d - 1) as nat);
        assert forall|i: int| #[trigger] ireach(iE, start, d).contains(i) implies 0 <= i
            < g@.nodes.len() by {
            if !prev.contains(i) {
                assert(istep(iE, prev).contains(i));
                let a = choose|a: int| prev.contains(a) && #[trigger] iE.contains((a, i));
                let k = choose|k: int| 0 <= k < iE.len() && iE[k] == (a, i);
                assert(0 <= iE[k].1 < g.node_names().len());
            }
        }
    }
}

/// One breadth-first level: the next reachable set is the current one plus
/// one step from the current frontier alone.
proof fn lemma_frontier_step(edges: Seq<(int, int)>, start: int, d: nat)
    ensures
        ireach(edges, start, (d + 1) as nat) == ireach(edges, start, d).union(
            istep(edges, ifrontier(edges, start, d)),
        ),
{
    let r = ireach(edges, start, d);
    let f = ifrontier(edges, start, d);
    let r1 = ireach(edges, start, (d + 1) as nat);
    assert(r1 == r.union(istep(edges, r)));
    assert forall|b: int| r1.contains(b) implies r.union(istep(edges, f)).contains(b) by {
        if !r.contains(b) {
            assert(istep(edges, r).contains(b));
            let a = choose|a: int| r.contains(a) && #[trigger] edges.contains((a, b));
            if d == 0 {
                assert(f.contains(a));
            } else {
                let rp = ireach(edges, start, (d - 1) as nat);
                if rp.contains(a) {
                    assert(istep(edges, rp).contains(b));
                    assert(ireach(edges, start, d).contains(b));
                    assert(false);
                }
                assert(f.contains(a));
            }
            assert(istep(edges, f).contains(b));
        }
    }
    assert forall|b: int| r.union(istep(edges, f)).contains(b) implies r1.contains(b) by {
        if !r.contains(b) {
            assert(istep(edges, f).contains(b));
            let a = choose|a: int| f.contains(a) && #[trigger] edges.contains((a, b));
            assert(r.contains(a));
            assert(istep(edges, r).contains(b));
        }
    }
    assert(r1 =~= r.union(istep(edges, f)));
}

/// Once one level adds nothing, no later level adds anything.
proof fn lemma_ireach_stable(edges: Seq<(int, int)>, start: int, d: nat, d2: nat)
    requires
        ireach(edges, start, (d + 1) as nat) == ireach(edges, start, d),
        d <= d2,
    ensures
        ireach(edges, start, d2) == ireach(edges, start, d),
    decreases d2 - d,
{
    if d2 == d {
    } else {
        assert(ireach(edges, start, (d + 2) as nat) == ireach(edges, start, (d + 1) as nat)) by {
            let r1 = ireach(edges, start, (d + 1) as nat);
            assert(ireach(edges, start, (d + 2) as nat) == r1.union(istep(edges, r1)));
            assert(ireach(edges, start, (d + 1) as nat) == ireach(edges, start, d).union(
                istep(edges, ireach(edges, start, d)),
            ));
        }
        lemma_ireach_stable(edges, start, (d + 1) as nat, d2);
    }
}

/// The names of the index-reachable set are the name-reachable set.
proof fn lemma_reach_image(g: CallGraph, start: int, d: nat)
    requires
        g.wf(),
        0 <= start < g@.nodes.len(),
    ensures
        names_image(g@.nodes, ireach(graph_edges(g.graph), start, d)) == reach_set(
            g@.edges,
            g@.nodes[start],
            d,
        ),
    decreases d,
{
    let nodes = g@.nodes;
    let iE = graph_edges(g.graph);
    let nE = g@.edges;
    assert(nodes == g.node_names());
    if d == 0 {
        assert forall|nm: Seq<char>| names_image(nodes, ireach(iE, start, 0)).contains(nm) implies
            Set::<Seq<char>>::empty().insert(nodes[start]).contains(nm) by {
            let i = choose|i: int|
                ireach(iE, start, 0).contains(i) && 0 <= i < nodes.len() && nodes[i] == nm;
            assert(i == start);
        }
        assert(ireach(iE, start, 0).contains(start));
        assert(names_image(nodes, ireach(iE, start, 0)).contains(nodes[start]));
        assert(names_image(nodes, ireach(iE, start, 0)) =~= reach_set(nE, nodes[start], 0));
    } else {
        lemma_reach_image(g, start, (d - 1) as nat);
        lemma_ireach_in_range(g, start, (d - 1) as nat);
        let irp = ireach(iE, start, (d - 1) as nat);
        let nrp = reach_set(nE, nodes[start], (d - 1) as nat);
        assert forall|nm: Seq<char>| names_image(nodes, ireach(iE, start, d)).contains(nm) implies
            reach_set(nE, nodes[start], d).contains(nm) by {
            let i = choose|i: int|
                ireach(iE, start, d).contains(i) && 0 <= i < nodes.len() && nodes[i] == nm;
            if irp.contains(i) {
                assert(names_image(nodes, irp).contains(nm));
                assert(nrp.contains(nm));
            } else {
                assert(istep(iE, irp).contains(i));
                let a = choose|a: int| irp.contains(a) && #[trigger] iE.contains((a, i));
                assert(0 <= a < nodes.len());
                assert(names_image(nodes, irp).contains(nodes[a]));
                assert(nrp.contains(nodes[a]));
                let k = choose|k: int| 0 <= k < iE.len() && iE[k] == (a, i);
                assert(nE[k] == (nodes[iE[k].0], nodes[iE[k].1]));
                assert(nE.contains((nodes[a], nm)));
                assert(step_set(nE, nrp).contains(nm));
            }
        }
        assert forall|nm: Seq<char>| reach_set(nE, nodes[start], d).contains(nm) implies
            names_image(nodes, ireach(iE, start, d)).contains(nm) by {
            if nrp.contains(nm) {
                assert(names_image(nodes, irp).contains(nm));
                let i = choose|i: int| irp.contains(i) && 0 <= i < nodes.len() && nodes[i] == nm;
                assert(ireach(iE, start, d).contains(i));
                assert(names_image(nodes, ireach(iE, start, d)).contains(nm));
            } else {
                assert(step_set(nE, nrp).contains(nm));
                let na = choose|na: Seq<char>| nrp.contains(na) && #[trigger] nE.contains((na, nm));
                assert(names_image(nodes, irp).contains(na));
                let a = choose|a: int| irp.contains(a) && 0 <= a < nodes.len() && nodes[a] == na;
                let k = choose|k: int| 0 <= k < nE.len() && nE[k] == (na, nm);
                let e = iE[k];
                assert(nE[k] == (nodes[e.0], nodes[e.1]));
                assert(0 <= e.0 < nodes.len() && 0 <= e.1 < nodes.len());
                assert(e.0 == a);
                assert(iE.contains((a, e.1)));
                assert(istep(iE, irp).contains(e.1));
                assert(ireach(iE, start, d).contains(e.1));
                assert(nodes[e.1] == nm);
                assert(names_image(nodes, ireach(iE, start, d)).contains(nm));
            }
        }
        assert(names_image(nodes, ireach(iE, start, d)) =~= reach_set(nE, nodes[start], d));
    }
}

/// Recorded callees distribute over concatenation of instruction streams.
pub proof fn lemma_recorded_concat(
    a: Seq<Instruction>,
    b: Seq<Instruction>,
    prefixes: Seq<Seq<char>>,
)
    ensures
        recorded_callees(a + b, prefixes) == recorded_callees(a, prefixes) + recorded_callees(
            b,
            prefixes,
        ),
    decreases b.len(),
{
    if b.len() == 0 {
        assert(a + b =~= a);
        assert(recorded_callees(a, prefixes) + recorded_callees(b, prefixes) =~= recorded_callees(
            a,
            prefixes,
        ));
    } else {
        lemma_recorded_concat(a, b.drop_last(), prefixes);
        assert((a + b).drop_last() =~= a + b.drop_last());
        assert((a + b).last() == b.last());
        assert(recorded_callees(a + b, prefixes) =~= recorded_callees(a, prefixes)
            + recorded_callees(b, prefixes));
    }
}

/// Recording one more callee is one more edge insertion.
pub proof fn lemma_record_calls_push(
    g: GraphView,
    caller: Seq<char>,
    callees: Seq<Seq<char>>,
    d: Seq<char>,
)
    ensures
        record_calls_spec(g, caller, callees.push(d)) == add_edge_spec(
            record_calls_spec(g, caller, callees),
            caller,
            d,
        ),
{
    assert(callees.push(d).drop_last() =~= callees);
    assert(callees.push(d).last() == d);
}

/// Recording callees never shrinks the graph.
pub proof fn lemma_record_calls_grows(g: GraphView, caller: Seq<char>, callees: Seq<Seq<char>>)
    ensures
        g.nodes.len() <= record_calls_spec(g, caller, callees).nodes.len(),
        g.edges.len() <= record_calls_spec(g, caller, callees).edges.len(),
    decreases callees.len(),
{
    if callees.len() == 0 {
    } else {
        lemma_record_calls_grows(g, caller, callees.drop_last());
    }
}

/// Recording a prefix of the callees yields a graph no larger than recording
/// them all.
pub proof fn lemma_record_calls_prefix(
    g: GraphView,
    caller: Seq<char>,
    callees: Seq<Seq<char>>,
    i: int,
)
    requires
        0 <= i <= callees.len(),
    ensures
        record_calls_spec(g, caller, callees.take(i)).nodes.len() <= record_calls_spec(
            g,
            caller,
            callees,
        ).nodes.len(),
        record_calls_spec(g, caller, callees.take(i)).edges.len() <= record_calls_spec(
            g,
            caller,
            callees,
        ).edges.len(),
    decreases callees.len(),
{
    if i == callees.len() {
        assert(callees.take(i) =~= callees);
    } else {
        assert(callees.drop_last().take(i) =~= callees.take(i));
        lemma_record_calls_prefix(g, caller, callees.drop_last(), i);
    }
}

} // verus!
