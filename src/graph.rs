use vstd::prelude::*;

use petgraph::graph::NodeIndex;
use petgraph::visit::EdgeRef;

use crate::token::{heads_in_range, Token};

verus! {

#[verifier::external_type_specification]
#[verifier::external_body]
#[verifier::reject_recursive_types(N)]
#[verifier::reject_recursive_types(E)]
#[verifier::reject_recursive_types(Ty)]
#[verifier::reject_recursive_types(Ix)]
pub struct ExGraph<N, E, Ty, Ix>(petgraph::Graph<N, E, Ty, Ix>);

#[verifier::external_type_specification]
#[verifier::external_body]
pub struct ExDirected(petgraph::Directed);

/// The largest number of nodes, and of edges, that the graph can hold.
pub const MAX_GRAPH_SIZE: usize = 0xffff_ffff;

/// A labelled edge `(head, dependent, relation)` between node offsets.
pub type LabeledEdge = (usize, usize, Option<String>);

/// The node weights of a graph, in the order the nodes were added.
pub uninterp spec fn graph_nodes(g: petgraph::Graph<usize, Option<String>>) -> Seq<usize>;

/// The edges of a graph, by edge index, as `(source, target, weight)`.
pub uninterp spec fn graph_edges(g: petgraph::Graph<usize, Option<String>>) -> Seq<LabeledEdge>;

/// The graph was only ever added to: made empty by `Graph::new` and grown by
/// `add_node` and `add_edge` alone, with nothing removed.
pub uninterp spec fn graph_grown_only(g: petgraph::Graph<usize, Option<String>>) -> bool;

/// What `tarjan_scc` returns, as node offsets, for the graph with nodes
/// `0..n` that was grown by adding these edges in this order.
pub uninterp spec fn tarjan_components(n: nat, edges: Seq<LabeledEdge>) -> Seq<Seq<usize>>;

/// The direction in which edges are scanned from a node.
#[derive(Clone, Copy, Debug, PartialEq, Eq)]
pub enum Direction {
    /// Edges that leave the node.
    Outgoing,
    /// Edges that enter the node.
    Incoming,
}

/// Whether `e` leaves (`Outgoing`) or enters (`Incoming`) `node`.
pub open spec fn incident(e: LabeledEdge, node: int, dir: Direction) -> bool {
    match dir {
        Direction::Outgoing => e.0 == node,
        Direction::Incoming => e.1 == node,
    }
}

/// Relies on `Graph::new` of petgraph: a graph without nodes or edges.
#[verifier::external_body]
fn new_graph() -> (g: petgraph::Graph<usize, Option<String>>)
    ensures
        graph_nodes(g) == Seq::<usize>::empty(),
        graph_edges(g) == Seq::<LabeledEdge>::empty(),
        graph_grown_only(g),
{
    petgraph::Graph::new()
}

/// Relies on `Graph::add_node` of petgraph: the node is appended and its
/// index is the former node count; it panics only at the index type's limit.
#[verifier::external_body]
fn add_graph_node(g: &mut petgraph::Graph<usize, Option<String>>, weight: usize) -> (r: usize)
    requires
        graph_nodes(*old(g)).len() < MAX_GRAPH_SIZE,
    ensures
        r == graph_nodes(*old(g)).len(),
        graph_nodes(*final(g)) == graph_nodes(*old(g)).push(weight),
        graph_edges(*final(g)) == graph_edges(*old(g)),
        graph_grown_only(*final(g)) == graph_grown_only(*old(g)),
{
    g.add_node(weight).index()
}

/// Relies on `Graph::add_edge` of petgraph: the edge is appended; it panics
/// only on a missing node or at the index type's limit.
#[verifier::external_body]
fn add_graph_edge(
    g: &mut petgraph::Graph<usize, Option<String>>,
    a: usize,
    b: usize,
    weight: Option<String>,
)
    requires
        a < graph_nodes(*old(g)).len(),
        b < graph_nodes(*old(g)).len(),
        graph_edges(*old(g)).len() < MAX_GRAPH_SIZE,
    ensures
        graph_nodes(*final(g)) == graph_nodes(*old(g)),
        graph_edges(*final(g)) == graph_edges(*old(g)).push((a, b, weight)),
        graph_grown_only(*final(g)) == graph_grown_only(*old(g)),
{
    g.add_edge(NodeIndex::new(a), NodeIndex::new(b), weight);
}

/// Relies on `Graph::node_count` of petgraph.
#[verifier::external_body]
fn graph_node_count(g: &petgraph::Graph<usize, Option<String>>) -> (r: usize)
    ensures
        r == graph_nodes(*g).len(),
{
    g.node_count()
}

/// Relies on indexing a petgraph `Graph` by a node: the node's weight.
#[verifier::external_body]
fn graph_node_weight(g: &petgraph::Graph<usize, Option<String>>, node: usize) -> (r: usize)
    requires
        node < graph_nodes(*g).len(),
    ensures
        r == graph_nodes(*g)[node as int],
{
    g[NodeIndex::new(node)]
}

/// Relies on `Graph::edges_directed` of petgraph: each edge that leaves or
/// enters `node`, as `(edge index, source, target, weight)`. `add_edge`
/// puts each new edge at the front of its nodes' edge lists, and only
/// `remove_edge` and `remove_node` relink them, so on a graph that was only
/// added to the edges come in descending index order.
#[verifier::external_body]
fn graph_edges_at(g: &petgraph::Graph<usize, Option<String>>, node: usize, dir: Direction) -> (r:
    Vec<(usize, usize, usize, Option<String>)>)
    requires
        node < graph_nodes(*g).len(),
    ensures
        forall|k: int|
            0 <= k < r.len() ==> {
                &&& r[k].0 < graph_edges(*g).len()
                &&& graph_edges(*g)[r[k].0 as int] == (r[k].1, r[k].2, r[k].3)
                &&& incident(graph_edges(*g)[r[k].0 as int], node as int, dir)
            },
        graph_grown_only(*g) ==> forall|k1: int, k2: int| 0 <= k1 < k2 < r.len() ==> r[k1].0 > r[k2].0,
        forall|e: int|
            0 <= e < graph_edges(*g).len() && incident(graph_edges(*g)[e], node as int, dir)
                ==> exists|k: int| 0 <= k < r.len() && r[k].0 == e,
{
    let d = match dir {
        Direction::Outgoing => petgraph::Direction::Outgoing,
        Direction::Incoming => petgraph::Direction::Incoming,
    };
    g.edges_directed(NodeIndex::new(node), d).map(
        |e| (e.id().index(), e.source().index(), e.target().index(), e.weight().clone()),
    ).collect()
}

/// The edges that the tokens of `s` give in the plain or projective analysis:
/// one edge `(h - 1, i, relation)` for each token `i` with a head `h` other
/// than the root, in token order.
pub open spec fn sentence_edges(s: Seq<Token>, projective: bool) -> Seq<LabeledEdge>
    decreases s.len(),
{
    if s.len() == 0 {
        Seq::empty()
    } else {
        let prev = sentence_edges(s.drop_last(), projective);
        let t = s.last();
        match t.head_of(projective) {
            Some(h) => if h != 0 {
                prev.push(((h - 1) as usize, (s.len() - 1) as usize, t.rel_of(projective)))
            } else {
                prev
            },
            None => prev,
        }
    }
}

/// A node of a dependency graph: the token and its offset in the sentence.
#[derive(Debug)]
pub struct DependencyNode<'a> {
    pub token: &'a Token,
    pub offset: usize,
}

/// A directed graph over the tokens of a sentence, with an edge from each
/// head to its dependent labelled by the relation.
pub struct DependencyGraph<'a> {
    sentence: &'a [Token],
    graph: petgraph::Graph<usize, Option<String>>,
}

impl<'a> View for DependencyGraph<'a> {
    /// The sentence, the node weights, the edges, and whether the graph was
    /// only ever added to.
    type V = (Seq<Token>, Seq<usize>, Seq<LabeledEdge>, bool);

    closed spec fn view(&self) -> Self::V {
        (self.sentence@, graph_nodes(self.graph), graph_edges(self.graph), graph_grown_only(self.graph))
    }
}

impl<'a> DependencyGraph<'a> {
    /// The edges of the graph.
    pub open spec fn edges(&self) -> Seq<LabeledEdge> {
        self@.2
    }

    /// The number of nodes of the graph.
    pub open spec fn node_count_spec(&self) -> nat {
        self@.1.len()
    }


    /// One node per token, whose weight is its offset, and edges between
    /// nodes, in a graph that was only ever added to.
    pub open spec fn wf(&self) -> bool {
        &&& self@.3
        &&& self@.1 == Seq::new(self@.0.len(), |i: int| i as usize)
        &&& self@.0.len() < MAX_GRAPH_SIZE
        &&& forall|k: int|
            0 <= k < self.edges().len() ==> #[trigger] self.edges()[k].0 < self@.0.len()
                && self.edges()[k].1 < self@.0.len()
    }

    /// The number of nodes.
    pub fn node_count(&self) -> (r: usize)
        ensures
            r == self.node_count_spec(),
    {
        graph_node_count(&self.graph)
    }

    /// The sentence the graph was built from.
    pub fn sentence(&self) -> (r: &'a [Token])
        ensures
            r@ == self@.0,
    {
        self.sentence
    }

    /// The node at `index`: its token and offset.
    pub fn node(&self, index: usize) -> (r: DependencyNode<'a>)
        requires
            self.wf(),
            index < self.node_count_spec(),
        ensures
            r.offset == index,
            *r.token == self@.0[index as int],
    {
        let offset = graph_node_weight(&self.graph, index);
        DependencyNode { token: &self.sentence[offset], offset }
    }
}

fn clone_label(label: &Option<String>) -> (r: Option<String>)
    ensures
        r == *label,
{
    match label {
        Some(s) => Some(s.clone()),
        None => None,
    }
}

proof fn lemma_push_edge_in_bounds(edges: Seq<LabeledEdge>, e: LabeledEdge, n: int)
    requires
        forall|k: int| 0 <= k < edges.len() ==> #[trigger] edges[k].0 < n && edges[k].1 < n,
        e.0 < n,
        e.1 < n,
    ensures
        forall|k: int|
            0 <= k < edges.push(e).len() ==> #[trigger] edges.push(e)[k].0 < n && edges.push(e)[k].1 < n,
{
    assert forall|k: int| 0 <= k < edges.push(e).len() implies #[trigger] edges.push(e)[k].0 < n
        && edges.push(e)[k].1 < n by {
        if k < edges.len() {
            assert(edges.push(e)[k] == edges[k]);
        }
    }
}

/// Builds the dependency graph of `sentence` from its plain or projective
/// heads: one node per token, weighted by its offset, and an edge from node
/// `h - 1` to node `i` for each token `i` whose head `h` is neither absent
/// nor the root.
pub fn sentence_to_graph(sentence: &[Token], projective: bool) -> (r: DependencyGraph<'_>)
    requires
        sentence@.len() < MAX_GRAPH_SIZE,
        heads_in_range(sentence@, projective),
    ensures
        r@.0 == sentence@,
        r.wf(),
        r@.1.len() == sentence@.len(),
        forall|i: int| 0 <= i < sentence@.len() ==> r@.1[i] == i,
        r.edges() == sentence_edges(sentence@, projective),
{
    let n = sentence.len();
    let mut g = new_graph();
    let mut i: usize = 0;
    while i < n
        invariant
            n == sentence@.len(),
            n < MAX_GRAPH_SIZE,
            i <= n,
            graph_nodes(g) == Seq::new(i as nat, |k: int| k as usize),
            graph_grown_only(g),
            graph_edges(g) == Seq::<LabeledEdge>::empty(),
        decreases n - i,
    {
        add_graph_node(&mut g, i);
        assert(graph_nodes(g) =~= Seq::new((i + 1) as nat, |k: int| k as usize));
        i = i + 1;
    }
    let mut idx: usize = 0;
    while idx < n
        invariant
            n == sentence@.len(),
            n < MAX_GRAPH_SIZE,
            idx <= n,
            heads_in_range(sentence@, projective),
            graph_nodes(g) == Seq::new(n as nat, |k: int| k as usize),
            graph_grown_only(g),
            graph_edges(g) == sentence_edges(sentence@.take(idx as int), projective),
            graph_edges(g).len() <= idx,
            forall|k: int|
                0 <= k < graph_edges(g).len() ==> #[trigger] graph_edges(g)[k].0 < n
                    && graph_edges(g)[k].1 < n,
        decreases n - idx,
    {
        let token = &sentence[idx];
        let head = if projective {
            token.p_head
        } else {
            token.head
        };
        let rel = if projective {
            clone_label(&token.p_head_rel)
        } else {
            clone_label(&token.head_rel)
        };
        proof {
            assert(sentence@.take(idx + 1).drop_last() =~= sentence@.take(idx as int));
            assert(sentence@.take(idx + 1).last() == sentence@[idx as int]);
            assert(sentence@[idx as int].head_of(projective) == head);
            assert(sentence@[idx as int].rel_of(projective) == rel);
        }
        if let Some(head) = head {
            if head != 0 {
                assert(head <= n);
                let ghost before = graph_edges(g);
                let ghost e: LabeledEdge = ((head - 1) as usize, idx, rel);
                add_graph_edge(&mut g, head - 1, idx, rel);
                proof {
                    lemma_push_edge_in_bounds(before, e, n as int);
                }
            }
        }
        idx = idx + 1;
    }
    assert(sentence@.take(n as int) =~= sentence@);
    DependencyGraph { sentence, graph: g }
}

/// The end of `e` other than the scanned node: the target of an outgoing
/// edge, the source of an incoming one.
pub open spec fn far_end(e: LabeledEdge, dir: Direction) -> usize {
    match dir {
        Direction::Outgoing => e.1,
        Direction::Incoming => e.0,
    }
}

/// Edge `e` is the first edge at `node` in the graph's order of iteration
/// (the most recently added first) whose label `pred` accepts.
pub open spec fn is_first_match<F: Fn(&Option<String>) -> bool>(
    edges: Seq<LabeledEdge>,
    node: int,
    dir: Direction,
    pred: F,
    e: int,
) -> bool {
    &&& 0 <= e < edges.len()
    &&& incident(edges[e], node, dir)
    &&& pred.ensures((&edges[e].2,), true)
    &&& forall|e2: int|
        e < e2 < edges.len() && #[trigger] incident(edges[e2], node, dir) ==> pred.ensures(
            (&edges[e2].2,),
            false,
        )
}

/// Scans the edges at `index` in direction `direction`, the most recently
/// added first, and returns the far end of the first one whose label
/// satisfies `predicate`, or `None` if no label does.
pub fn first_matching_edge<F>(
    graph: &DependencyGraph<'_>,
    index: usize,
    direction: Direction,
    predicate: F,
) -> (r: Option<usize>) where F: Fn(&Option<String>) -> bool
    requires
        graph.wf(),
        index < graph.node_count_spec(),
        forall|w: &Option<String>| predicate.requires((w,)),
    ensures
        match r {
            Some(x) => exists|e: int|
                is_first_match(graph.edges(), index as int, direction, predicate, e) && far_end(
                    #[trigger] graph.edges()[e],
                    direction,
                ) == x,
            None => forall|e: int|
                0 <= e < graph.edges().len() && #[trigger] incident(
                    graph.edges()[e],
                    index as int,
                    direction,
                ) ==> predicate.ensures((&graph.edges()[e].2,), false),
        },
{
    let at = graph_edges_at(&graph.graph, index, direction);
    let ghost edges = graph.edges();
    let mut k: usize = 0;
    while k < at.len()
        invariant
            edges == graph.edges(),
            forall|w: &Option<String>| predicate.requires((w,)),
            k <= at.len(),
            forall|j: int|
                0 <= j < at.len() ==> {
                    &&& at[j].0 < edges.len()
                    &&& edges[at[j].0 as int] == (at[j].1, at[j].2, at[j].3)
                    &&& incident(edges[at[j].0 as int], index as int, direction)
                },
            forall|j1: int, j2: int| 0 <= j1 < j2 < at.len() ==> at[j1].0 > at[j2].0,
            forall|e: int|
                0 <= e < edges.len() && incident(edges[e], index as int, direction) ==> exists|
                    j: int,
                | 0 <= j < at.len() && at[j].0 == e,
            forall|j: int| 0 <= j < k ==> predicate.ensures((&edges[at[j].0 as int].2,), false),
        decreases at.len() - k,
    {
        let entry = &at[k];
        if predicate(&entry.3) {
            let x = match direction {
                Direction::Outgoing => entry.2,
                Direction::Incoming => entry.1,
            };
            proof {
                let e = at[k as int].0 as int;
                assert forall|e2: int|
                    e < e2 < edges.len() && #[trigger] incident(
                        edges[e2],
                        index as int,
                        direction,
                    ) implies predicate.ensures((&edges[e2].2,), false) by {
                    let j2 = choose|j: int| 0 <= j < at.len() && at[j].0 == e2;
                    if j2 >= k {
                        if j2 > k {
                            assert(at[k as int].0 > at[j2].0);
                        }
                    }
                }
                assert(is_first_match(edges, index as int, direction, predicate, e));
                assert(far_end(edges[e], direction) == x);
            }
            return Some(x);
        }
        k = k + 1;
    }
    proof {
        assert forall|e: int|
            0 <= e < edges.len() && #[trigger] incident(
                edges[e],
                index as int,
                direction,
            ) implies predicate.ensures((&edges[e].2,), false) by {
            let j = choose|j: int| 0 <= j < at.len() && at[j].0 == e;
        }
    }
    None
}

/// There is an edge from `a` to `b`.
pub open spec fn has_edge(edges: Seq<LabeledEdge>, a: int, b: int) -> bool {
    exists|k: int| 0 <= k < edges.len() && #[trigger] edges[k].0 == a && edges[k].1 == b
}

/// `p` is a walk: a nonempty sequence of nodes, each joined to the next by an edge.
pub open spec fn is_walk(edges: Seq<LabeledEdge>, p: Seq<int>) -> bool {
    &&& p.len() >= 1
    &&& forall|k: int| 0 <= k < p.len() - 1 ==> has_edge(edges, #[trigger] p[k], p[k + 1])
}

/// There is a walk from `a` to `b` (of no edge where `a == b`).
pub open spec fn reaches(edges: Seq<LabeledEdge>, a: int, b: int) -> bool {
    exists|p: Seq<int>| #[trigger] is_walk(edges, p) && p[0] == a && p.last() == b
}

/// Node `v` belongs to one of `comps`.
pub open spec fn in_some_component(comps: Seq<Seq<usize>>, v: int) -> bool {
    exists|i: int, j: int| 0 <= i < comps.len() && 0 <= j < comps[i].len() && #[trigger] comps[i][j] == v
}

/// `comps` are the strongly connected components of the graph with nodes
/// `0..n` and the given edges: nonempty, each node in exactly one of them,
/// the nodes of one component reach each other, and nodes of two different
/// components do not.
pub open spec fn is_scc_decomposition(edges: Seq<LabeledEdge>, n: int, comps: Seq<Seq<usize>>) -> bool {
    &&& forall|i: int| 0 <= i < comps.len() ==> #[trigger] comps[i].len() > 0
    &&& forall|i: int, j: int|
        0 <= i < comps.len() && 0 <= j < comps[i].len() ==> #[trigger] comps[i][j] < n
    &&& forall|v: int| 0 <= v < n ==> #[trigger] in_some_component(comps, v)
    &&& forall|i1: int, j1: int, i2: int, j2: int|
        0 <= i1 < comps.len() && 0 <= j1 < comps[i1].len() && 0 <= i2 < comps.len() && 0 <= j2
            < comps[i2].len() && #[trigger] comps[i1][j1] == #[trigger] comps[i2][j2] ==> i1 == i2
            && j1 == j2
    &&& forall|i: int, j1: int, j2: int|
        0 <= i < comps.len() && 0 <= j1 < comps[i].len() && 0 <= j2 < comps[i].len() ==> reaches(
            edges,
            #[trigger] comps[i][j1] as int,
            #[trigger] comps[i][j2] as int,
        )
    &&& forall|i1: int, j1: int, i2: int, j2: int|
        0 <= i1 < comps.len() && 0 <= j1 < comps[i1].len() && 0 <= i2 < comps.len() && 0 <= j2
            < comps[i2].len() && i1 != i2 ==> !(reaches(
            edges,
            #[trigger] comps[i1][j1] as int,
            #[trigger] comps[i2][j2] as int,
        ) && reaches(edges, comps[i2][j2] as int, comps[i1][j1] as int))
}

/// The views of the components.
pub open spec fn components_view(comps: Seq<Vec<usize>>) -> Seq<Seq<usize>> {
    comps.map_values(|c: Vec<usize>| c@)
}

/// Relies on `petgraph::algo::tarjan_scc`: the strongly connected components
/// of the graph, each as the offsets of its nodes. Tarjan's algorithm visits
/// the nodes in index order and their neighbours in the order of the edge
/// lists, which on a graph that was only added to follow from the edges.
#[verifier::external_body]
fn strongly_connected_components(g: &petgraph::Graph<usize, Option<String>>) -> (r: Vec<
    Vec<usize>,
>)
    ensures
        is_scc_decomposition(graph_edges(*g), graph_nodes(*g).len() as int, components_view(r@)),
        graph_grown_only(*g) ==> components_view(r@) == tarjan_components(
            graph_nodes(*g).len(),
            graph_edges(*g),
        ),
{
    petgraph::algo::tarjan_scc(g).into_iter().map(
        |c| c.into_iter().map(|v| v.index()).collect(),
    ).collect()
}

/// A component is reported as a cycle when it has more than one node.
pub open spec fn is_cyclic(edges: Seq<LabeledEdge>, c: Seq<usize>) -> bool {
    c.len() > 1
}

/// The components among `comps` that are cycles, in their order.
pub open spec fn cycles_of(edges: Seq<LabeledEdge>, comps: Seq<Seq<usize>>) -> Seq<Seq<usize>> {
    comps.filter(|c: Seq<usize>| is_cyclic(edges, c))
}

/// `cycles` are exactly the cyclic strongly connected components of the
/// graph with nodes `0..n` and the given edges, in some order of components.
pub open spec fn is_cycle_report(edges: Seq<LabeledEdge>, n: int, cycles: Seq<Seq<usize>>) -> bool {
    exists|comps: Seq<Seq<usize>>|
        #[trigger] is_scc_decomposition(edges, n, comps) && cycles == cycles_of(edges, comps)
}

fn copy_nodes(c: &Vec<usize>) -> (r: Vec<usize>)
    ensures
        r@ == c@,
{
    let mut r: Vec<usize> = Vec::new();
    let mut k: usize = 0;
    while k < c.len()
        invariant
            k <= c.len(),
            r@ == c@.take(k as int),
        decreases c.len() - k,
    {
        r.push(c[k]);
        assert(r@ =~= c@.take(k + 1));
        k = k + 1;
    }
    assert(c@.take(c.len() as int) =~= c@);
    r
}

/// The cycles of the graph: its strongly connected components of more than
/// one node, in the order `tarjan_scc` gives them. A node with an edge to
/// itself forms a component of one node and is not reported.
pub fn find_cycles(graph: &DependencyGraph<'_>) -> (r: Vec<Vec<usize>>)
    ensures
        is_cycle_report(graph.edges(), graph.node_count_spec() as int, components_view(r@)),
        graph.wf() ==> components_view(r@) == cycles_of(
            graph.edges(),
            tarjan_components(graph.node_count_spec(), graph.edges()),
        ),
{
    let comps = strongly_connected_components(&graph.graph);
    let ghost edges = graph.edges();
    let ghost all = components_view(comps@);
    let ghost n = graph.node_count_spec() as int;
    let mut cycles: Vec<Vec<usize>> = Vec::new();
    let mut i: usize = 0;
    while i < comps.len()
        invariant
            edges == graph.edges(),
            n == graph.node_count_spec(),
            all == components_view(comps@),
            is_scc_decomposition(edges, n, all),
            graph.wf() ==> all == tarjan_components(graph.node_count_spec(), edges),
            i <= comps.len(),
            components_view(cycles@) == cycles_of(edges, all.take(i as int)),
        decreases comps.len() - i,
    {
        let c = &comps[i];
        assert(all[i as int] == c@);
        let keep = c.len() > 1;
        proof {
            assert(all.take(i + 1).drop_last() =~= all.take(i as int));
            assert(all.take(i + 1).last() == c@);
            assert(keep == is_cyclic(edges, c@));
            reveal(Seq::filter);
        }
        let ghost before = cycles@;
        if keep {
            cycles.push(copy_nodes(c));
            proof {
                assert(components_view(cycles@) =~= components_view(before).push(c@));
                assert(cycles_of(edges, all.take(i + 1)) == cycles_of(edges, all.take(i as int)).push(c@));
            }
        } else {
            assert(cycles_of(edges, all.take(i + 1)) == cycles_of(edges, all.take(i as int)));
        }
        i = i + 1;
    }
    assert(all.take(comps.len() as int) =~= all);
    cycles
}

/// Builds the graph of `sentence` from the plain or projective heads and
/// returns its cycles.
pub fn check_cycles(sentence: &[Token], projective: bool) -> (r: Vec<Vec<usize>>)
    requires
        sentence@.len() < MAX_GRAPH_SIZE,
        heads_in_range(sentence@, projective),
    ensures
        is_cycle_report(sentence_edges(sentence@, projective), sentence@.len() as int, components_view(r@)),
        components_view(r@) == cycles_of(
            sentence_edges(sentence@, projective),
            tarjan_components(sentence@.len(), sentence_edges(sentence@, projective)),
        ),
        heads_precede(sentence@, projective) ==> r.len() == 0,
{
    let graph = sentence_to_graph(sentence, projective);
    let r = find_cycles(&graph);
    proof {
        if heads_precede(sentence@, projective) {
            lemma_positions_rank(sentence@, projective);
            lemma_no_cycles_when_heads_ranked(
                sentence@,
                projective,
                Seq::new(sentence@.len(), |i: int| i),
                components_view(r@),
            );
        }
    }
    r
}

/// Every head of the chosen analysis is the root or a token before its dependent.
pub open spec fn heads_precede(s: Seq<Token>, projective: bool) -> bool {
    forall|i: int|
        0 <= i < s.len() ==> match #[trigger] s[i].head_of(projective) {
            Some(h) => h <= i,
            None => true,
        }
}

/// `rank` orders the tokens topologically: every head of the chosen analysis
/// is the root or a token of lower rank than its dependent.
pub open spec fn heads_ranked(s: Seq<Token>, projective: bool, rank: Seq<int>) -> bool {
    &&& rank.len() == s.len()
    &&& forall|i: int|
        0 <= i < s.len() ==> match #[trigger] s[i].head_of(projective) {
            Some(h) => h == 0 || rank[h - 1] < rank[i],
            None => true,
        }
}

proof fn lemma_edges_ranked(s: Seq<Token>, projective: bool, rank: Seq<int>)
    requires
        s.len() <= usize::MAX,
        heads_ranked(s, projective, rank),
    ensures
        forall|k: int|
            0 <= k < sentence_edges(s, projective).len() ==> rank[#[trigger] sentence_edges(
                s,
                projective,
            )[k].0 as int] < rank[sentence_edges(s, projective)[k].1 as int],
{
    let edges = sentence_edges(s, projective);
    lemma_sentence_edges_shape(s, projective);
    assert forall|k: int| 0 <= k < edges.len() implies rank[#[trigger] edges[k].0 as int] < rank[edges[k].1 as int] by {
        let d = edges[k].1 as int;
        assert(s[d].head_of(projective) == Some((edges[k].0 + 1) as usize));
    }
}

proof fn lemma_walk_ascends(edges: Seq<LabeledEdge>, rank: Seq<int>, p: Seq<int>)
    requires
        forall|k: int| 0 <= k < edges.len() ==> rank[#[trigger] edges[k].0 as int] < rank[edges[k].1 as int],
        is_walk(edges, p),
    ensures
        p.len() > 1 ==> rank[p[0]] < rank[p.last()],
    decreases p.len(),
{
    if p.len() > 1 {
        let q = p.drop_last();
        assert(is_walk(edges, q)) by {
            assert forall|k: int| 0 <= k < q.len() - 1 implies has_edge(edges, #[trigger] q[k], q[k + 1]) by {
                assert(q[k] == p[k] && q[k + 1] == p[k + 1]);
            }
        }
        lemma_walk_ascends(edges, rank, q);
        assert(has_edge(edges, p[p.len() - 2], p[p.len() - 1]));
        let e = choose|e: int| 0 <= e < edges.len() && #[trigger] edges[e].0 == p[p.len() - 2] && edges[e].1 == p[p.len() - 1];
        assert(rank[edges[e].0 as int] < rank[edges[e].1 as int]);
    }
}

proof fn lemma_cycle_is_component(edges: Seq<LabeledEdge>, comps: Seq<Seq<usize>>, k: int)
    requires
        0 <= k < cycles_of(edges, comps).len(),
    ensures
        is_cyclic(edges, cycles_of(edges, comps)[k]),
        exists|i: int| 0 <= i < comps.len() && comps[i] == cycles_of(edges, comps)[k],
    decreases comps.len(),
{
    reveal(Seq::filter);
    let rest = comps.drop_last();
    if k < cycles_of(edges, rest).len() {
        lemma_cycle_is_component(edges, rest, k);
        let i = choose|i: int| 0 <= i < rest.len() && rest[i] == cycles_of(edges, rest)[k];
        assert(comps[i] == rest[i]);
    } else {
        assert(comps[comps.len() - 1] == comps.last());
    }
}

/// In a sentence whose tokens some ranking orders topologically (every head
/// ranks below its dependent), no cycle is found: the graph's edges all lead
/// up in rank, so no two different nodes reach each other.
pub proof fn lemma_no_cycles_when_heads_ranked(
    s: Seq<Token>,
    projective: bool,
    rank: Seq<int>,
    cycles: Seq<Seq<usize>>,
)
    requires
        s.len() <= usize::MAX,
        heads_ranked(s, projective, rank),
        is_cycle_report(sentence_edges(s, projective), s.len() as int, cycles),
    ensures
        cycles.len() == 0,
{
    let edges = sentence_edges(s, projective);
    lemma_edges_ranked(s, projective, rank);
    let comps = choose|comps: Seq<Seq<usize>>|
        #[trigger] is_scc_decomposition(edges, s.len() as int, comps) && cycles == cycles_of(edges, comps);
    if cycles.len() > 0 {
        lemma_cycle_is_component(edges, comps, 0);
        let i = choose|i: int| 0 <= i < comps.len() && comps[i] == cycles_of(edges, comps)[0];
        let c = comps[i];
        if c.len() > 1 {
            let a = c[0] as int;
            let b = c[1] as int;
            assert(comps[i][0] != comps[i][1]);
            assert(reaches(edges, a, b));
            assert(reaches(edges, b, a));
            let p = choose|p: Seq<int>| #[trigger] is_walk(edges, p) && p[0] == a && p.last() == b;
            let q = choose|q: Seq<int>| #[trigger] is_walk(edges, q) && q[0] == b && q.last() == a;
            lemma_walk_ascends(edges, rank, p);
            lemma_walk_ascends(edges, rank, q);
        }
    }
}

/// Positions order a sentence topologically when every head precedes its
/// dependent.
proof fn lemma_positions_rank(s: Seq<Token>, projective: bool)
    requires
        heads_precede(s, projective),
    ensures
        heads_ranked(s, projective, Seq::new(s.len(), |i: int| i)),
{
    let rank = Seq::new(s.len(), |i: int| i);
    assert forall|i: int| 0 <= i < s.len() implies match #[trigger] s[i].head_of(projective) {
        Some(h) => h == 0 || rank[h - 1] < rank[i],
        None => true,
    } by {
        match s[i].head_of(projective) {
            Some(h) => {
                if h != 0 {
                    assert(rank[h - 1] == h - 1);
                }
            },
            None => {},
        }
    }
}

/// Each edge of `sentence_edges(s, projective)` comes from the token it
/// enters, those tokens ascend with the edges, and every token with a head
/// other than the root has its edge.
pub proof fn lemma_sentence_edges_shape(s: Seq<Token>, projective: bool)
    requires
        s.len() <= usize::MAX,
    ensures
        forall|e: int|
            0 <= e < sentence_edges(s, projective).len() ==> {
                let edge = #[trigger] sentence_edges(s, projective)[e];
                &&& edge.1 < s.len()
                &&& s[edge.1 as int].head_of(projective) == Some((edge.0 + 1) as usize)
                &&& edge.0 + 1 <= usize::MAX
                &&& s[edge.1 as int].rel_of(projective) == edge.2
            },
        forall|e1: int, e2: int|
            0 <= e1 < e2 < sentence_edges(s, projective).len() ==> #[trigger] sentence_edges(
                s,
                projective,
            )[e1].1 < #[trigger] sentence_edges(s, projective)[e2].1,
        forall|d: int|
            0 <= d < s.len() && (#[trigger] s[d].head_of(projective)).is_some()
                && s[d].head_of(projective).unwrap() != 0 ==> exists|e: int|
                0 <= e < sentence_edges(s, projective).len() && #[trigger] sentence_edges(
                    s,
                    projective,
                )[e].1 == d,
    decreases s.len(),
{
    if s.len() > 0 {
        let t = s.drop_last();
        lemma_sentence_edges_shape(t, projective);
        let prev = sentence_edges(t, projective);
        let all = sentence_edges(s, projective);
        let last = (s.len() - 1) as int;
        assert(s.last() == s[last]);
        assert forall|e: int| 0 <= e < prev.len() implies #[trigger] all[e] == prev[e] && prev[e].1
            < last by {
            assert(t[prev[e].1 as int] == s[prev[e].1 as int]);
        }
        assert forall|e: int|
            0 <= e < all.len() implies {
                let edge = #[trigger] all[e];
                &&& edge.1 < s.len()
                &&& s[edge.1 as int].head_of(projective) == Some((edge.0 + 1) as usize)
                &&& edge.0 + 1 <= usize::MAX
                &&& s[edge.1 as int].rel_of(projective) == edge.2
            } by {
            if e < prev.len() {
                assert(t[prev[e].1 as int] == s[prev[e].1 as int]);
            }
        }
        assert forall|e1: int, e2: int| 0 <= e1 < e2 < all.len() implies #[trigger] all[e1].1
            < #[trigger] all[e2].1 by {
            if e2 < prev.len() {
                assert(all[e1] == prev[e1] && all[e2] == prev[e2]);
            } else {
                assert(all[e1] == prev[e1]);
            }
        }
        assert forall|d: int|
            0 <= d < s.len() && (#[trigger] s[d].head_of(projective)).is_some()
                && s[d].head_of(projective).unwrap() != 0 implies exists|e: int|
            0 <= e < all.len() && #[trigger] all[e].1 == d by {
            if d < last {
                assert(t[d] == s[d]);
                let e = choose|e: int| 0 <= e < prev.len() && #[trigger] prev[e].1 == d;
                assert(all[e] == prev[e]);
            } else {
                assert(all[prev.len() as int].1 == d);
            }
        }
    }
}

proof fn lemma_component_is_reported(edges: Seq<LabeledEdge>, comps: Seq<Seq<usize>>, i: int)
    requires
        0 <= i < comps.len(),
        is_cyclic(edges, comps[i]),
    ensures
        exists|k: int| 0 <= k < cycles_of(edges, comps).len() && cycles_of(edges, comps)[k] == comps[i],
    decreases comps.len(),
{
    reveal(Seq::filter);
    let rest = comps.drop_last();
    if i < rest.len() {
        assert(rest[i] == comps[i]);
        lemma_component_is_reported(edges, rest, i);
        let k = choose|k: int| 0 <= k < cycles_of(edges, rest).len() && cycles_of(edges, rest)[k] == rest[i];
        assert(cycles_of(edges, comps)[k] == cycles_of(edges, rest)[k]);
    } else {
        assert(comps.last() == comps[i]);
        let k = cycles_of(edges, rest).len() as int;
        assert(cycles_of(edges, comps)[k] == comps[i]);
    }
}

/// Nodes that reach each other, two of them different, lie on a cycle, and
/// the cycle report holds one cycle with all of them.
pub proof fn lemma_mutually_reachable_share_cycle(
    edges: Seq<LabeledEdge>,
    n: int,
    cycles: Seq<Seq<usize>>,
    a: int,
    b: int,
    c: int,
)
    requires
        is_cycle_report(edges, n, cycles),
        0 <= a < n,
        0 <= b < n,
        0 <= c < n,
        a != b,
        reaches(edges, a, b),
        reaches(edges, b, a),
        reaches(edges, a, c),
        reaches(edges, c, a),
    ensures
        exists|k: int|
            0 <= k < cycles.len() && cycles[k].contains(a as usize) && cycles[k].contains(
                b as usize,
            ) && cycles[k].contains(c as usize),
{
    let comps = choose|comps: Seq<Seq<usize>>|
        #[trigger] is_scc_decomposition(edges, n, comps) && cycles == cycles_of(edges, comps);
    assert(in_some_component(comps, a));
    assert(in_some_component(comps, b));
    assert(in_some_component(comps, c));
    let (ia, ja) = choose|i: int, j: int|
        0 <= i < comps.len() && 0 <= j < comps[i].len() && #[trigger] comps[i][j] == a;
    let (ib, jb) = choose|i: int, j: int|
        0 <= i < comps.len() && 0 <= j < comps[i].len() && #[trigger] comps[i][j] == b;
    let (ic, jc) = choose|i: int, j: int|
        0 <= i < comps.len() && 0 <= j < comps[i].len() && #[trigger] comps[i][j] == c;
    if ia != ib {
        assert(!(reaches(edges, comps[ia][ja] as int, comps[ib][jb] as int) && reaches(
            edges,
            comps[ib][jb] as int,
            comps[ia][ja] as int,
        )));
    }
    if ia != ic {
        assert(!(reaches(edges, comps[ia][ja] as int, comps[ic][jc] as int) && reaches(
            edges,
            comps[ic][jc] as int,
            comps[ia][ja] as int,
        )));
    }
    assert(ja != jb);
    assert(comps[ia].len() > 1);
    lemma_component_is_reported(edges, comps, ia);
    let k = choose|k: int|
        0 <= k < cycles_of(edges, comps).len() && cycles_of(edges, comps)[k] == comps[ia];
    assert(cycles[k][ja] == a);
    assert(cycles[k][jb] == b);
    assert(cycles[k][jc] == c);
}

proof fn lemma_edge_reaches(edges: Seq<LabeledEdge>, a: int, b: int, c: int)
    requires
        has_edge(edges, a, b),
        has_edge(edges, b, c),
    ensures
        reaches(edges, a, c),
{
    let p = seq![a, b, c];
    assert(is_walk(edges, p)) by {
        assert forall|k: int| 0 <= k < p.len() - 1 implies has_edge(edges, #[trigger] p[k], p[k + 1]) by {
            if k == 0 {
                assert(p[0] == a && p[1] == b);
            } else {
                assert(p[1] == b && p[2] == c);
            }
        }
    }
}

proof fn lemma_head_edge(s: Seq<Token>, projective: bool, d: int, h: int)
    requires
        s.len() <= usize::MAX,
        0 <= d < s.len(),
        0 <= h < s.len(),
        s[d].head_of(projective) == Some((h + 1) as usize),
    ensures
        has_edge(sentence_edges(s, projective), h, d),
{
    let edges = sentence_edges(s, projective);
    lemma_sentence_edges_shape(s, projective);
    assert(s[d].head_of(projective).is_some() && s[d].head_of(projective).unwrap() != 0);
    let e = choose|e: int| 0 <= e < edges.len() && #[trigger] edges[e].1 == d;
    assert(edges[e].0 == h);
}

/// Whether `x` is one of the three tokens.
pub open spec fn one_of(x: int, t1: int, t2: int, t3: int) -> bool {
    x == t1 || x == t2 || x == t3
}

proof fn lemma_walk_into_head_cycle(
    s: Seq<Token>,
    projective: bool,
    t1: int,
    t2: int,
    t3: int,
    p: Seq<int>,
)
    requires
        s.len() <= usize::MAX,
        0 <= t1 < s.len(),
        0 <= t2 < s.len(),
        0 <= t3 < s.len(),
        s[t1].head_of(projective) == Some((t3 + 1) as usize),
        s[t2].head_of(projective) == Some((t1 + 1) as usize),
        s[t3].head_of(projective) == Some((t2 + 1) as usize),
        is_walk(sentence_edges(s, projective), p),
        one_of(p.last(), t1, t2, t3),
    ensures
        one_of(p[0], t1, t2, t3),
    decreases p.len(),
{
    let edges = sentence_edges(s, projective);
    if p.len() > 1 {
        lemma_sentence_edges_shape(s, projective);
        let m = p.len() - 1;
        assert(has_edge(edges, p[m - 1], p[m]));
        let e = choose|e: int| 0 <= e < edges.len() && #[trigger] edges[e].0 == p[m - 1] && edges[e].1 == p[m];
        let edge = edges[e];
        assert(s[edge.1 as int].head_of(projective) == Some((edge.0 + 1) as usize));
        let q = p.drop_last();
        assert(is_walk(edges, q)) by {
            assert forall|k: int| 0 <= k < q.len() - 1 implies has_edge(edges, #[trigger] q[k], q[k + 1]) by {
                assert(q[k] == p[k] && q[k + 1] == p[k + 1]);
            }
        }
        assert(q.last() == p[m - 1]);
        lemma_walk_into_head_cycle(s, projective, t1, t2, t3, q);
    }
}

/// Three tokens whose heads form a cycle (the head of `t1` is `t3`, of `t2`
/// is `t1`, of `t3` is `t2`) are reported together in one cycle, which holds
/// no other token.
pub proof fn lemma_head_cycle_reported(
    s: Seq<Token>,
    projective: bool,
    cycles: Seq<Seq<usize>>,
    t1: int,
    t2: int,
    t3: int,
)
    requires
        s.len() <= usize::MAX,
        is_cycle_report(sentence_edges(s, projective), s.len() as int, cycles),
        0 <= t1 < s.len(),
        0 <= t2 < s.len(),
        0 <= t3 < s.len(),
        t1 != t2,
        s[t1].head_of(projective) == Some((t3 + 1) as usize),
        s[t2].head_of(projective) == Some((t1 + 1) as usize),
        s[t3].head_of(projective) == Some((t2 + 1) as usize),
    ensures
        exists|k: int|
            0 <= k < cycles.len() && cycles[k].contains(t1 as usize) && cycles[k].contains(
                t2 as usize,
            ) && cycles[k].contains(t3 as usize) && forall|j: int|
                0 <= j < cycles[k].len() ==> one_of(#[trigger] cycles[k][j] as int, t1, t2, t3),
{
    let edges = sentence_edges(s, projective);
    lemma_head_edge(s, projective, t1, t3);
    lemma_head_edge(s, projective, t2, t1);
    lemma_head_edge(s, projective, t3, t2);
    lemma_edge_reaches(edges, t1, t2, t3);
    lemma_edge_reaches(edges, t3, t1, t2);
    lemma_edge_reaches(edges, t2, t3, t1);
    assert(reaches(edges, t1, t2)) by {
        let p = seq![t1, t2];
        assert(p[0] == t1 && p[1] == t2);
        assert(is_walk(edges, p));
    }
    assert(reaches(edges, t3, t1)) by {
        let p = seq![t3, t1];
        assert(p[0] == t3 && p[1] == t1);
        assert(is_walk(edges, p));
    }
    lemma_mutually_reachable_share_cycle(edges, s.len() as int, cycles, t1, t2, t3);
    let k = choose|k: int|
        0 <= k < cycles.len() && cycles[k].contains(t1 as usize) && cycles[k].contains(t2 as usize)
            && cycles[k].contains(t3 as usize);
    let comps = choose|comps: Seq<Seq<usize>>|
        #[trigger] is_scc_decomposition(edges, s.len() as int, comps) && cycles == cycles_of(edges, comps);
    lemma_cycle_is_component(edges, comps, k);
    let i = choose|i: int| 0 <= i < comps.len() && comps[i] == cycles_of(edges, comps)[k];
    let j1 = choose|j: int| 0 <= j < cycles[k].len() && cycles[k][j] == t1 as usize;
    assert forall|j: int| 0 <= j < cycles[k].len() implies one_of(#[trigger] cycles[k][j] as int, t1, t2, t3) by {
        assert(comps[i][j] == cycles[k][j] && comps[i][j1] == cycles[k][j1]);
        assert(reaches(edges, comps[i][j] as int, comps[i][j1] as int));
        let p = choose|p: Seq<int>| #[trigger] is_walk(edges, p) && p[0] == comps[i][j] as int && p.last() == comps[i][j1] as int;
        lemma_walk_into_head_cycle(s, projective, t1, t2, t3, p);
    }
}

/// No node occurs twice among the components.
pub open spec fn nodes_distinct(comps: Seq<Seq<usize>>) -> bool {
    forall|i1: int, j1: int, i2: int, j2: int|
        0 <= i1 < comps.len() && 0 <= j1 < comps[i1].len() && 0 <= i2 < comps.len() && 0 <= j2
            < comps[i2].len() && #[trigger] comps[i1][j1] == #[trigger] comps[i2][j2] ==> i1 == i2
            && j1 == j2
}

proof fn lemma_cycles_disjoint(
    edges: Seq<LabeledEdge>,
    comps: Seq<Seq<usize>>,
    k1: int,
    k2: int,
    j1: int,
    j2: int,
)
    requires
        nodes_distinct(comps),
        0 <= k1 < k2 < cycles_of(edges, comps).len(),
        0 <= j1 < cycles_of(edges, comps)[k1].len(),
        0 <= j2 < cycles_of(edges, comps)[k2].len(),
    ensures
        cycles_of(edges, comps)[k1][j1] != cycles_of(edges, comps)[k2][j2],
    decreases comps.len(),
{
    reveal(Seq::filter);
    let rest = comps.drop_last();
    let cr = cycles_of(edges, rest);
    assert(nodes_distinct(rest)) by {
        assert forall|i1: int, j1: int, i2: int, j2: int|
            0 <= i1 < rest.len() && 0 <= j1 < rest[i1].len() && 0 <= i2 < rest.len() && 0 <= j2
                < rest[i2].len() && #[trigger] rest[i1][j1] == #[trigger] rest[i2][j2] implies i1
            == i2 && j1 == j2 by {
            assert(rest[i1] == comps[i1] && rest[i2] == comps[i2]);
        }
    }
    if k2 < cr.len() {
        lemma_cycles_disjoint(edges, rest, k1, k2, j1, j2);
    } else {
        let last = comps.len() - 1;
        assert(cycles_of(edges, comps)[k2] == comps[last]);
        lemma_cycle_is_component(edges, rest, k1);
        let i = choose|i: int| 0 <= i < rest.len() && rest[i] == cr[k1];
        assert(comps[i] == rest[i]);
        assert(cycles_of(edges, comps)[k1] == cr[k1]);
        if cycles_of(edges, comps)[k1][j1] == cycles_of(edges, comps)[k2][j2] {
            assert(comps[i][j1] == comps[last][j2]);
        }
    }
}

/// `rank` shows that the tokens other than `t1`, `t2` and `t3` form no
/// cycle: each of them is attached to the root, to one of the three, or to
/// a token of lower rank.
pub open spec fn others_ranked(
    s: Seq<Token>,
    projective: bool,
    t1: int,
    t2: int,
    t3: int,
    rank: Seq<int>,
) -> bool {
    &&& rank.len() == s.len()
    &&& forall|i: int|
        0 <= i < s.len() && !one_of(i, t1, t2, t3) ==> match #[trigger] s[i].head_of(projective) {
            Some(h) => h == 0 || one_of(h - 1, t1, t2, t3) || rank[h - 1] < rank[i],
            None => true,
        }
}

proof fn lemma_walk_outside_ascends(
    s: Seq<Token>,
    projective: bool,
    t1: int,
    t2: int,
    t3: int,
    rank: Seq<int>,
    p: Seq<int>,
)
    requires
        s.len() <= usize::MAX,
        0 <= t1 < s.len(),
        0 <= t2 < s.len(),
        0 <= t3 < s.len(),
        s[t1].head_of(projective) == Some((t3 + 1) as usize),
        s[t2].head_of(projective) == Some((t1 + 1) as usize),
        s[t3].head_of(projective) == Some((t2 + 1) as usize),
        others_ranked(s, projective, t1, t2, t3, rank),
        is_walk(sentence_edges(s, projective), p),
        !one_of(p[0], t1, t2, t3),
        !one_of(p.last(), t1, t2, t3),
    ensures
        p.len() > 1 ==> rank[p[0]] < rank[p.last()],
    decreases p.len(),
{
    let edges = sentence_edges(s, projective);
    if p.len() > 1 {
        lemma_sentence_edges_shape(s, projective);
        let m = p.len() - 1;
        assert(has_edge(edges, p[m - 1], p[m]));
        let e = choose|e: int| 0 <= e < edges.len() && #[trigger] edges[e].0 == p[m - 1] && edges[e].1 == p[m];
        let edge = edges[e];
        assert(s[edge.1 as int].head_of(projective) == Some((edge.0 + 1) as usize));
        let q = p.drop_last();
        assert(is_walk(edges, q)) by {
            assert forall|k: int| 0 <= k < q.len() - 1 implies has_edge(edges, #[trigger] q[k], q[k + 1]) by {
                assert(q[k] == p[k] && q[k + 1] == p[k + 1]);
            }
        }
        assert(q.last() == p[m - 1]);
        if one_of(p[m - 1], t1, t2, t3) {
            lemma_walk_into_head_cycle(s, projective, t1, t2, t3, q);
        } else {
            lemma_walk_outside_ascends(s, projective, t1, t2, t3, rank, q);
        }
    }
}

/// In a sentence whose tokens `t1`, `t2` and `t3` form a cycle of heads
/// while the other tokens form none (as a ranking of them shows), exactly
/// one cycle is found, and it holds exactly those three tokens.
pub proof fn lemma_head_cycle_is_the_only_cycle(
    s: Seq<Token>,
    projective: bool,
    cycles: Seq<Seq<usize>>,
    t1: int,
    t2: int,
    t3: int,
    rank: Seq<int>,
)
    requires
        s.len() <= usize::MAX,
        is_cycle_report(sentence_edges(s, projective), s.len() as int, cycles),
        0 <= t1 < s.len(),
        0 <= t2 < s.len(),
        0 <= t3 < s.len(),
        t1 != t2 && t2 != t3 && t1 != t3,
        s[t1].head_of(projective) == Some((t3 + 1) as usize),
        s[t2].head_of(projective) == Some((t1 + 1) as usize),
        s[t3].head_of(projective) == Some((t2 + 1) as usize),
        others_ranked(s, projective, t1, t2, t3, rank),
    ensures
        cycles.len() == 1,
        cycles[0].contains(t1 as usize),
        cycles[0].contains(t2 as usize),
        cycles[0].contains(t3 as usize),
        forall|j: int| 0 <= j < cycles[0].len() ==> one_of(#[trigger] cycles[0][j] as int, t1, t2, t3),
        cycles[0].no_duplicates(),
{
    let edges = sentence_edges(s, projective);
    lemma_head_cycle_reported(s, projective, cycles, t1, t2, t3);
    let k = choose|k: int|
        0 <= k < cycles.len() && cycles[k].contains(t1 as usize) && cycles[k].contains(t2 as usize)
            && cycles[k].contains(t3 as usize) && forall|j: int|
            0 <= j < cycles[k].len() ==> one_of(#[trigger] cycles[k][j] as int, t1, t2, t3);
    let comps = choose|comps: Seq<Seq<usize>>|
        #[trigger] is_scc_decomposition(edges, s.len() as int, comps) && cycles == cycles_of(edges, comps);
    let j1 = choose|j: int| 0 <= j < cycles[k].len() && cycles[k][j] == t1 as usize;
    lemma_cycle_is_component(edges, comps, k);
    let ik = choose|i: int| 0 <= i < comps.len() && comps[i] == cycles_of(edges, comps)[k];
    assert(cycles[k].no_duplicates()) by {
        assert forall|a: int, b: int|
            0 <= a < cycles[k].len() && 0 <= b < cycles[k].len() && a != b implies cycles[k][a]
            != cycles[k][b] by {
            assert(comps[ik][a] == cycles[k][a] && comps[ik][b] == cycles[k][b]);
        }
    }
    if cycles.len() > 1 {
        let k2: int = if k == 0 { 1 } else { 0 };
        {
            lemma_cycle_is_component(edges, comps, k2);
            let i = choose|i: int| 0 <= i < comps.len() && comps[i] == cycles_of(edges, comps)[k2];
            let c = cycles[k2];
            // Some node of the other cycle is one of the three.
            assert(c.len() > 1);
            let jm: int = {
                let x = c[0] as int;
                let y = c[1] as int;
                assert(comps[i][0] != comps[i][1]);
                assert(reaches(edges, comps[i][0] as int, comps[i][1] as int));
                assert(reaches(edges, comps[i][1] as int, comps[i][0] as int));
                let p = choose|p: Seq<int>| #[trigger] is_walk(edges, p) && p[0] == x && p.last() == y;
                let q = choose|q: Seq<int>| #[trigger] is_walk(edges, q) && q[0] == y && q.last() == x;
                if one_of(x, t1, t2, t3) {
                    0
                } else if one_of(y, t1, t2, t3) {
                    1
                } else {
                    lemma_walk_outside_ascends(s, projective, t1, t2, t3, rank, p);
                    lemma_walk_outside_ascends(s, projective, t1, t2, t3, rank, q);
                    0
                }
            };
            assert(one_of(c[jm] as int, t1, t2, t3));
            let jk = if c[jm] as int == t1 {
                choose|j: int| 0 <= j < cycles[k].len() && cycles[k][j] == t1 as usize
            } else if c[jm] as int == t2 {
                choose|j: int| 0 <= j < cycles[k].len() && cycles[k][j] == t2 as usize
            } else {
                choose|j: int| 0 <= j < cycles[k].len() && cycles[k][j] == t3 as usize
            };
            if k < k2 {
                lemma_cycles_disjoint(edges, comps, k, k2, jk, jm);
            } else {
                lemma_cycles_disjoint(edges, comps, k2, k, jm, jk);
            }
        }
    }
}

} // verus!
