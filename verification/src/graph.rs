//! The graph container.
//!
//! A [`Graph`] is a directed multigraph whose vertices carry [`NodeKind`]
//! values and whose edges carry [`Edge`] values. Insertion is append-only:
//! `add_node` returns a fresh stable identifier equal to the number of nodes
//! inserted before it, and `add_edge` attaches a connection between two
//! existing identifiers, permitting duplicate sources (fan-out) without
//! restriction.
//!
//! Storage is a `petgraph` graph; the container's contracts are stated over
//! two abstract sequences, [`graph_node_seq`] and [`graph_edge_seq`], the
//! node values in index order and the edge records in insertion order.

use vstd::prelude::*;
use crate::boundary::{Inlet, Outlet, inlet_node_view, outlet_node_view};
use crate::node::{EvalFn, Node, NodeView, Output, Input};
use petgraph::visit::EdgeRef;

verus! {

/// Describes a connection between two nodes.
#[derive(Copy, Clone, Debug, PartialEq, Eq, Hash, Structural)]
pub struct Edge {
    /// The output of the node at the source of this edge.
    pub output: Output,
    /// The input of the node at the destination of this edge.
    pub input: Input,
}

impl Edge {
    /// Create an edge representing a connection from the given node `Output`
    /// to the given node `Input`.
    pub fn new(output: Output, input: Input) -> (r: Edge)
        ensures
            r == (Edge { output, input }),
    {
        Edge { output, input }
    }
}

impl From<(u32, u32)> for Edge {
    /// An edge from plain output and input indices.
    fn from(t: (u32, u32)) -> (r: Edge) {
        Edge { output: Output(t.0), input: Input(t.1) }
    }
}

impl vstd::std_specs::convert::FromSpecImpl<(u32, u32)> for Edge {
    open spec fn obeys_from_spec() -> bool {
        true
    }

    open spec fn from_spec(t: (u32, u32)) -> Edge {
        Edge { output: Output(t.0), input: Input(t.1) }
    }
}

/// One stored connection: the identifiers of its endpoints together with the
/// connected output and input ports.
#[derive(Copy, Clone, Debug, PartialEq, Eq, Structural)]
pub struct EdgeRec {
    /// The identifier of the node the connection leaves.
    pub src: usize,
    /// The identifier of the node the connection enters.
    pub dst: usize,
    /// The connected ports.
    pub edge: Edge,
}

/// A graph vertex: one of the known node kinds.
///
/// Heterogeneous concrete kinds live behind the `Custom` variant as plain
/// capability data together with the stable tag under which the kind is
/// registered for persistence.
#[derive(Clone, Debug, PartialEq, Eq)]
pub enum NodeKind {
    /// A typed inlet boundary node.
    Inlet(Inlet),
    /// A typed outlet boundary node.
    Outlet(Outlet),
    /// Any other node kind: its registry tag and its capability value.
    Custom { tag: String, node: Node },
}

/// The mathematical value of a [`NodeKind`].
pub enum NodeKindView {
    Inlet { ty: Seq<char> },
    Outlet { ty: Seq<char> },
    Custom { tag: Seq<char>, node: NodeView },
}

impl View for NodeKind {
    type V = NodeKindView;

    open spec fn view(&self) -> NodeKindView {
        match self {
            NodeKind::Inlet(i) => NodeKindView::Inlet { ty: i.ty@ },
            NodeKind::Outlet(o) => NodeKindView::Outlet { ty: o.ty@ },
            NodeKind::Custom { tag, node } => NodeKindView::Custom { tag: tag@, node: node@ },
        }
    }
}

impl DeepView for NodeKind {
    type V = NodeKindView;

    open spec fn deep_view(&self) -> NodeKindView {
        self.view()
    }
}

impl NodeKindView {
    /// The capability value of this vertex.
    pub open spec fn node_view(&self) -> NodeView {
        match self {
            NodeKindView::Inlet { ty } => inlet_node_view(*ty),
            NodeKindView::Outlet { ty } => outlet_node_view(*ty),
            NodeKindView::Custom { node, .. } => *node,
        }
    }

    /// The vertex's declared input arity.
    pub open spec fn n_inputs(&self) -> u32 {
        self.node_view().n_inputs()
    }

    /// The vertex's declared output arity.
    pub open spec fn n_outputs(&self) -> u32 {
        self.node_view().n_outputs()
    }
}

impl NodeKind {
    /// The capability value of this vertex.
    pub fn node(&self) -> (r: Node)
        ensures
            r@ == self@.node_view(),
    {
        match self {
            NodeKind::Inlet(i) => i.node(),
            NodeKind::Outlet(o) => o.node(),
            NodeKind::Custom { node, .. } => node.duplicate(),
        }
    }

    /// The vertex's declared input arity.
    pub fn n_inputs(&self) -> (r: u32)
        ensures
            r == self@.n_inputs(),
    {
        match self {
            NodeKind::Inlet(_) => 0,
            NodeKind::Outlet(_) => 1,
            NodeKind::Custom { node, .. } => node.n_inputs(),
        }
    }

    /// The vertex's declared output arity.
    pub fn n_outputs(&self) -> (r: u32)
        ensures
            r == self@.n_outputs(),
    {
        match self {
            NodeKind::Inlet(_) => 1,
            NodeKind::Outlet(_) => 0,
            NodeKind::Custom { node, .. } => node.n_outputs(),
        }
    }

    /// The vertex's push-entry descriptor, if it declares one.
    pub fn push_eval(&self) -> (r: Option<EvalFn>)
        ensures
            match self@.node_view().push_eval {
                Some(e) => r matches Some(f) && f@ == e,
                None => r is None,
            },
    {
        match self {
            NodeKind::Inlet(_) => None,
            NodeKind::Outlet(_) => None,
            NodeKind::Custom { node, .. } => match &node.push_eval {
                Some(e) => Some(e.duplicate()),
                None => None,
            },
        }
    }

    /// The vertex's pull-entry descriptor, if it declares one. Reserved:
    /// pull evaluation has no generation behaviour yet.
    pub fn pull_eval(&self) -> (r: Option<EvalFn>)
        ensures
            match self@.node_view().pull_eval {
                Some(e) => r matches Some(f) && f@ == e,
                None => r is None,
            },
    {
        match self {
            NodeKind::Inlet(_) => None,
            NodeKind::Outlet(_) => None,
            NodeKind::Custom { node, .. } => match &node.pull_eval {
                Some(e) => Some(e.duplicate()),
                None => None,
            },
        }
    }

    /// An exact copy of this vertex.
    pub fn duplicate(&self) -> (r: NodeKind)
        ensures
            r@ == self@,
    {
        match self {
            NodeKind::Inlet(i) => NodeKind::Inlet(Inlet { ty: i.ty.clone() }),
            NodeKind::Outlet(o) => NodeKind::Outlet(Outlet { ty: o.ty.clone() }),
            NodeKind::Custom { tag, node } => NodeKind::Custom {
                tag: tag.clone(),
                node: node.duplicate(),
            },
        }
    }
}

/// A directed multigraph of [`NodeKind`] vertices and [`Edge`] connections.
///
/// The store is a `petgraph` directed graph, opaque to the verifier; its
/// contents are exposed only through [`graph_node_seq`] and
/// [`graph_edge_seq`], and read and written only by the trusted accessors
/// below.
#[verifier::external_body]
pub struct Graph {
    pg: petgraph::graph::Graph<NodeKind, Edge, petgraph::Directed, usize>,
}

/// The vertex values a graph holds, in node-index order.
pub uninterp spec fn graph_node_seq(g: Graph) -> Seq<NodeKindView>;

/// The edge records a graph holds, in insertion order.
pub uninterp spec fn graph_edge_seq(g: Graph) -> Seq<EdgeRec>;

impl Graph {
    /// The vertex values, in identifier order.
    pub closed spec fn nodes(&self) -> Seq<NodeKindView> {
        graph_node_seq(*self)
    }

    /// The edge records, in insertion order.
    pub closed spec fn edges(&self) -> Seq<EdgeRec> {
        graph_edge_seq(*self)
    }

    /// Every stored edge connects existing node identifiers.
    pub open spec fn wf(&self) -> bool {
        forall|i: int|
            0 <= i < self.edges().len() ==> (#[trigger] self.edges()[i]).src < self.nodes().len()
                && self.edges()[i].dst < self.nodes().len()
    }
}

/// Relies on `petgraph::graph::Graph::with_capacity`: creates a graph with no
/// nodes and no edges.
#[verifier::external_body]
fn pg_empty() -> (g: Graph)
    ensures
        graph_node_seq(g) == Seq::<NodeKindView>::empty(),
        graph_edge_seq(g) == Seq::<EdgeRec>::empty(),
{
    Graph { pg: petgraph::graph::Graph::with_capacity(0, 0) }
}

/// Relies on `petgraph::graph::Graph::add_node`: appends the weight and
/// returns the new node's index, which equals the old node count. With a
/// `usize` index type the maximum-count condition does not apply, so the call
/// does not panic.
#[verifier::external_body]
fn pg_add_node(g: &mut Graph, n: NodeKind) -> (id: usize)
    ensures
        graph_node_seq(*final(g)) == graph_node_seq(*old(g)).push(n@),
        graph_edge_seq(*final(g)) == graph_edge_seq(*old(g)),
        id == graph_node_seq(*old(g)).len(),
{
    g.pg.add_node(n).index()
}

/// Relies on `petgraph::graph::Graph::add_edge`: appends the edge between the
/// given node indices. The call panics only if an endpoint does not exist,
/// which the precondition rules out; with a `usize` index type the
/// maximum-count condition does not apply.
#[verifier::external_body]
fn pg_add_edge(g: &mut Graph, src: usize, dst: usize, e: Edge)
    requires
        src < graph_node_seq(*old(g)).len(),
        dst < graph_node_seq(*old(g)).len(),
    ensures
        graph_node_seq(*final(g)) == graph_node_seq(*old(g)),
        graph_edge_seq(*final(g)) == graph_edge_seq(*old(g)).push(
            EdgeRec { src, dst, edge: e },
        ),
{
    g.pg.add_edge(
        petgraph::graph::NodeIndex::new(src),
        petgraph::graph::NodeIndex::new(dst),
        e,
    );
}

/// Relies on `petgraph::graph::Graph::node_count`: the number of nodes.
#[verifier::external_body]
fn pg_node_count(g: &Graph) -> (r: usize)
    ensures
        r == graph_node_seq(*g).len(),
{
    g.pg.node_count()
}

/// Relies on `petgraph::graph::Graph::node_weight`: `Some` of the weight for
/// an index in range, `None` otherwise.
#[verifier::external_body]
fn pg_node_get<'a>(g: &'a Graph, id: usize) -> (r: Option<&'a NodeKind>)
    ensures
        match r {
            Some(n) => id < graph_node_seq(*g).len() && n@ == graph_node_seq(*g)[id as int],
            None => id >= graph_node_seq(*g).len(),
        },
{
    g.pg.node_weight(petgraph::graph::NodeIndex::new(id))
}

/// Relies on `petgraph::graph::Graph::node_weights`, which yields the node
/// weights in node-index order.
#[verifier::external_body]
fn pg_node_list(g: &Graph) -> (r: Vec<NodeKind>)
    ensures
        r.deep_view() == graph_node_seq(*g),
{
    g.pg.node_weights().map(|n| n.clone()).collect()
}

/// Relies on `petgraph::graph::Graph::edge_references`, which yields all
/// edges in index order, each with its endpoints and weight.
#[verifier::external_body]
fn pg_edge_list(g: &Graph) -> (r: Vec<EdgeRec>)
    ensures
        r@ == graph_edge_seq(*g),
{
    g.pg.edge_references().map(
        |e| EdgeRec { src: e.source().index(), dst: e.target().index(), edge: *e.weight() },
    ).collect()
}

impl Graph {
    /// An empty graph.
    pub fn new() -> (g: Graph)
        ensures
            g.nodes() == Seq::<NodeKindView>::empty(),
            g.edges() == Seq::<EdgeRec>::empty(),
            g.wf(),
    {
        let g = pg_empty();
        proof {
            assert(g.wf());
        }
        g
    }

    /// Insert a vertex and return its fresh stable identifier.
    pub fn add_node(&mut self, n: NodeKind) -> (id: usize)
        ensures
            final(self).nodes() == old(self).nodes().push(n@),
            final(self).edges() == old(self).edges(),
            id == old(self).nodes().len(),
            old(self).wf() ==> final(self).wf(),
    {
        pg_add_node(self, n)
    }

    /// Attach an edge between two existing identifiers. Duplicate sources
    /// (fan-out) are permitted without restriction; port indices are not
    /// validated here.
    pub fn add_edge(&mut self, src: usize, dst: usize, e: Edge)
        requires
            src < old(self).nodes().len(),
            dst < old(self).nodes().len(),
        ensures
            final(self).nodes() == old(self).nodes(),
            final(self).edges() == old(self).edges().push(EdgeRec { src, dst, edge: e }),
            old(self).wf() ==> final(self).wf(),
    {
        pg_add_edge(self, src, dst, e);
        proof {
            if old(self).wf() {
                assert forall|i: int| 0 <= i < self.edges().len() implies (#[trigger] self.edges()[
                    i
                ]).src < self.nodes().len() && self.edges()[i].dst < self.nodes().len() by {
                    if i < old(self).edges().len() {
                        assert(self.edges()[i] == old(self).edges()[i]);
                    } else {
                        assert(self.edges()[i] == (EdgeRec { src, dst, edge: e }));
                    }
                }
            }
        }
    }

    /// The number of vertices.
    pub fn node_count(&self) -> (r: usize)
        ensures
            r == self.nodes().len(),
    {
        pg_node_count(self)
    }

    /// The vertex at the given identifier, if it exists.
    pub fn node<'a>(&'a self, id: usize) -> (r: Option<&'a NodeKind>)
        ensures
            match r {
                Some(n) => id < self.nodes().len() && n@ == self.nodes()[id as int],
                None => id >= self.nodes().len(),
            },
    {
        pg_node_get(self, id)
    }

    /// All vertex values, in identifier order.
    pub fn node_list(&self) -> (r: Vec<NodeKind>)
        ensures
            r.deep_view() == self.nodes(),
    {
        pg_node_list(self)
    }

    /// All edge records, in insertion order.
    pub fn edge_list(&self) -> (r: Vec<EdgeRec>)
        ensures
            r@ == self.edges(),
    {
        pg_edge_list(self)
    }

    /// The edges leaving the given identifier, in insertion order.
    pub fn edges_outgoing(&self, id: usize) -> (r: Vec<EdgeRec>)
        ensures
            r@ == edges_from(self.edges(), id, self.edges().len() as int),
    {
        let all = self.edge_list();
        let mut r: Vec<EdgeRec> = Vec::new();
        let mut i: usize = 0;
        while i < all.len()
            invariant
                i <= all.len(),
                all@ == self.edges(),
                r@ =~= edges_from(self.edges(), id, i as int),
            decreases all.len() - i,
        {
            if all[i].src == id {
                r.push(all[i]);
            }
            i = i + 1;
        }
        r
    }

    /// The edges entering the given identifier, in insertion order.
    pub fn edges_incoming(&self, id: usize) -> (r: Vec<EdgeRec>)
        ensures
            r@ == edges_into(self.edges(), id, self.edges().len() as int),
    {
        let all = self.edge_list();
        let mut r: Vec<EdgeRec> = Vec::new();
        let mut i: usize = 0;
        while i < all.len()
            invariant
                i <= all.len(),
                all@ == self.edges(),
                r@ =~= edges_into(self.edges(), id, i as int),
            decreases all.len() - i,
        {
            if all[i].dst == id {
                r.push(all[i]);
            }
            i = i + 1;
        }
        r
    }
}

/// The edge records among the first `upto` whose source is `id`, in order.
pub open spec fn edges_from(edges: Seq<EdgeRec>, id: usize, upto: int) -> Seq<EdgeRec>
    decreases upto,
{
    if upto <= 0 {
        Seq::empty()
    } else if upto <= edges.len() && edges[upto - 1].src == id {
        edges_from(edges, id, upto - 1).push(edges[upto - 1])
    } else {
        edges_from(edges, id, upto - 1)
    }
}

/// The edge records among the first `upto` whose destination is `id`, in
/// order.
pub open spec fn edges_into(edges: Seq<EdgeRec>, id: usize, upto: int) -> Seq<EdgeRec>
    decreases upto,
{
    if upto <= 0 {
        Seq::empty()
    } else if upto <= edges.len() && edges[upto - 1].dst == id {
        edges_into(edges, id, upto - 1).push(edges[upto - 1])
    } else {
        edges_into(edges, id, upto - 1)
    }
}

/// Graph types capable of adding nodes and returning a unique identifier for
/// the added node.
pub trait AddNode {
    /// The vertex values held so far, in identifier order.
    spec fn node_values(&self) -> Seq<NodeKindView>;

    /// Add a vertex and return its unique identifier.
    fn add_node(&mut self, n: NodeKind) -> (id: usize)
        ensures
            final(self).node_values() == old(self).node_values().push(n@),
            id == old(self).node_values().len(),
    ;
}

impl AddNode for Graph {
    open spec fn node_values(&self) -> Seq<NodeKindView> {
        self.nodes()
    }

    fn add_node(&mut self, n: NodeKind) -> (id: usize) {
        Graph::add_node(self, n)
    }
}

} // verus!
