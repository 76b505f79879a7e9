//! The serialization registry and the persisted graph form.
//!
//! A graph holds heterogeneous concrete node kinds behind one capability
//! value; to persist such a graph, each concrete kind registers a stable tag
//! together with its prototype, and the persisted form stores only the tag.
//! Registering a duplicate tag is a configuration error, detected at
//! registration time, never silently overwritten. Deserializing an
//! unrecognized tag fails with an unknown-node-kind error: the caller aborts
//! that load, and the registry and any already-loaded state are unaffected.
//!
//! Boundary nodes persist with their kind-specific parameter, the boundary
//! type's text; edges persist as plain endpoint and port indices.

use vstd::prelude::*;
use crate::boundary::{Inlet, Outlet};
use crate::graph::{Edge, EdgeRec, Graph, NodeKind, NodeKindView};
use crate::node::{Input, Node, NodeView, Output};

verus! {

/// A configuration error raised by the registry.
#[derive(Copy, Clone, Debug, PartialEq, Eq, Structural)]
pub enum RegistryError {
    /// The tag is already registered; the existing registration stands.
    DuplicateTag,
}

/// An error raised while reconstructing a graph from its persisted form.
#[derive(Copy, Clone, Debug, PartialEq, Eq, Structural)]
pub enum LoadError {
    /// The persisted node at this position carries a tag the registry does
    /// not know.
    UnknownNodeKind { index: usize },
    /// The persisted edge at this position addresses a node position the
    /// node list does not hold.
    InvalidEdge { index: usize },
}

/// Whether a tag occurs among the first `upto` registered entries.
pub open spec fn reg_has_tag(entries: Seq<(Seq<char>, NodeView)>, tag: Seq<char>, upto: int) -> bool {
    exists|i: int| 0 <= i < upto && i < entries.len() && (#[trigger] entries[i]).0 == tag
}

/// The prototype registered first under a tag, if any.
pub open spec fn reg_lookup(entries: Seq<(Seq<char>, NodeView)>, tag: Seq<char>) -> Option<
    NodeView,
>
    decreases entries.len(),
{
    if entries.len() == 0 {
        None
    } else if entries[0].0 == tag {
        Some(entries[0].1)
    } else {
        reg_lookup(entries.skip(1), tag)
    }
}

/// The tag-to-prototype table by which heterogeneous concrete node kinds are
/// reconstructed from persisted data.
pub struct Registry {
    entries: Vec<(String, Node)>,
}

impl Registry {
    /// The registered entries, in registration order.
    pub closed spec fn entries(&self) -> Seq<(Seq<char>, NodeView)> {
        self.entries.deep_view()
    }

    /// An empty registry.
    pub fn new() -> (r: Registry)
        ensures
            r.entries() == Seq::<(Seq<char>, NodeView)>::empty(),
    {
        let r = Registry { entries: Vec::new() };
        proof {
            assert(r.entries() =~= Seq::<(Seq<char>, NodeView)>::empty());
        }
        r
    }

    /// Register a concrete node kind under a stable tag.
    ///
    /// Fails exactly when the tag is already registered; the registry is
    /// then unchanged.
    pub fn register(&mut self, tag: String, node: Node) -> (r: Result<(), RegistryError>)
        ensures
            match r {
                Ok(()) => !reg_has_tag(
                    old(self).entries(),
                    tag@,
                    old(self).entries().len() as int,
                ) && final(self).entries() == old(self).entries().push((tag@, node@)),
                Err(RegistryError::DuplicateTag) => reg_has_tag(
                    old(self).entries(),
                    tag@,
                    old(self).entries().len() as int,
                ) && final(self).entries() == old(self).entries(),
            },
    {
        let mut i: usize = 0;
        while i < self.entries.len()
            invariant
                i <= self.entries.len(),
                self == old(self),
                !reg_has_tag(self.entries(), tag@, i as int),
            decreases self.entries.len() - i,
        {
            proof {
                assert(self.entries()[i as int] == self.entries@[i as int].deep_view());
            }
            if self.entries[i].0 == tag {
                proof {
                    assert(reg_has_tag(self.entries(), tag@, self.entries().len() as int));
                }
                return Err(RegistryError::DuplicateTag);
            }
            i = i + 1;
        }
        let ghost entries0 = self.entries();
        self.entries.push((tag, node));
        proof {
            assert(self.entries() =~= entries0.push(
                (self.entries@.last().0@, self.entries@.last().1@),
            ));
        }
        Ok(())
    }

    /// The prototype registered under a tag, if any.
    pub fn node_for_tag<'a>(&'a self, tag: &String) -> (r: Option<&'a Node>)
        ensures
            match r {
                Some(n) => reg_lookup(self.entries(), tag@) == Some(n@),
                None => reg_lookup(self.entries(), tag@) is None,
            },
    {
        proof {
            assert(self.entries().skip(0) =~= self.entries());
        }
        let mut i: usize = 0;
        while i < self.entries.len()
            invariant
                i <= self.entries.len(),
                reg_lookup(self.entries(), tag@) == reg_lookup(
                    self.entries().skip(i as int),
                    tag@,
                ),
                forall|j: int|
                    0 <= j < i ==> (#[trigger] self.entries()[j]).0 != tag@,
            decreases self.entries.len() - i,
        {
            proof {
                assert(self.entries()[i as int] == self.entries@[i as int].deep_view());
                assert(self.entries().skip(i as int)[0] == self.entries()[i as int]);
            }
            if self.entries[i].0 == *tag {
                return Some(&self.entries[i].1);
            }
            proof {
                assert(self.entries().skip(i as int).skip(1) =~= self.entries().skip(i + 1));
            }
            i = i + 1;
        }
        proof {
            assert(self.entries().skip(self.entries@.len() as int) =~= Seq::<
                (Seq<char>, NodeView),
            >::empty());
        }
        None
    }
}

/// The persisted form of one node: its tag and its kind-specific parameters.
#[derive(Clone, Debug, PartialEq, Eq)]
pub enum PersistedNode {
    /// A typed inlet boundary node, with its boundary type.
    Inlet { ty: String },
    /// A typed outlet boundary node, with its boundary type.
    Outlet { ty: String },
    /// Any other kind, by its registry tag.
    Custom { tag: String },
}

/// The mathematical value of a [`PersistedNode`].
pub enum PersistedNodeView {
    Inlet { ty: Seq<char> },
    Outlet { ty: Seq<char> },
    Custom { tag: Seq<char> },
}

impl View for PersistedNode {
    type V = PersistedNodeView;

    open spec fn view(&self) -> PersistedNodeView {
        match self {
            PersistedNode::Inlet { ty } => PersistedNodeView::Inlet { ty: ty@ },
            PersistedNode::Outlet { ty } => PersistedNodeView::Outlet { ty: ty@ },
            PersistedNode::Custom { tag } => PersistedNodeView::Custom { tag: tag@ },
        }
    }
}

impl DeepView for PersistedNode {
    type V = PersistedNodeView;

    open spec fn deep_view(&self) -> PersistedNodeView {
        self.view()
    }
}

/// The persisted form of one edge: plain endpoint positions and port
/// indices.
#[derive(Copy, Clone, Debug, PartialEq, Eq, Structural)]
pub struct PersistedEdge {
    /// The position of the source node in the persisted node list.
    pub src: usize,
    /// The position of the destination node in the persisted node list.
    pub dst: usize,
    /// The source node's output index.
    pub output: u32,
    /// The destination node's input index.
    pub input: u32,
}

/// The persisted form of a graph: its node list and its edge list.
#[derive(Clone, Debug, PartialEq, Eq)]
pub struct PersistedGraph {
    /// The nodes, in identifier order.
    pub nodes: Vec<PersistedNode>,
    /// The edges, in insertion order.
    pub edges: Vec<PersistedEdge>,
}

/// The persisted form of one vertex.
pub open spec fn serialize_node_spec(k: NodeKindView) -> PersistedNodeView {
    match k {
        NodeKindView::Inlet { ty } => PersistedNodeView::Inlet { ty },
        NodeKindView::Outlet { ty } => PersistedNodeView::Outlet { ty },
        NodeKindView::Custom { tag, .. } => PersistedNodeView::Custom { tag },
    }
}

/// The persisted form of one edge record.
pub open spec fn serialize_edge_spec(e: EdgeRec) -> PersistedEdge {
    PersistedEdge { src: e.src, dst: e.dst, output: e.edge.output.0, input: e.edge.input.0 }
}

/// The vertex a persisted node reconstructs to: boundary nodes from their
/// parameters, custom nodes from the registry's prototype for their tag.
pub open spec fn deserialize_node_spec(
    pn: PersistedNodeView,
    entries: Seq<(Seq<char>, NodeView)>,
) -> Option<NodeKindView> {
    match pn {
        PersistedNodeView::Inlet { ty } => Some(NodeKindView::Inlet { ty }),
        PersistedNodeView::Outlet { ty } => Some(NodeKindView::Outlet { ty }),
        PersistedNodeView::Custom { tag } => match reg_lookup(entries, tag) {
            Some(n) => Some(NodeKindView::Custom { tag, node: n }),
            None => None,
        },
    }
}

/// The edge record a persisted edge reconstructs to.
pub open spec fn deserialize_edge_spec(pe: PersistedEdge) -> EdgeRec {
    EdgeRec {
        src: pe.src,
        dst: pe.dst,
        edge: Edge { output: Output(pe.output), input: Input(pe.input) },
    }
}

/// Persist a graph: each node as its tag and kind-specific parameters, each
/// edge as plain position and port indices.
pub fn serialize_graph(g: &Graph) -> (r: PersistedGraph)
    ensures
        r.nodes.deep_view() == g.nodes().map_values(|k: NodeKindView| serialize_node_spec(k)),
        r.edges@ == g.edges().map_values(|e: EdgeRec| serialize_edge_spec(e)),
{
    let kinds = g.node_list();
    let edge_recs = g.edge_list();
    let mut nodes: Vec<PersistedNode> = Vec::new();
    let mut i: usize = 0;
    while i < kinds.len()
        invariant
            i <= kinds.len(),
            kinds.deep_view() == g.nodes(),
            nodes.deep_view() =~= g.nodes().map_values(|k: NodeKindView| serialize_node_spec(k))
                .take(i as int),
        decreases kinds.len() - i,
    {
        proof {
            assert(kinds.deep_view()[i as int] == g.nodes()[i as int]);
        }
        let ghost nodes0 = nodes.deep_view();
        let pn = match &kinds[i] {
            NodeKind::Inlet(inl) => PersistedNode::Inlet { ty: inl.ty.clone() },
            NodeKind::Outlet(o) => PersistedNode::Outlet { ty: o.ty.clone() },
            NodeKind::Custom { tag, .. } => PersistedNode::Custom { tag: tag.clone() },
        };
        nodes.push(pn);
        proof {
            assert(nodes.deep_view() =~= nodes0.push(serialize_node_spec(g.nodes()[i as int])));
            assert(g.nodes().map_values(|k: NodeKindView| serialize_node_spec(k)).take(i + 1)
                =~= g.nodes().map_values(|k: NodeKindView| serialize_node_spec(k)).take(
                i as int,
            ).push(serialize_node_spec(g.nodes()[i as int])));
        }
        i = i + 1;
    }
    proof {
        assert(g.nodes().map_values(|k: NodeKindView| serialize_node_spec(k)).take(
            g.nodes().len() as int,
        ) =~= g.nodes().map_values(|k: NodeKindView| serialize_node_spec(k)));
    }
    let mut edges: Vec<PersistedEdge> = Vec::new();
    let mut j: usize = 0;
    while j < edge_recs.len()
        invariant
            j <= edge_recs.len(),
            edge_recs@ == g.edges(),
            edges@ =~= g.edges().map_values(|e: EdgeRec| serialize_edge_spec(e)).take(j as int),
        decreases edge_recs.len() - j,
    {
        let e = edge_recs[j];
        edges.push(
            PersistedEdge { src: e.src, dst: e.dst, output: e.edge.output.0, input: e.edge.input.0 },
        );
        proof {
            assert(edges@ =~= g.edges().map_values(|e: EdgeRec| serialize_edge_spec(e)).take(
                j + 1,
            ));
        }
        j = j + 1;
    }
    proof {
        assert(g.edges().map_values(|e: EdgeRec| serialize_edge_spec(e)).take(
            g.edges().len() as int,
        ) =~= g.edges().map_values(|e: EdgeRec| serialize_edge_spec(e)));
    }
    PersistedGraph { nodes, edges }
}

/// Reconstruct a graph from its persisted form and a registry.
///
/// Fails exactly when some persisted node carries a tag the registry does
/// not know — the earliest such node wins — or, all nodes reconstructing,
/// when some persisted edge addresses a node position outside the node list,
/// the earliest such edge winning. On failure nothing is loaded; the
/// registry is never affected.
pub fn deserialize_graph(p: &PersistedGraph, reg: &Registry) -> (r: Result<Graph, LoadError>)
    ensures
        match r {
            Ok(g) => {
                &&& forall|i: int|
                    0 <= i < p.nodes.deep_view().len() ==> deserialize_node_spec(
                        #[trigger] p.nodes.deep_view()[i],
                        reg.entries(),
                    ) is Some
                &&& forall|j: int|
                    0 <= j < p.edges@.len() ==> (#[trigger] p.edges@[j]).src
                        < p.nodes.deep_view().len() && p.edges@[j].dst < p.nodes.deep_view().len()
                &&& g.nodes() == p.nodes.deep_view().map_values(
                    |pn: PersistedNodeView| deserialize_node_spec(pn, reg.entries()).unwrap(),
                )
                &&& g.edges() == p.edges@.map_values(|pe: PersistedEdge| deserialize_edge_spec(pe))
                &&& g.wf()
            },
            Err(LoadError::UnknownNodeKind { index }) => {
                &&& index < p.nodes.deep_view().len()
                &&& deserialize_node_spec(p.nodes.deep_view()[index as int], reg.entries()) is None
                &&& forall|i: int|
                    0 <= i < index ==> deserialize_node_spec(
                        #[trigger] p.nodes.deep_view()[i],
                        reg.entries(),
                    ) is Some
            },
            Err(LoadError::InvalidEdge { index }) => {
                &&& forall|i: int|
                    0 <= i < p.nodes.deep_view().len() ==> deserialize_node_spec(
                        #[trigger] p.nodes.deep_view()[i],
                        reg.entries(),
                    ) is Some
                &&& index < p.edges@.len()
                &&& (p.edges@[index as int].src >= p.nodes.deep_view().len() || p.edges@[
                    index as int
                ].dst >= p.nodes.deep_view().len())
                &&& forall|j: int|
                    0 <= j < index ==> (#[trigger] p.edges@[j]).src < p.nodes.deep_view().len()
                        && p.edges@[j].dst < p.nodes.deep_view().len()
            },
        },
{
    let ghost pnodes = p.nodes.deep_view();
    let mut g = Graph::new();
    let mut i: usize = 0;
    while i < p.nodes.len()
        invariant
            i <= p.nodes.len(),
            pnodes == p.nodes.deep_view(),
            pnodes.len() == p.nodes@.len(),
            g.edges() == Seq::<EdgeRec>::empty(),
            g.nodes().len() == i,
            forall|w: int|
                0 <= w < i ==> deserialize_node_spec(
                    #[trigger] pnodes[w],
                    reg.entries(),
                ) is Some,
            g.nodes() =~= pnodes.take(i as int).map_values(
                |pn: PersistedNodeView| deserialize_node_spec(pn, reg.entries()).unwrap(),
            ),
        decreases p.nodes.len() - i,
    {
        proof {
            assert(pnodes[i as int] == p.nodes@[i as int].deep_view());
        }
        let kind = match &p.nodes[i] {
            PersistedNode::Inlet { ty } => NodeKind::Inlet(Inlet { ty: ty.clone() }),
            PersistedNode::Outlet { ty } => NodeKind::Outlet(Outlet { ty: ty.clone() }),
            PersistedNode::Custom { tag } => match reg.node_for_tag(tag) {
                Some(proto) => NodeKind::Custom { tag: tag.clone(), node: proto.duplicate() },
                None => {
                    return Err(LoadError::UnknownNodeKind { index: i });
                },
            },
        };
        let ghost g_nodes0 = g.nodes();
        g.add_node(kind);
        proof {
            assert(g.nodes() =~= pnodes.take(i + 1).map_values(
                |pn: PersistedNodeView| deserialize_node_spec(pn, reg.entries()).unwrap(),
            ));
        }
        i = i + 1;
    }
    proof {
        assert(pnodes.take(pnodes.len() as int) =~= pnodes);
    }
    let n_nodes = p.nodes.len();
    let mut j: usize = 0;
    while j < p.edges.len()
        invariant
            j <= p.edges.len(),
            pnodes == p.nodes.deep_view(),
            n_nodes == p.nodes@.len(),
            pnodes.len() == p.nodes@.len(),
            g.nodes().len() == n_nodes,
            forall|w: int|
                0 <= w < pnodes.len() ==> deserialize_node_spec(
                    #[trigger] pnodes[w],
                    reg.entries(),
                ) is Some,
            g.nodes() == pnodes.map_values(
                |pn: PersistedNodeView| deserialize_node_spec(pn, reg.entries()).unwrap(),
            ),
            forall|w: int|
                0 <= w < j ==> (#[trigger] p.edges@[w]).src < n_nodes && p.edges@[w].dst < n_nodes,
            g.edges() =~= p.edges@.take(j as int).map_values(
                |pe: PersistedEdge| deserialize_edge_spec(pe),
            ),
            g.wf(),
        decreases p.edges.len() - j,
    {
        let pe = p.edges[j];
        if pe.src >= n_nodes || pe.dst >= n_nodes {
            return Err(LoadError::InvalidEdge { index: j });
        }
        g.add_edge(pe.src, pe.dst, Edge { output: Output(pe.output), input: Input(pe.input) });
        proof {
            assert(g.edges() =~= p.edges@.take(j + 1).map_values(
                |pe: PersistedEdge| deserialize_edge_spec(pe),
            ));
        }
        j = j + 1;
    }
    proof {
        assert(p.edges@.take(p.edges@.len() as int) =~= p.edges@);
    }
    Ok(g)
}

/// Every custom vertex of the graph carries the node value that the registry
/// holds as the first prototype for its tag.
pub open spec fn consistent_with_registry(
    nodes: Seq<NodeKindView>,
    entries: Seq<(Seq<char>, NodeView)>,
) -> bool {
    forall|m: int|
        0 <= m < nodes.len() ==> ((#[trigger] nodes[m]) matches NodeKindView::Custom {
            tag,
            node,
        } ==> reg_lookup(entries, tag) == Some(node))
}

/// Round-trip law: reconstructing a persisted graph through a consistent
/// registry restores the node and edge sequences exactly, so the
/// reconstruction generates identical code.
pub proof fn lemma_round_trip(nodes: Seq<NodeKindView>, edges: Seq<EdgeRec>, entries: Seq<(Seq<char>, NodeView)>)
    requires
        consistent_with_registry(nodes, entries),
    ensures
        nodes.map_values(|k: NodeKindView| serialize_node_spec(k)).map_values(
            |pn: PersistedNodeView| deserialize_node_spec(pn, entries).unwrap(),
        ) == nodes,
        forall|m: int|
            0 <= m < nodes.len() ==> deserialize_node_spec(
                serialize_node_spec(#[trigger] nodes[m]),
                entries,
            ) == Some(nodes[m]),
        edges.map_values(|e: EdgeRec| serialize_edge_spec(e)).map_values(
            |pe: PersistedEdge| deserialize_edge_spec(pe),
        ) == edges,
        crate::emit::file_spec(
            nodes.map_values(|k: NodeKindView| serialize_node_spec(k)).map_values(
                |pn: PersistedNodeView| deserialize_node_spec(pn, entries).unwrap(),
            ),
            edges.map_values(|e: EdgeRec| serialize_edge_spec(e)).map_values(
                |pe: PersistedEdge| deserialize_edge_spec(pe),
            ),
        ) == crate::emit::file_spec(nodes, edges),
{
    assert forall|m: int| 0 <= m < nodes.len() implies deserialize_node_spec(
        serialize_node_spec(#[trigger] nodes[m]),
        entries,
    ) == Some(nodes[m]) by {
        match nodes[m] {
            NodeKindView::Inlet { ty } => {},
            NodeKindView::Outlet { ty } => {},
            NodeKindView::Custom { tag, node } => {
                assert(reg_lookup(entries, tag) == Some(node));
            },
        }
    }
    assert(nodes.map_values(|k: NodeKindView| serialize_node_spec(k)).map_values(
        |pn: PersistedNodeView| deserialize_node_spec(pn, entries).unwrap(),
    ) =~= nodes);
    assert forall|j: int| 0 <= j < edges.len() implies deserialize_edge_spec(
        serialize_edge_spec(#[trigger] edges[j]),
    ) == edges[j] by {
        assert(Edge {
            output: Output(edges[j].edge.output.0),
            input: Input(edges[j].edge.input.0),
        } == edges[j].edge);
    }
    assert(edges.map_values(|e: EdgeRec| serialize_edge_spec(e)).map_values(
        |pe: PersistedEdge| deserialize_edge_spec(pe),
    ) =~= edges);
}

} // verus!
