//! Registry and persisted-form behaviour, including the round trip.

use gantz::boundary::{Inlet, Outlet};
use gantz::graph::{Edge, Graph, NodeKind};
use gantz::node::{EvalFn, Evaluator, Input, Node, Output, Segment};
use gantz::registry::{
    deserialize_graph, serialize_graph, LoadError, PersistedEdge, PersistedGraph, PersistedNode,
    Registry, RegistryError,
};

fn proto(text: &str, push: Option<&str>) -> Node {
    Node {
        evaluator: Evaluator::Expr {
            n_inputs: 0,
            n_outputs: 1,
            template: vec![Segment::Lit(String::from(text))],
        },
        state_type: None,
        push_eval: push.map(|name| EvalFn { name: String::from(name), attrs: Vec::new() }),
        pull_eval: None,
    }
}

#[test]
fn duplicate_tag_is_a_configuration_error() {
    let mut reg = Registry::new();
    assert_eq!(reg.register(String::from("one"), proto("1", None)), Ok(()));
    assert_eq!(
        reg.register(String::from("one"), proto("2", None)),
        Err(RegistryError::DuplicateTag)
    );
    // The existing registration stands.
    let found = reg.node_for_tag(&String::from("one")).unwrap();
    assert_eq!(*found, proto("1", None));
}

#[test]
fn unknown_tag_fails_the_load_only() {
    let reg = Registry::new();
    let p = PersistedGraph {
        nodes: vec![PersistedNode::Custom { tag: String::from("mystery") }],
        edges: Vec::new(),
    };
    match deserialize_graph(&p, &reg) {
        Err(e) => assert_eq!(e, LoadError::UnknownNodeKind { index: 0 }),
        Ok(_) => panic!("a mystery tag must not load"),
    }
}

#[test]
fn out_of_range_edge_fails_the_load() {
    let reg = Registry::new();
    let p = PersistedGraph {
        nodes: vec![PersistedNode::Inlet { ty: String::from("u8") }],
        edges: vec![PersistedEdge { src: 0, dst: 7, output: 0, input: 0 }],
    };
    match deserialize_graph(&p, &reg) {
        Err(e) => assert_eq!(e, LoadError::InvalidEdge { index: 0 }),
        Ok(_) => panic!("an out-of-range edge must not load"),
    }
}

#[test]
fn boundary_nodes_persist_with_their_type() {
    let mut g = Graph::new();
    g.add_node(NodeKind::Inlet(Inlet::new(String::from("int32"))));
    g.add_node(NodeKind::Outlet(Outlet::new(String::from("f-bits"))));
    let p = serialize_graph(&g);
    assert_eq!(
        p.nodes,
        vec![
            PersistedNode::Inlet { ty: String::from("int32") },
            PersistedNode::Outlet { ty: String::from("f-bits") },
        ]
    );
}

#[test]
fn round_trip_generates_identical_code() {
    let mut reg = Registry::new();
    reg.register(String::from("one"), proto("1", Some("one_push_eval"))).unwrap();
    reg.register(String::from("two"), proto("2", None)).unwrap();

    let mut g = Graph::new();
    let one = g.add_node(NodeKind::Custom {
        tag: String::from("one"),
        node: proto("1", Some("one_push_eval")),
    });
    let two = g.add_node(NodeKind::Custom { tag: String::from("two"), node: proto("2", None) });
    let _ = two;
    let inlet = g.add_node(NodeKind::Inlet(Inlet::new(String::from("u8"))));
    g.add_edge(one, inlet, Edge::new(Output(0), Input(0)));

    let p = serialize_graph(&g);
    let g2 = deserialize_graph(&p, &reg).unwrap();
    assert_eq!(gantz::emit::file(&g).unwrap(), gantz::emit::file(&g2).unwrap());

    // Persisting again yields the same persisted form.
    assert_eq!(serialize_graph(&g2), p);
}

#[test]
fn persisted_edges_are_plain_index_pairs() {
    let mut g = Graph::new();
    let a = g.add_node(NodeKind::Inlet(Inlet::new(String::from("u8"))));
    let b = g.add_node(NodeKind::Outlet(Outlet::new(String::from("u8"))));
    g.add_edge(a, b, Edge::new(Output(3), Input(4)));
    let p = serialize_graph(&g);
    assert_eq!(p.edges, vec![PersistedEdge { src: a, dst: b, output: 3, input: 4 }]);
}
