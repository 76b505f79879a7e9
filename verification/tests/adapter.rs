//! Nested-graph adapter scenarios.

use gantz::boundary::{Inlet, Outlet};
use gantz::graph::{Edge, NodeKind};
use gantz::nested::{full_eval_fn, full_eval_fn_ident, GraphNode};
use gantz::node::{Evaluator, Input, Output};

#[test]
fn inlet_straight_through_to_outlet() {
    // An inlet of declared type `int32` connected straight through to an
    // outlet of the same type.
    let mut gn = GraphNode::default();
    let inlet = gn.add_inlet(NodeKind::Inlet(Inlet::new(String::from("int32"))));
    let outlet = gn.add_outlet(NodeKind::Outlet(Outlet::new(String::from("int32"))));
    gn.graph.add_edge(inlet, outlet, Edge::new(Output(0), Input(0)));

    assert_eq!(gn.state_type(), "(int32, int32)");

    let ev = gn.evaluator().unwrap();
    match ev {
        Evaluator::Fn { n_inputs, n_outputs, name, item } => {
            assert_eq!(n_inputs, 1);
            assert_eq!(n_outputs, 1);
            assert_eq!(name, "graph_node_evaluator_fn");
            // One `int32` parameter, one mutable state parameter, returns
            // `int32` equal to the input.
            let expected = "fn graph_node_evaluator_fn(inlet0: int32, state: &mut (int32, int32)) -> int32 {\n\
                \x20   let _node0_output0 = inlet0;\n\
                \x20   let _outlet0 = { _node0_output0 };\n\
                \x20   _outlet0\n\
                }\n";
            assert_eq!(item, expected);
        },
        Evaluator::Expr { .. } => panic!("the adapter must expose a full function"),
    }
}

#[test]
fn two_outlets_return_a_tuple() {
    let mut gn = GraphNode::default();
    let inlet = gn.add_inlet(NodeKind::Inlet(Inlet::new(String::from("u8"))));
    let out_a = gn.add_outlet(NodeKind::Outlet(Outlet::new(String::from("u8"))));
    let out_b = gn.add_outlet(NodeKind::Outlet(Outlet::new(String::from("u16"))));
    gn.graph.add_edge(inlet, out_a, Edge::new(Output(0), Input(0)));
    let ev = gn.evaluator().unwrap();
    match ev {
        Evaluator::Fn { n_inputs, n_outputs, item, .. } => {
            assert_eq!(n_inputs, 1);
            assert_eq!(n_outputs, 2);
            let _ = out_b;
            // The second outlet is outside the inlet-driven flow and takes
            // the default value; the return shape is a tuple of outlet
            // types.
            let expected = "fn graph_node_evaluator_fn(inlet0: u8, state: &mut (u8, u8, u16)) -> (u8, u16) {\n\
                \x20   let _node0_output0 = inlet0;\n\
                \x20   let _outlet0 = { _node0_output0 };\n\
                \x20   let _outlet1 = Default::default();\n\
                \x20   (_outlet0, _outlet1)\n\
                }\n";
            assert_eq!(item, expected);
        },
        Evaluator::Expr { .. } => panic!("the adapter must expose a full function"),
    }
}

#[test]
fn no_outlets_return_nothing() {
    let mut gn = GraphNode::default();
    let _inlet = gn.add_inlet(NodeKind::Inlet(Inlet::new(String::from("i64"))));
    let ev = gn.evaluator().unwrap();
    match ev {
        Evaluator::Fn { n_outputs, item, .. } => {
            assert_eq!(n_outputs, 0);
            let expected = "fn graph_node_evaluator_fn(inlet0: i64, state: &mut (i64)) {\n\
                \x20   let _node0_output0 = inlet0;\n\
                }\n";
            assert_eq!(item, expected);
        },
        Evaluator::Expr { .. } => panic!("the adapter must expose a full function"),
    }
}

#[test]
fn full_eval_descriptor() {
    assert_eq!(full_eval_fn_ident(), "full_eval");
    let d = full_eval_fn();
    assert_eq!(d.name, "full_eval");
    assert!(d.attrs.is_empty());
}

#[test]
fn adapter_as_node_value() {
    let mut gn = GraphNode::default();
    let inlet = gn.add_inlet(NodeKind::Inlet(Inlet::new(String::from("int32"))));
    let outlet = gn.add_outlet(NodeKind::Outlet(Outlet::new(String::from("int32"))));
    gn.graph.add_edge(inlet, outlet, Edge::new(Output(0), Input(0)));
    let node = gn.to_node().unwrap();
    assert_eq!(node.n_inputs(), 1);
    assert_eq!(node.n_outputs(), 1);
    assert_eq!(node.state_type, Some(String::from("(int32, int32)")));
    assert!(node.push_eval.is_none());
    assert!(node.pull_eval.is_none());
}
