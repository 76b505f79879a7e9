//! The node model, the engine's error reporting, and the boundary markers.

use gantz::boundary::{Inlet, InletNode, Outlet, OutletNode, TypeParseError};
use gantz::codegen::{push_eval_steps, pull_nodes, EvalStep, ExprInput};
use gantz::emit::{push_eval_fn, push_eval_fns, CodegenError};
use gantz::graph::{AddNode, Edge, Graph, NodeKind};
use gantz::node::{apply_template, EvalFn, Evaluator, Input, Node, Output, Segment};

fn expr_node(n_inputs: u32, n_outputs: u32, template: Vec<Segment>) -> Node {
    Node {
        evaluator: Evaluator::Expr { n_inputs, n_outputs, template },
        state_type: None,
        push_eval: None,
        pull_eval: None,
    }
}

#[test]
fn template_substitutes_arguments_in_order() {
    let segs = vec![
        Segment::Lit(String::from("f(")),
        Segment::Arg(1),
        Segment::Lit(String::from(", ")),
        Segment::Arg(0),
        Segment::Lit(String::from(")")),
    ];
    let args = vec![String::from("x"), String::from("y")];
    assert_eq!(apply_template(&segs, &args), "f(y, x)");
}

#[test]
fn node_arity_comes_from_its_evaluator() {
    let n = expr_node(3, 2, vec![Segment::Arg(0)]);
    assert_eq!(n.n_inputs(), 3);
    assert_eq!(n.n_outputs(), 2);
}

#[test]
fn missing_binding_is_fatal_to_the_run() {
    // Pushing from a consumer leaves its producer unvisited: the resolved
    // slot has no recorded binding at synthesis time.
    let mut g = Graph::new();
    let producer = g.add_node(NodeKind::Custom {
        tag: String::from("one"),
        node: expr_node(0, 1, vec![Segment::Lit(String::from("1"))]),
    });
    let consumer = g.add_node(NodeKind::Custom {
        tag: String::from("neg"),
        node: expr_node(1, 1, vec![Segment::Lit(String::from("-")), Segment::Arg(0)]),
    });
    g.add_edge(producer, consumer, Edge::new(Output(0), Input(0)));
    let steps = push_eval_steps(&g, consumer);
    let push = EvalFn { name: String::from("entry"), attrs: Vec::new() };
    assert_eq!(
        push_eval_fn(&g, push, &steps),
        Err(CodegenError::MissingBinding { node: producer, output: 0 })
    );
}

#[test]
fn fabricated_steps_are_rejected() {
    let mut g = Graph::new();
    let id = g.add_node(NodeKind::Custom {
        tag: String::from("one"),
        node: expr_node(0, 1, vec![Segment::Lit(String::from("1"))]),
    });
    let push = EvalFn { name: String::from("entry"), attrs: Vec::new() };

    // A step for an identifier the graph does not hold.
    let bogus = vec![EvalStep { node: 9, args: Vec::new() }];
    assert_eq!(
        push_eval_fn(&g, push.clone(), &bogus),
        Err(CodegenError::UnknownNode { node: 9 })
    );

    // A slot count disagreeing with the node's declared arity.
    let wrong = vec![EvalStep { node: id, args: vec![None] }];
    assert_eq!(
        push_eval_fn(&g, push, &wrong),
        Err(CodegenError::ArityMismatch { node: id })
    );
}

#[test]
fn out_of_range_output_has_no_binding() {
    let mut g = Graph::new();
    let a = g.add_node(NodeKind::Custom {
        tag: String::from("one"),
        node: expr_node(0, 1, vec![Segment::Lit(String::from("1"))]),
    });
    let b = g.add_node(NodeKind::Custom {
        tag: String::from("neg"),
        node: expr_node(1, 1, vec![Segment::Lit(String::from("-")), Segment::Arg(0)]),
    });
    // The edge names output 5, which `a` does not declare.
    g.add_edge(a, b, Edge::new(Output(5), Input(0)));
    let steps = push_eval_steps(&g, a);
    let push = EvalFn { name: String::from("entry"), attrs: Vec::new() };
    assert_eq!(
        push_eval_fn(&g, push, &steps),
        Err(CodegenError::MissingBinding { node: a, output: 5 })
    );
}

#[test]
fn push_eval_fns_maps_each_entry() {
    let mut g = Graph::new();
    let one = g.add_node(NodeKind::Custom {
        tag: String::from("one"),
        node: expr_node(0, 1, vec![Segment::Lit(String::from("1"))]),
    });
    let steps = push_eval_steps(&g, one);
    let items = vec![
        (one, EvalFn { name: String::from("a"), attrs: Vec::new() }, steps.clone()),
        (one, EvalFn { name: String::from("b"), attrs: Vec::new() }, steps),
    ];
    let fns = push_eval_fns(&g, &items).unwrap();
    assert_eq!(fns.len(), 2);
    assert_eq!(fns[0], "pub fn a() {\n    let _node0_output0 = 1;\n}\n");
    assert_eq!(fns[1], "pub fn b() {\n    let _node0_output0 = 1;\n}\n");
}

#[test]
fn pull_entries_are_reported_but_not_generated() {
    let mut g = Graph::new();
    g.add_node(NodeKind::Custom {
        tag: String::from("src"),
        node: Node {
            evaluator: Evaluator::Expr {
                n_inputs: 0,
                n_outputs: 1,
                template: vec![Segment::Lit(String::from("1"))],
            },
            state_type: None,
            push_eval: None,
            pull_eval: Some(EvalFn { name: String::from("pull_entry"), attrs: Vec::new() }),
        },
    });
    let pulls = pull_nodes(&g);
    assert_eq!(pulls.len(), 1);
    assert_eq!(pulls[0].0, 0);
    assert_eq!(pulls[0].1.name, "pull_entry");
    assert_eq!(gantz::emit::file(&g).unwrap(), "");
}

#[test]
fn add_node_returns_fresh_stable_identifiers() {
    let mut g = Graph::new();
    assert_eq!(g.node_count(), 0);
    let a = g.add_node(NodeKind::Inlet(Inlet::new(String::from("u8"))));
    let b = g.add_node(NodeKind::Inlet(Inlet::new(String::from("u8"))));
    assert_eq!((a, b), (0, 1));
    assert_eq!(g.node_count(), 2);
    assert!(g.node(0).is_some());
    assert!(g.node(2).is_none());
    // The same insertion through the capability trait.
    let c = AddNode::add_node(&mut g, NodeKind::Inlet(Inlet::new(String::from("u8"))));
    assert_eq!(c, 2);
}

#[test]
fn boundary_types_parse_through_real_syntax() {
    assert_eq!(Inlet::parse("Vec<u8>").unwrap().ty, "Vec<u8>");
    assert_eq!(Outlet::parse("(i32, i32)").unwrap().ty, "(i32, i32)");
    assert_eq!(Inlet::parse("("), Err(TypeParseError));
    assert_eq!(Outlet::parse(",,"), Err(TypeParseError));
}

#[test]
fn boundary_marker_arities() {
    let inlet = Inlet::new(String::from("u8")).node();
    assert_eq!((inlet.n_inputs(), inlet.n_outputs()), (0, 1));
    assert_eq!(inlet.state_type, Some(String::from("u8")));
    let outlet = Outlet::new(String::from("u8")).node();
    assert_eq!((outlet.n_inputs(), outlet.n_outputs()), (1, 0));
    let pass_in = InletNode.node();
    assert_eq!((pass_in.n_inputs(), pass_in.n_outputs()), (1, 1));
    let pass_out = OutletNode.node();
    assert_eq!((pass_out.n_inputs(), pass_out.n_outputs()), (1, 1));
    // Pass-through markers emit their argument unchanged.
    match pass_in.evaluator {
        Evaluator::Expr { template, .. } => assert_eq!(template, vec![Segment::Arg(0)]),
        Evaluator::Fn { .. } => panic!("a marker is an expression evaluator"),
    }
}

#[test]
fn duplicate_parallel_edges_are_permitted() {
    let mut g = Graph::new();
    let a = g.add_node(NodeKind::Inlet(Inlet::new(String::from("u8"))));
    let b = g.add_node(NodeKind::Outlet(Outlet::new(String::from("u8"))));
    g.add_edge(a, b, Edge::new(Output(0), Input(0)));
    g.add_edge(a, b, Edge::new(Output(0), Input(0)));
    assert_eq!(g.edge_list().len(), 2);
    let e = g.edge_list()[0];
    assert_eq!((e.src, e.dst), (a, b));
    let _ = ExprInput { node: a, output: Output(0), requires_clone: false };
}

#[test]
fn preorder_interleaving_quirk_is_preserved() {
    // Depth-first preorder is not a topological sort: a node reached via
    // one branch is appended before an unrelated dependency reached via a
    // sibling branch completes. The consumer then references a producer no
    // earlier step bound, which synthesis reports as fatal.
    let mut g = Graph::new();
    let n = g.add_node(NodeKind::Custom {
        tag: String::from("one"),
        node: expr_node(0, 1, vec![Segment::Lit(String::from("1"))]),
    });
    let a = g.add_node(NodeKind::Custom {
        tag: String::from("add"),
        node: expr_node(
            2,
            1,
            vec![Segment::Arg(0), Segment::Lit(String::from(" + ")), Segment::Arg(1)],
        ),
    });
    let b = g.add_node(NodeKind::Custom {
        tag: String::from("neg"),
        node: expr_node(1, 1, vec![Segment::Lit(String::from("-")), Segment::Arg(0)]),
    });
    g.add_edge(n, a, Edge::new(Output(0), Input(0)));
    g.add_edge(n, b, Edge::new(Output(0), Input(0)));
    g.add_edge(b, a, Edge::new(Output(0), Input(1)));
    let steps = push_eval_steps(&g, n);
    let visit_order: Vec<usize> = steps.iter().map(|s| s.node).collect();
    assert_eq!(visit_order, vec![n, a, b]);
    let push = EvalFn { name: String::from("entry"), attrs: Vec::new() };
    assert_eq!(
        push_eval_fn(&g, push, &steps),
        Err(CodegenError::MissingBinding { node: b, output: 0 })
    );
}

#[test]
fn edge_from_plain_indices() {
    assert_eq!(Edge::from((3, 4)), Edge::new(Output(3), Input(4)));
}

#[test]
fn incident_edges_filter_by_direction() {
    let mut g = Graph::new();
    let a = g.add_node(NodeKind::Inlet(Inlet::new(String::from("u8"))));
    let b = g.add_node(NodeKind::Outlet(Outlet::new(String::from("u8"))));
    let c = g.add_node(NodeKind::Outlet(Outlet::new(String::from("u8"))));
    g.add_edge(a, b, Edge::new(Output(0), Input(0)));
    g.add_edge(a, c, Edge::new(Output(0), Input(0)));
    g.add_edge(b, c, Edge::new(Output(0), Input(0)));
    let out_a = g.edges_outgoing(a);
    assert_eq!(out_a.len(), 2);
    assert_eq!((out_a[0].dst, out_a[1].dst), (b, c));
    let in_c = g.edges_incoming(c);
    assert_eq!(in_c.len(), 2);
    assert_eq!((in_c[0].src, in_c[1].src), (a, b));
    assert!(g.edges_incoming(a).is_empty());
}
