//! End-to-end generation scenarios over small concrete graphs.

use gantz::codegen::{push_eval_steps, push_nodes};
use gantz::emit::push_eval_fn;
use gantz::graph::{Edge, Graph, NodeKind};
use gantz::node::{EvalFn, Evaluator, Input, Node, Output, Segment};

fn expr_node(n_inputs: u32, n_outputs: u32, template: Vec<Segment>, push: Option<&str>) -> Node {
    Node {
        evaluator: Evaluator::Expr { n_inputs, n_outputs, template },
        state_type: None,
        push_eval: push.map(|name| EvalFn { name: String::from(name), attrs: Vec::new() }),
        pull_eval: None,
    }
}

fn one_node() -> NodeKind {
    NodeKind::Custom {
        tag: String::from("one"),
        node: expr_node(0, 1, vec![Segment::Lit(String::from("1"))], Some("one_push_eval")),
    }
}

fn add_node() -> NodeKind {
    NodeKind::Custom {
        tag: String::from("add"),
        node: expr_node(
            2,
            1,
            vec![
                Segment::Arg(0),
                Segment::Lit(String::from(" + ")),
                Segment::Arg(1),
            ],
            None,
        ),
    }
}

fn debug_node() -> NodeKind {
    NodeKind::Custom {
        tag: String::from("debug"),
        node: expr_node(
            1,
            0,
            vec![
                Segment::Lit(String::from("println!(\"{:?}\", ")),
                Segment::Arg(0),
                Segment::Lit(String::from(")")),
            ],
            None,
        ),
    }
}

/// `One` wired by two edges to both inputs of `Add`, wired to `Debug`.
fn one_add_debug() -> (Graph, usize, usize, usize) {
    let mut g = Graph::new();
    let one = g.add_node(one_node());
    let add = g.add_node(add_node());
    let debug = g.add_node(debug_node());
    g.add_edge(one, add, Edge::new(Output(0), Input(0)));
    g.add_edge(one, add, Edge::new(Output(0), Input(1)));
    g.add_edge(add, debug, Edge::new(Output(0), Input(0)));
    (g, one, add, debug)
}

#[test]
fn scenario_one_add_debug_clone_flags() {
    let (g, one, add, debug) = one_add_debug();
    let steps = push_eval_steps(&g, one);
    assert_eq!(steps.len(), 3);
    assert_eq!(steps[0].node, one);
    assert_eq!(steps[1].node, add);
    assert_eq!(steps[2].node, debug);
    // Of the two edges out of One's only output, exactly the first
    // enumerated requires a clone.
    let a0 = steps[1].args[0].unwrap();
    let a1 = steps[1].args[1].unwrap();
    assert!(a0.requires_clone);
    assert!(!a1.requires_clone);
    assert_eq!(a0.node, one);
    assert_eq!(a1.node, one);
    // A single-consumer output is never flagged.
    let d0 = steps[2].args[0].unwrap();
    assert!(!d0.requires_clone);
    assert_eq!(d0.node, add);
}

#[test]
fn scenario_one_add_debug_generated_text() {
    let (g, one, _, _) = one_add_debug();
    let steps = push_eval_steps(&g, one);
    let push = EvalFn { name: String::from("one_push_eval"), attrs: Vec::new() };
    let text = push_eval_fn(&g, push, &steps).unwrap();
    // Evaluating this function prints `2`: both of Add's arguments name the
    // value bound for One's output, the first as an explicit copy.
    let expected = "pub fn one_push_eval() {\n\
        \x20   let _node0_output0 = 1;\n\
        \x20   let _node1_output0 = { _node0_output0.clone() } + { _node0_output0 };\n\
        \x20   let () = println!(\"{:?}\", { _node1_output0 });\n\
        }\n";
    assert_eq!(text, expected);
}

#[test]
fn scenario_two_outputs_tuple_binding() {
    // A node with 2 declared outputs feeding a downstream node with 2
    // inputs, each output consumed exactly once.
    let mut g = Graph::new();
    let pair = g.add_node(NodeKind::Custom {
        tag: String::from("pair"),
        node: expr_node(0, 2, vec![Segment::Lit(String::from("(1, 2)"))], Some("pair_push_eval")),
    });
    let sum = g.add_node(add_node());
    g.add_edge(pair, sum, Edge::new(Output(0), Input(0)));
    g.add_edge(pair, sum, Edge::new(Output(1), Input(1)));
    let steps = push_eval_steps(&g, pair);
    // Neither consuming reference is cloned.
    assert!(!steps[1].args[0].unwrap().requires_clone);
    assert!(!steps[1].args[1].unwrap().requires_clone);
    let push = EvalFn { name: String::from("pair_push_eval"), attrs: Vec::new() };
    let text = push_eval_fn(&g, push, &steps).unwrap();
    let expected = "pub fn pair_push_eval() {\n\
        \x20   let (_node0_output0, _node0_output1) = (1, 2);\n\
        \x20   let _node1_output0 = { _node0_output0 } + { _node0_output1 };\n\
        }\n";
    assert_eq!(text, expected);
}

#[test]
fn boundary_zero_input_node_ignores_incoming_edges() {
    // A node with 0 declared inputs always receives an empty argument list,
    // regardless of any incorrectly attached incoming edges.
    let mut g = Graph::new();
    let one = g.add_node(one_node());
    let other = g.add_node(one_node());
    g.add_edge(other, one, Edge::new(Output(0), Input(0)));
    let steps = push_eval_steps(&g, one);
    assert_eq!(steps[0].node, one);
    assert!(steps[0].args.is_empty());
}

#[test]
fn generated_attrs_and_visibility() {
    let mut g = Graph::new();
    let one = g.add_node(NodeKind::Custom {
        tag: String::from("one"),
        node: Node {
            evaluator: Evaluator::Expr {
                n_inputs: 0,
                n_outputs: 1,
                template: vec![Segment::Lit(String::from("1"))],
            },
            state_type: None,
            push_eval: Some(EvalFn {
                name: String::from("entry"),
                attrs: vec![String::from("#[no_mangle]")],
            }),
            pull_eval: None,
        },
    });
    let steps = push_eval_steps(&g, one);
    let push = EvalFn {
        name: String::from("entry"),
        attrs: vec![String::from("#[no_mangle]")],
    };
    let text = push_eval_fn(&g, push, &steps).unwrap();
    assert_eq!(text, "#[no_mangle]\npub fn entry() {\n    let _node0_output0 = 1;\n}\n");
}

#[test]
fn file_collects_all_push_entries_and_is_deterministic() {
    let (g, _, _, _) = one_add_debug();
    let pushes = push_nodes(&g);
    assert_eq!(pushes.len(), 1);
    assert_eq!(pushes[0].0, 0);
    assert_eq!(pushes[0].1.name, "one_push_eval");
    let first = gantz::emit::file(&g).unwrap();
    let second = gantz::emit::file(&g).unwrap();
    // Recompiling an unchanged graph yields byte-identical generated text.
    assert_eq!(first, second);
    assert!(first.starts_with("pub fn one_push_eval() {\n"));
}

#[test]
fn unconnected_inputs_resolve_to_defaults() {
    let mut g = Graph::new();
    let add = g.add_node(add_node());
    let steps = push_eval_steps(&g, add);
    assert_eq!(steps[0].args, vec![None, None]);
    let push = EvalFn { name: String::from("lonely"), attrs: Vec::new() };
    let text = push_eval_fn(&g, push, &steps).unwrap();
    let expected = "pub fn lonely() {\n\
        \x20   let _node0_output0 = Default::default() + Default::default();\n\
        }\n";
    assert_eq!(text, expected);
}

#[test]
fn last_enumerated_edge_into_one_input_wins() {
    // Two edges into the same input: the later-enumerated one silently wins.
    let mut g = Graph::new();
    let a = g.add_node(one_node());
    let b = g.add_node(one_node());
    let sink = g.add_node(debug_node());
    g.add_edge(a, sink, Edge::new(Output(0), Input(0)));
    g.add_edge(b, sink, Edge::new(Output(0), Input(0)));
    // Push from the sink alone records both producers' claims on slot 0;
    // the edge from `b` was enumerated last.
    let steps = push_eval_steps(&g, sink);
    assert_eq!(steps[0].args[0].unwrap().node, b);
}
