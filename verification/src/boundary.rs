//! Boundary marker nodes.
//!
//! An [`Inlet`] exposes an externally supplied value inside a nested graph
//! (0 inputs, 1 output); an [`Outlet`] writes its single input into shared
//! state or the enclosing return slot (1 input, 0 outputs). Both carry the
//! textual type expected at the boundary.
//!
//! [`InletNode`] and [`OutletNode`] are untyped pass-through markers kept for
//! graphs that address boundary ports without declaring their types.

use vstd::prelude::*;
use vstd::string::StringExecFns;
use crate::node::{Evaluator, EvaluatorView, Node, NodeView, Segment, SegmentView};

verus! {

/// An inlet to a nested graph.
#[derive(Clone, Debug, PartialEq, Eq)]
pub struct Inlet {
    /// The expected type for this inlet.
    pub ty: String,
}

/// An outlet from a nested graph.
#[derive(Clone, Debug, PartialEq, Eq)]
pub struct Outlet {
    /// The expected type for this outlet.
    pub ty: String,
}

/// A node that may act as an inlet into a graph, passing its single input
/// straight through.
#[derive(Clone, Debug, PartialEq, Eq)]
pub struct InletNode;

/// A node that may act as an outlet from a graph, passing its single input
/// straight through.
#[derive(Clone, Debug, PartialEq, Eq)]
pub struct OutletNode;

/// Whether some text parses as a Rust type.
pub uninterp spec fn type_parses(s: Seq<char>) -> bool;

/// Relies on `syn::parse_str::<syn::Type>`: whether the text parses as a type
/// depends on the characters alone.
#[verifier::external_body]
fn parse_type_ok(s: &str) -> (r: bool)
    ensures
        r == type_parses(s@),
{
    match syn::parse_str::<syn::Type>(s) {
        Ok(_) => true,
        Err(_) => false,
    }
}

/// The error returned when a boundary type's text does not parse as a type.
#[derive(Clone, Copy, Debug, PartialEq, Eq, Structural)]
pub struct TypeParseError;

/// The capability value of an inlet with the given boundary type: no inputs,
/// one output yielding the externally supplied value held in `state`, and the
/// boundary type as the node's state type.
pub open spec fn inlet_node_view(ty: Seq<char>) -> NodeView {
    NodeView {
        evaluator: EvaluatorView::Expr {
            n_inputs: 0,
            n_outputs: 1,
            template: seq![SegmentView::Lit("{ state.clone() }"@)],
        },
        state_type: Some(ty),
        push_eval: None,
        pull_eval: None,
    }
}

/// The capability value of an outlet with the given boundary type: one input,
/// no outputs, writing the input into the shared state slot of the boundary
/// type.
pub open spec fn outlet_node_view(ty: Seq<char>) -> NodeView {
    NodeView {
        evaluator: EvaluatorView::Expr {
            n_inputs: 1,
            n_outputs: 0,
            template: seq![
                SegmentView::Lit("{ let state: &mut "@),
                SegmentView::Lit(ty),
                SegmentView::Lit(" = state; *state = "@),
                SegmentView::Arg(0),
                SegmentView::Lit("; }"@),
            ],
        },
        state_type: Some(ty),
        push_eval: None,
        pull_eval: None,
    }
}

/// The capability value of an untyped pass-through marker: one input, one
/// output, emitting its argument unchanged, and no state.
pub open spec fn passthrough_node_view() -> NodeView {
    NodeView {
        evaluator: EvaluatorView::Expr {
            n_inputs: 1,
            n_outputs: 1,
            template: seq![SegmentView::Arg(0)],
        },
        state_type: None,
        push_eval: None,
        pull_eval: None,
    }
}

impl Inlet {
    /// Construct an inlet with the given type.
    pub fn new(ty: String) -> (r: Inlet)
        ensures
            r.ty@ == ty@,
    {
        Inlet { ty }
    }

    /// The same as `new` but validates that the given text parses as a type.
    pub fn parse(ty: &str) -> (r: Result<Inlet, TypeParseError>)
        ensures
            r matches Ok(i) ==> i.ty@ == ty@ && type_parses(ty@),
            r is Err <==> !type_parses(ty@),
    {
        if parse_type_ok(ty) {
            Ok(Inlet { ty: ty.to_owned() })
        } else {
            Err(TypeParseError)
        }
    }

    /// The inlet's capability value as a graph vertex.
    pub fn node(&self) -> (r: Node)
        ensures
            r@ == inlet_node_view(self.ty@),
    {
        let mut template: Vec<Segment> = Vec::new();
        template.push(Segment::Lit(String::from_str("{ state.clone() }")));
        let r = Node {
            evaluator: Evaluator::Expr { n_inputs: 0, n_outputs: 1, template },
            state_type: Some(self.ty.clone()),
            push_eval: None,
            pull_eval: None,
        };
        proof {
            assert(r@.evaluator->Expr_template =~= inlet_node_view(self.ty@).evaluator->Expr_template);
        }
        r
    }
}

impl Outlet {
    /// Construct an outlet with the given type.
    pub fn new(ty: String) -> (r: Outlet)
        ensures
            r.ty@ == ty@,
    {
        Outlet { ty }
    }

    /// The same as `new` but validates that the given text parses as a type.
    pub fn parse(ty: &str) -> (r: Result<Outlet, TypeParseError>)
        ensures
            r matches Ok(o) ==> o.ty@ == ty@ && type_parses(ty@),
            r is Err <==> !type_parses(ty@),
    {
        if parse_type_ok(ty) {
            Ok(Outlet { ty: ty.to_owned() })
        } else {
            Err(TypeParseError)
        }
    }

    /// The outlet's capability value as a graph vertex.
    pub fn node(&self) -> (r: Node)
        ensures
            r@ == outlet_node_view(self.ty@),
    {
        let mut template: Vec<Segment> = Vec::new();
        template.push(Segment::Lit(String::from_str("{ let state: &mut ")));
        template.push(Segment::Lit(self.ty.clone()));
        template.push(Segment::Lit(String::from_str(" = state; *state = ")));
        template.push(Segment::Arg(0));
        template.push(Segment::Lit(String::from_str("; }")));
        let r = Node {
            evaluator: Evaluator::Expr { n_inputs: 1, n_outputs: 0, template },
            state_type: Some(self.ty.clone()),
            push_eval: None,
            pull_eval: None,
        };
        proof {
            assert(r@.evaluator->Expr_template =~= outlet_node_view(self.ty@).evaluator->Expr_template);
        }
        r
    }
}

impl InletNode {
    /// The marker's capability value as a graph vertex.
    pub fn node(&self) -> (r: Node)
        ensures
            r@ == passthrough_node_view(),
    {
        let mut template: Vec<Segment> = Vec::new();
        template.push(Segment::Arg(0));
        let r = Node {
            evaluator: Evaluator::Expr { n_inputs: 1, n_outputs: 1, template },
            state_type: None,
            push_eval: None,
            pull_eval: None,
        };
        proof {
            assert(r@.evaluator->Expr_template =~= passthrough_node_view().evaluator->Expr_template);
        }
        r
    }
}

impl OutletNode {
    /// The marker's capability value as a graph vertex.
    pub fn node(&self) -> (r: Node)
        ensures
            r@ == passthrough_node_view(),
    {
        let mut template: Vec<Segment> = Vec::new();
        template.push(Segment::Arg(0));
        let r = Node {
            evaluator: Evaluator::Expr { n_inputs: 1, n_outputs: 1, template },
            state_type: None,
            push_eval: None,
            pull_eval: None,
        };
        proof {
            assert(r@.evaluator->Expr_template =~= passthrough_node_view().evaluator->Expr_template);
        }
        r
    }
}

} // verus!
