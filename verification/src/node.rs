//! The node capability model.
//!
//! A [`Node`] fixes its input and output arity once and exposes an
//! [`Evaluator`]: the rule by which code is generated for the node. An
//! `Evaluator::Expr` is a pure template from an ordered list of argument
//! expressions (one per input) to exactly one result expression; an
//! `Evaluator::Fn` is a complete, self-contained function definition, used
//! when the body must be produced by a nested compilation.
//!
//! Every type here carries a mathematical view (`@`) over which all contracts
//! are stated: text becomes `Seq<char>`, lists become `Seq`.

use vstd::prelude::*;
use vstd::string::StringExecFns;

verus! {

/// A zero-based index identifying one of a node's outputs.
#[derive(Copy, Clone, Debug, PartialEq, Eq, Hash, Structural)]
pub struct Output(pub u32);

/// A zero-based index identifying one of a node's inputs.
#[derive(Copy, Clone, Debug, PartialEq, Eq, Hash, Structural)]
pub struct Input(pub u32);

/// One piece of an expression template.
///
/// A template is an ordered list of segments; rendering a template
/// concatenates the segments, replacing each `Arg(i)` with the expression
/// supplied for the node's `i`th input.
#[derive(Clone, Debug, PartialEq, Eq)]
pub enum Segment {
    /// Literal text, emitted as it stands.
    Lit(String),
    /// The expression bound to the argument at the given input index.
    Arg(u32),
}

/// The mathematical value of a [`Segment`].
pub enum SegmentView {
    Lit(Seq<char>),
    Arg(u32),
}

impl View for Segment {
    type V = SegmentView;

    open spec fn view(&self) -> SegmentView {
        match self {
            Segment::Lit(s) => SegmentView::Lit(s@),
            Segment::Arg(a) => SegmentView::Arg(*a),
        }
    }
}

impl DeepView for Segment {
    type V = SegmentView;

    open spec fn deep_view(&self) -> SegmentView {
        self.view()
    }
}

/// A node's code-generation rule.
#[derive(Clone, Debug, PartialEq, Eq)]
pub enum Evaluator {
    /// A pure expression template: from `n_inputs` argument expressions to
    /// exactly one result expression. For nodes with more than one output the
    /// produced expression is expected to denote a tuple-like value of
    /// `n_outputs` elements (a convention, not statically enforced here).
    Expr { n_inputs: u32, n_outputs: u32, template: Vec<Segment> },
    /// A complete function definition produced by a nested compilation.
    /// `name` is the identifier the definition binds, so that a statement may
    /// call it; `item` is the full definition's text.
    Fn { n_inputs: u32, n_outputs: u32, name: String, item: String },
}

/// The mathematical value of an [`Evaluator`].
pub enum EvaluatorView {
    Expr { n_inputs: u32, n_outputs: u32, template: Seq<SegmentView> },
    Fn { n_inputs: u32, n_outputs: u32, name: Seq<char>, item: Seq<char> },
}

impl View for Evaluator {
    type V = EvaluatorView;

    open spec fn view(&self) -> EvaluatorView {
        match self {
            Evaluator::Expr { n_inputs, n_outputs, template } => EvaluatorView::Expr {
                n_inputs: *n_inputs,
                n_outputs: *n_outputs,
                template: template.deep_view(),
            },
            Evaluator::Fn { n_inputs, n_outputs, name, item } => EvaluatorView::Fn {
                n_inputs: *n_inputs,
                n_outputs: *n_outputs,
                name: name@,
                item: item@,
            },
        }
    }
}

impl EvaluatorView {
    /// The number of argument expressions the evaluator accepts.
    pub open spec fn n_inputs(&self) -> u32 {
        match self {
            EvaluatorView::Expr { n_inputs, .. } => *n_inputs,
            EvaluatorView::Fn { n_inputs, .. } => *n_inputs,
        }
    }

    /// The number of values the evaluator's result denotes.
    pub open spec fn n_outputs(&self) -> u32 {
        match self {
            EvaluatorView::Expr { n_outputs, .. } => *n_outputs,
            EvaluatorView::Fn { n_outputs, .. } => *n_outputs,
        }
    }
}

/// The descriptor of an externally callable entry point: the generated
/// function's name and its attribute lines.
#[derive(Clone, Debug, PartialEq, Eq)]
pub struct EvalFn {
    /// The name of the generated entry function.
    pub name: String,
    /// Attribute lines emitted above the generated function, each written in
    /// full (for example `#[no_mangle]`).
    pub attrs: Vec<String>,
}

/// The mathematical value of an [`EvalFn`].
pub struct EvalFnView {
    pub name: Seq<char>,
    pub attrs: Seq<Seq<char>>,
}

impl View for EvalFn {
    type V = EvalFnView;

    open spec fn view(&self) -> EvalFnView {
        EvalFnView { name: self.name@, attrs: self.attrs.deep_view() }
    }
}

impl DeepView for EvalFn {
    type V = EvalFnView;

    open spec fn deep_view(&self) -> EvalFnView {
        self.view()
    }
}

/// A graph vertex: an evaluator together with the node's optional persistent
/// state type and optional entry descriptors.
#[derive(Clone, Debug, PartialEq, Eq)]
pub struct Node {
    /// The node's code-generation rule; also fixes the node's arity.
    pub evaluator: Evaluator,
    /// The textual type of the persistent state this node owns between
    /// evaluations, if any.
    pub state_type: Option<String>,
    /// When present, the pipeline emits one standalone, parameterless,
    /// externally callable function performing push evaluation from this node.
    pub push_eval: Option<EvalFn>,
    /// Demand-driven entry descriptor; accepted as data but reserved, with no
    /// generation behaviour yet.
    pub pull_eval: Option<EvalFn>,
}

/// The mathematical value of a [`Node`].
pub struct NodeView {
    pub evaluator: EvaluatorView,
    pub state_type: Option<Seq<char>>,
    pub push_eval: Option<EvalFnView>,
    pub pull_eval: Option<EvalFnView>,
}

impl View for Node {
    type V = NodeView;

    open spec fn view(&self) -> NodeView {
        NodeView {
            evaluator: self.evaluator@,
            state_type: match &self.state_type {
                Some(t) => Some(t@),
                None => None,
            },
            push_eval: match &self.push_eval {
                Some(e) => Some(e@),
                None => None,
            },
            pull_eval: match &self.pull_eval {
                Some(e) => Some(e@),
                None => None,
            },
        }
    }
}

impl DeepView for Node {
    type V = NodeView;

    open spec fn deep_view(&self) -> NodeView {
        self.view()
    }
}

impl NodeView {
    /// The node's declared input arity.
    pub open spec fn n_inputs(&self) -> u32 {
        self.evaluator.n_inputs()
    }

    /// The node's declared output arity.
    pub open spec fn n_outputs(&self) -> u32 {
        self.evaluator.n_outputs()
    }
}

impl Segment {
    /// An exact copy of this segment.
    pub fn duplicate(&self) -> (r: Segment)
        ensures
            r@ == self@,
    {
        match self {
            Segment::Lit(s) => Segment::Lit(s.clone()),
            Segment::Arg(a) => Segment::Arg(*a),
        }
    }
}

/// An exact copy of a template.
pub fn duplicate_template(segs: &Vec<Segment>) -> (r: Vec<Segment>)
    ensures
        r.deep_view() == segs.deep_view(),
{
    let mut r: Vec<Segment> = Vec::new();
    let mut i: usize = 0;
    while i < segs.len()
        invariant
            i <= segs.len(),
            r.deep_view() =~= segs.deep_view().take(i as int),
        decreases segs.len() - i,
    {
        let ghost r0 = r.deep_view();
        r.push(segs[i].duplicate());
        proof {
            assert(r.deep_view() =~= r0.push(segs.deep_view()[i as int]));
            assert(segs.deep_view().take(i + 1) =~= segs.deep_view().take(i as int).push(
                segs.deep_view()[i as int],
            ));
        }
        i = i + 1;
    }
    proof {
        assert(segs.deep_view().take(segs@.len() as int) =~= segs.deep_view());
    }
    r
}

/// An exact copy of a list of attribute lines.
pub fn duplicate_strings(v: &Vec<String>) -> (r: Vec<String>)
    ensures
        r.deep_view() == v.deep_view(),
{
    let mut r: Vec<String> = Vec::new();
    let mut i: usize = 0;
    while i < v.len()
        invariant
            i <= v.len(),
            r.deep_view() =~= v.deep_view().take(i as int),
        decreases v.len() - i,
    {
        let ghost r0 = r.deep_view();
        r.push(v[i].clone());
        proof {
            assert(r.deep_view() =~= r0.push(v.deep_view()[i as int]));
            assert(v.deep_view().take(i + 1) =~= v.deep_view().take(i as int).push(
                v.deep_view()[i as int],
            ));
        }
        i = i + 1;
    }
    proof {
        assert(v.deep_view().take(v@.len() as int) =~= v.deep_view());
    }
    r
}

impl EvalFn {
    /// An exact copy of this entry descriptor.
    pub fn duplicate(&self) -> (r: EvalFn)
        ensures
            r@ == self@,
    {
        EvalFn { name: self.name.clone(), attrs: duplicate_strings(&self.attrs) }
    }
}

impl Evaluator {
    /// An exact copy of this evaluator.
    pub fn duplicate(&self) -> (r: Evaluator)
        ensures
            r@ == self@,
    {
        match self {
            Evaluator::Expr { n_inputs, n_outputs, template } => Evaluator::Expr {
                n_inputs: *n_inputs,
                n_outputs: *n_outputs,
                template: duplicate_template(template),
            },
            Evaluator::Fn { n_inputs, n_outputs, name, item } => Evaluator::Fn {
                n_inputs: *n_inputs,
                n_outputs: *n_outputs,
                name: name.clone(),
                item: item.clone(),
            },
        }
    }
}

impl Node {
    /// The node's declared input arity.
    pub fn n_inputs(&self) -> (r: u32)
        ensures
            r == self@.n_inputs(),
    {
        match &self.evaluator {
            Evaluator::Expr { n_inputs, .. } => *n_inputs,
            Evaluator::Fn { n_inputs, .. } => *n_inputs,
        }
    }

    /// The node's declared output arity.
    pub fn n_outputs(&self) -> (r: u32)
        ensures
            r == self@.n_outputs(),
    {
        match &self.evaluator {
            Evaluator::Expr { n_outputs, .. } => *n_outputs,
            Evaluator::Fn { n_outputs, .. } => *n_outputs,
        }
    }

    /// An exact copy of this node.
    pub fn duplicate(&self) -> (r: Node)
        ensures
            r@ == self@,
    {
        Node {
            evaluator: self.evaluator.duplicate(),
            state_type: match &self.state_type {
                Some(t) => Some(t.clone()),
                None => None,
            },
            push_eval: match &self.push_eval {
                Some(e) => Some(e.duplicate()),
                None => None,
            },
            pull_eval: match &self.pull_eval {
                Some(e) => Some(e.duplicate()),
                None => None,
            },
        }
    }
}

/// The text a template produces for the given argument expressions.
///
/// An `Arg` segment whose index lies outside `args` contributes nothing; a
/// well-formed template (see [`template_wf`]) never contains such a segment
/// when applied to `n_inputs` arguments.
pub open spec fn spec_apply_template(segs: Seq<SegmentView>, args: Seq<Seq<char>>) -> Seq<char>
    decreases segs.len(),
{
    if segs.len() == 0 {
        Seq::empty()
    } else {
        spec_apply_template(segs.drop_last(), args) + match segs.last() {
            SegmentView::Lit(s) => s,
            SegmentView::Arg(i) => {
                if i < args.len() {
                    args[i as int]
                } else {
                    Seq::empty()
                }
            },
        }
    }
}

/// Every `Arg` segment of the template addresses one of the first `n_inputs`
/// argument slots.
pub open spec fn template_wf(segs: Seq<SegmentView>, n_inputs: u32) -> bool {
    forall|i: int|
        0 <= i < segs.len() ==> (#[trigger] segs[i] matches SegmentView::Arg(a) ==> a < n_inputs)
}

/// Render a template over the given argument expressions.
pub fn apply_template(segs: &Vec<Segment>, args: &Vec<String>) -> (r: String)
    ensures
        r@ == spec_apply_template(segs.deep_view(), args.deep_view()),
{
    let mut r = String::new();
    let mut i: usize = 0;
    while i < segs.len()
        invariant
            i <= segs.len(),
            r@ == spec_apply_template(segs.deep_view().take(i as int), args.deep_view()),
        decreases segs.len() - i,
    {
        proof {
            assert(segs.deep_view().take(i + 1).drop_last() =~= segs.deep_view().take(i as int));
            assert(segs.deep_view().take(i + 1).last() == segs.deep_view()[i as int]);
        }
        match &segs[i] {
            Segment::Lit(s) => {
                r.append(s.as_str());
            },
            Segment::Arg(a) => {
                if (*a as usize) < args.len() {
                    r.append(args[*a as usize].as_str());
                }
            },
        }
        i = i + 1;
    }
    proof {
        assert(segs.deep_view().take(segs@.len() as int) =~= segs.deep_view());
    }
    r
}

} // verus!
