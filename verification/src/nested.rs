//! The nested-graph adapter.
//!
//! A [`GraphNode`] presents an entire inner graph as one node of an outer
//! graph: it stores the inner [`Graph`], ordered inlet and outlet identifier
//! lists, and exposes a full-function evaluator. The generated function has
//! one parameter per inlet, sequentially named, a trailing mutable state
//! parameter of the graph's aggregate state type, and returns nothing, the
//! outlet's type, or a tuple of outlet types. Its body is produced by
//! running the evaluation-order engine and the code synthesizer over the
//! inner graph, seeded at each inlet in order: inlet nodes act as sources
//! yielding the externally supplied parameter value, outlet nodes as sinks
//! capturing their input for the return slot.
//!
//! Inlet and outlet positional ordering is the addressing scheme for the
//! outer graph's edges into and out of the adapter node; it must be kept
//! stable across persistence round trips.

use vstd::prelude::*;
use vstd::string::StringExecFns;
use crate::codegen::{EvalStepView, multi_order, seed_run, dfs_run, initial_state, mark,
    lemma_seed_run_mono, steps_spec, steps_for_order, traverse_from, DfsState};
use crate::emit::{CodegenError, arg_texts, dec_spec, dec_string, emit_arg_texts, emit_stmt,
    join_comma, stmt_spec, var_name, var_name_spec};
use crate::graph::{EdgeRec, Graph, NodeKind, NodeKindView};
use crate::node::{EvalFn, Evaluator, EvaluatorView, Node};

verus! {

/// The name of the function generated for performing full evaluation of a
/// graph that exposes one or more inlets or outlets as a nested node.
pub fn full_eval_fn_ident() -> (r: String)
    ensures
        r@ == "full_eval"@,
{
    String::from_str("full_eval")
}

/// The entry descriptor for performing full evaluation of a graph.
pub fn full_eval_fn() -> (r: EvalFn)
    ensures
        r@.name == "full_eval"@,
        r@.attrs == Seq::<Seq<char>>::empty(),
{
    let r = EvalFn { name: String::from_str("full_eval"), attrs: Vec::new() };
    proof {
        assert(r@.attrs =~= Seq::<Seq<char>>::empty());
    }
    r
}

/// Every listed boundary identifier exists in the graph and declares a state
/// type.
pub open spec fn boundary_ok(nodes: Seq<NodeKindView>, ids: Seq<usize>) -> bool {
    forall|i: int|
        0 <= i < ids.len() ==> (#[trigger] ids[i]) < nodes.len() && nodes[
            ids[i] as int
        ].node_view().state_type is Some
}

/// The declared state type of the node at `id`.
pub open spec fn state_type_of(nodes: Seq<NodeKindView>, id: usize) -> Seq<char> {
    nodes[id as int].node_view().state_type.unwrap()
}

/// The parameter list text for the first `k` inlets, each parameter
/// followed by a comma: `inlet0: T0, inlet1: T1, `.
pub open spec fn inlet_params_spec(nodes: Seq<NodeKindView>, inlets: Seq<usize>, k: int) -> Seq<
    char,
>
    decreases k,
{
    if k <= 0 {
        Seq::empty()
    } else {
        inlet_params_spec(nodes, inlets, k - 1) + "inlet"@ + dec_spec((k - 1) as nat) + ": "@
            + state_type_of(nodes, inlets[k - 1]) + ", "@
    }
}

/// The outlet types joined with `", "`.
pub open spec fn outlet_types_spec(nodes: Seq<NodeKindView>, outlets: Seq<usize>, k: int) -> Seq<
    char,
>
    decreases k,
{
    if k <= 0 {
        Seq::empty()
    } else if k == 1 {
        state_type_of(nodes, outlets[0])
    } else {
        outlet_types_spec(nodes, outlets, k - 1) + ", "@ + state_type_of(nodes, outlets[k - 1])
    }
}

/// The return-type text: nothing for no outlets, the outlet's type for one,
/// a tuple of outlet types for several.
pub open spec fn return_type_spec(nodes: Seq<NodeKindView>, outlets: Seq<usize>) -> Seq<char> {
    if outlets.len() == 0 {
        Seq::empty()
    } else if outlets.len() == 1 {
        " -> "@ + state_type_of(nodes, outlets[0])
    } else {
        " -> ("@ + outlet_types_spec(nodes, outlets, outlets.len() as int) + ")"@
    }
}

/// The declared state types of the first `upto` nodes, in identifier order.
pub open spec fn state_types_spec(nodes: Seq<NodeKindView>, upto: int) -> Seq<Seq<char>>
    decreases upto,
{
    if upto <= 0 {
        Seq::empty()
    } else if upto <= nodes.len() && nodes[upto - 1].node_view().state_type is Some {
        state_types_spec(nodes, upto - 1).push(nodes[upto - 1].node_view().state_type.unwrap())
    } else {
        state_types_spec(nodes, upto - 1)
    }
}

/// The aggregate state type of a graph: a tuple of every node's declared
/// state type, in identifier order.
pub open spec fn graph_state_type_spec(nodes: Seq<NodeKindView>) -> Seq<char> {
    "("@ + join_comma(state_types_spec(nodes, nodes.len() as int)) + ")"@
}

/// The signature text of the adapter's evaluator function: one parameter
/// per inlet, a trailing mutable state parameter of the aggregate state
/// type, and the outlet-determined return type.
pub open spec fn signature_spec(
    nodes: Seq<NodeKindView>,
    inlets: Seq<usize>,
    outlets: Seq<usize>,
) -> Seq<char> {
    "fn graph_node_evaluator_fn("@ + inlet_params_spec(nodes, inlets, inlets.len() as int)
        + "state: &mut "@ + graph_state_type_spec(nodes) + ")"@ + return_type_spec(nodes, outlets)
}

/// The position of the first occurrence of `m` among the first `upto`
/// listed identifiers, if any.
pub open spec fn index_of_id(ids: Seq<usize>, m: usize, upto: int) -> Option<int>
    decreases upto,
{
    if upto <= 0 {
        None
    } else {
        match index_of_id(ids, m, upto - 1) {
            Some(i) => Some(i),
            None => {
                if upto <= ids.len() && ids[upto - 1] == m {
                    Some(upto - 1)
                } else {
                    None
                }
            },
        }
    }
}

/// The binding statement for one step of the inner compilation: an inlet
/// node binds the matching parameter, an outlet node captures its single
/// resolved input for the return slot, and any other node is synthesized as
/// in a plain push function.
pub open spec fn nested_stmt_spec(
    nodes: Seq<NodeKindView>,
    inlets: Seq<usize>,
    outlets: Seq<usize>,
    steps: Seq<EvalStepView>,
    si: int,
) -> Result<Seq<char>, CodegenError> {
    let m = steps[si].node;
    match index_of_id(inlets, m, inlets.len() as int) {
        Some(i) => Ok(
            "let "@ + var_name_spec(si as nat, 0) + " = inlet"@ + dec_spec(i as nat) + ";"@,
        ),
        None => match index_of_id(outlets, m, outlets.len() as int) {
            Some(j) => {
                if steps[si].args.len() != 1 {
                    Err(CodegenError::ArityMismatch { node: m })
                } else {
                    match arg_texts(nodes, steps, si, steps[si].args) {
                        Err(e) => Err(e),
                        Ok(ts) => Ok(
                            "let _outlet"@ + dec_spec(j as nat) + " = "@ + ts[0] + ";"@,
                        ),
                    }
                }
            },
            None => stmt_spec(nodes, steps, si),
        },
    }
}

/// The statements of the inner compilation's first `upto` steps.
pub open spec fn nested_body_spec(
    nodes: Seq<NodeKindView>,
    inlets: Seq<usize>,
    outlets: Seq<usize>,
    steps: Seq<EvalStepView>,
    upto: int,
) -> Result<Seq<char>, CodegenError>
    decreases upto,
{
    if upto <= 0 {
        Ok(Seq::empty())
    } else {
        match nested_body_spec(nodes, inlets, outlets, steps, upto - 1) {
            Err(e) => Err(e),
            Ok(t) => match nested_stmt_spec(nodes, inlets, outlets, steps, upto - 1) {
                Err(e) => Err(e),
                Ok(s) => Ok(t + "    "@ + s + "\n"@),
            },
        }
    }
}

/// Default bindings for the first `k` outlets the traversal never visited:
/// an outlet outside the inlet-driven flow takes the default value.
pub open spec fn outlet_default_spec(order: Seq<usize>, outlets: Seq<usize>, k: int) -> Seq<char>
    decreases k,
{
    if k <= 0 {
        Seq::empty()
    } else {
        outlet_default_spec(order, outlets, k - 1) + if order.contains(outlets[k - 1]) {
            Seq::<char>::empty()
        } else {
            "    let _outlet"@ + dec_spec((k - 1) as nat) + " = Default::default();\n"@
        }
    }
}

/// The captured outlet values joined with `", "`.
pub open spec fn outlet_names_spec(k: nat) -> Seq<char>
    decreases k,
{
    if k == 0 {
        Seq::empty()
    } else if k == 1 {
        "_outlet"@ + dec_spec(0)
    } else {
        outlet_names_spec((k - 1) as nat) + ", "@ + "_outlet"@ + dec_spec((k - 1) as nat)
    }
}

/// The trailing return expression line: nothing for no outlets, the single
/// captured value for one, a tuple for several.
pub open spec fn return_line_spec(n_outlets: nat) -> Seq<char> {
    if n_outlets == 0 {
        Seq::empty()
    } else if n_outlets == 1 {
        "    _outlet0\n"@
    } else {
        "    ("@ + outlet_names_spec(n_outlets) + ")\n"@
    }
}

/// The complete text of the adapter's evaluator function for a graph with
/// the given boundary lists.
pub open spec fn graph_node_item_spec(
    nodes: Seq<NodeKindView>,
    edges: Seq<EdgeRec>,
    inlets: Seq<usize>,
    outlets: Seq<usize>,
) -> Result<Seq<char>, CodegenError> {
    let order = multi_order(nodes.len(), edges, inlets);
    let steps = steps_spec(nodes, edges, order);
    match nested_body_spec(nodes, inlets, outlets, steps, steps.len() as int) {
        Err(e) => Err(e),
        Ok(b) => Ok(
            signature_spec(nodes, inlets, outlets) + " {\n"@ + b + outlet_default_spec(
                order,
                outlets,
                outlets.len() as int,
            ) + return_line_spec(outlets.len() as nat) + "}\n"@,
        ),
    }
}

/// Nested-graph embedding law: the adapter's generated function holds,
/// verbatim between its signature and its return lines, exactly the
/// statements of the inner graph's own compilation — the evaluation steps of
/// a traversal seeded at each inlet in order, synthesized under the boundary
/// special cases. Invoking the adapter therefore performs the inner graph's
/// push evaluation inlined with the supplied inputs and shared state; the
/// core never executes code, so the claim proved here is the textual
/// embedding.
pub proof fn lemma_graph_node_embeds_inner(
    nodes: Seq<NodeKindView>,
    edges: Seq<EdgeRec>,
    inlets: Seq<usize>,
    outlets: Seq<usize>,
)
    requires
        graph_node_item_spec(nodes, edges, inlets, outlets) is Ok,
    ensures
        ({
            let order = multi_order(nodes.len(), edges, inlets);
            let steps = steps_spec(nodes, edges, order);
            &&& nested_body_spec(nodes, inlets, outlets, steps, steps.len() as int) is Ok
            &&& graph_node_item_spec(nodes, edges, inlets, outlets).unwrap() == signature_spec(
                nodes,
                inlets,
                outlets,
            ) + " {\n"@ + nested_body_spec(
                nodes,
                inlets,
                outlets,
                steps,
                steps.len() as int,
            ).unwrap() + outlet_default_spec(order, outlets, outlets.len() as int)
                + return_line_spec(outlets.len() as nat) + "}\n"@
        }),
{
}

/// A node that itself is implemented in terms of a graph of nodes.
pub struct GraphNode {
    /// The graph used to evaluate the node.
    pub graph: Graph,
    /// The identifiers of the inner nodes acting as inputs into the graph
    /// node, in positional order.
    pub inlets: Vec<usize>,
    /// The identifiers of the inner nodes acting as outputs of the graph
    /// node, in positional order.
    pub outlets: Vec<usize>,
}

impl GraphNode {
    /// The inner graph is well formed and every boundary identifier names an
    /// existing node that declares a state type.
    pub open spec fn wf(&self) -> bool {
        &&& self.graph.wf()
        &&& boundary_ok(self.graph.nodes(), self.inlets@)
        &&& boundary_ok(self.graph.nodes(), self.outlets@)
    }

    /// Add a node to the inner graph and record its identifier as the next
    /// inlet position.
    pub fn add_inlet(&mut self, n: NodeKind) -> (id: usize)
        ensures
            final(self).graph.nodes() == old(self).graph.nodes().push(n@),
            final(self).graph.edges() == old(self).graph.edges(),
            final(self).inlets@ == old(self).inlets@.push(id),
            final(self).outlets@ == old(self).outlets@,
            id == old(self).graph.nodes().len(),
            old(self).wf() && n@.node_view().state_type is Some ==> final(self).wf(),
    {
        let id = self.graph.add_node(n);
        self.inlets.push(id);
        proof {
            if old(self).wf() && n@.node_view().state_type is Some {
                assert forall|i: int| 0 <= i < self.inlets@.len() implies (
                #[trigger] self.inlets@[i]) < self.graph.nodes().len() && self.graph.nodes()[
                    self.inlets@[i] as int
                ].node_view().state_type is Some by {
                    if i < old(self).inlets@.len() {
                        assert(self.inlets@[i] == old(self).inlets@[i]);
                    }
                }
            }
        }
        id
    }

    /// Add a node to the inner graph and record its identifier as the next
    /// outlet position.
    pub fn add_outlet(&mut self, n: NodeKind) -> (id: usize)
        ensures
            final(self).graph.nodes() == old(self).graph.nodes().push(n@),
            final(self).graph.edges() == old(self).graph.edges(),
            final(self).outlets@ == old(self).outlets@.push(id),
            final(self).inlets@ == old(self).inlets@,
            id == old(self).graph.nodes().len(),
            old(self).wf() && n@.node_view().state_type is Some ==> final(self).wf(),
    {
        let id = self.graph.add_node(n);
        self.outlets.push(id);
        proof {
            if old(self).wf() && n@.node_view().state_type is Some {
                assert forall|i: int| 0 <= i < self.outlets@.len() implies (
                #[trigger] self.outlets@[i]) < self.graph.nodes().len() && self.graph.nodes()[
                    self.outlets@[i] as int
                ].node_view().state_type is Some by {
                    if i < old(self).outlets@.len() {
                        assert(self.outlets@[i] == old(self).outlets@[i]);
                    }
                }
            }
        }
        id
    }

    /// The aggregate state type of the inner graph: a tuple of every inner
    /// node's declared state type.
    pub fn state_type(&self) -> (r: String)
        ensures
            r@ == graph_state_type_spec(self.graph.nodes()),
    {
        let ghost nodes_v = self.graph.nodes();
        let kinds = self.graph.node_list();
        let mut tys: Vec<String> = Vec::new();
        let mut m: usize = 0;
        while m < kinds.len()
            invariant
                m <= kinds.len(),
                kinds.deep_view() == nodes_v,
                tys.deep_view() =~= state_types_spec(nodes_v, m as int),
            decreases kinds.len() - m,
        {
            proof {
                assert(kinds.deep_view()[m as int] == nodes_v[m as int]);
            }
            let ghost tys0 = tys.deep_view();
            match &kinds[m] {
                NodeKind::Inlet(i) => {
                    tys.push(i.ty.clone());
                },
                NodeKind::Outlet(o) => {
                    tys.push(o.ty.clone());
                },
                NodeKind::Custom { node, .. } => {
                    match &node.state_type {
                        Some(t) => {
                            tys.push(t.clone());
                        },
                        None => {},
                    }
                },
            }
            proof {
                if nodes_v[m as int].node_view().state_type is Some {
                    assert(tys.deep_view() =~= tys0.push(
                        nodes_v[m as int].node_view().state_type.unwrap(),
                    ));
                }
            }
            m = m + 1;
        }
        let mut r = String::from_str("(");
        if tys.len() > 0 {
            let mut w: usize = 0;
            while w < tys.len()
                invariant
                    w <= tys.len(),
                    tys.len() > 0,
                    tys.deep_view() == state_types_spec(nodes_v, nodes_v.len() as int),
                    w > 0 ==> r@ == "("@ + join_comma(tys.deep_view().take(w as int)),
                    w == 0 ==> r@ == "("@,
                decreases tys.len() - w,
            {
                proof {
                    assert(tys.deep_view().take(w + 1).drop_last() =~= tys.deep_view().take(
                        w as int,
                    ));
                    assert(tys.deep_view().take(w + 1).last() == tys.deep_view()[w as int]);
                }
                if w > 0 {
                    r.append(", ");
                }
                r.append(tys[w].as_str());
                w = w + 1;
            }
            proof {
                assert(tys.deep_view().take(tys@.len() as int) =~= tys.deep_view());
            }
        }
        r.append(")");
        proof {
            if tys@.len() == 0 {
                assert(join_comma(tys.deep_view()) =~= Seq::<char>::empty());
            }
            assert(r@ =~= graph_state_type_spec(nodes_v));
        }
        r
    }
}

/// Seeding one more start after a seeded traversal is one more walk over
/// its resulting state.
proof fn lemma_seed_run_push(edges: Seq<EdgeRec>, starts: Seq<usize>, st: DfsState, s: usize)
    ensures
        ({
            let r = seed_run(edges, starts, st);
            seed_run(edges, starts.push(s), st) == if s < r.visited.len() && !r.visited[s as int] {
                dfs_run(edges, seq![(s, 0int)], mark(r, s))
            } else {
                r
            }
        }),
    decreases starts.len(),
{
    if starts.len() == 0 {
        assert(starts.push(s)[0] == s);
        assert(starts.push(s).skip(1) =~= Seq::<usize>::empty());
        let st1 = if s < st.visited.len() && !st.visited[s as int] {
            dfs_run(edges, seq![(s, 0int)], mark(st, s))
        } else {
            st
        };
        assert(seed_run(edges, starts.push(s), st) == seed_run(edges, starts.push(s).skip(1), st1));
        assert(seed_run(edges, starts.push(s).skip(1), st1) == st1);
        assert(seed_run(edges, starts, st) == st);
    } else {
        let st1 = if starts[0] < st.visited.len() && !st.visited[starts[0] as int] {
            dfs_run(edges, seq![(starts[0], 0int)], mark(st, starts[0]))
        } else {
            st
        };
        assert(starts.push(s)[0] == starts[0]);
        assert(starts.push(s).skip(1) =~= starts.skip(1).push(s));
        assert(seed_run(edges, starts.push(s), st) == seed_run(
            edges,
            starts.skip(1).push(s),
            st1,
        ));
        assert(seed_run(edges, starts, st) == seed_run(edges, starts.skip(1), st1));
        lemma_seed_run_push(edges, starts.skip(1), st1, s);
    }
}

proof fn lemma_arg_texts_len(
    nodes: Seq<NodeKindView>,
    steps: Seq<EvalStepView>,
    si: int,
    args: Seq<Option<crate::codegen::ExprInput>>,
)
    requires
        arg_texts(nodes, steps, si, args) is Ok,
    ensures
        arg_texts(nodes, steps, si, args).unwrap().len() == args.len(),
    decreases args.len(),
{
    if args.len() > 0 {
        lemma_arg_texts_len(nodes, steps, si, args.drop_last());
    }
}

proof fn lemma_nested_body_err_mono(
    nodes: Seq<NodeKindView>,
    inlets: Seq<usize>,
    outlets: Seq<usize>,
    steps: Seq<EvalStepView>,
    k: int,
    j: int,
)
    requires
        0 <= k <= j,
        nested_body_spec(nodes, inlets, outlets, steps, k) is Err,
    ensures
        nested_body_spec(nodes, inlets, outlets, steps, j) == nested_body_spec(
            nodes,
            inlets,
            outlets,
            steps,
            k,
        ),
    decreases j - k,
{
    if j > k {
        lemma_nested_body_err_mono(nodes, inlets, outlets, steps, k, j - 1);
    }
}

/// The declared state type of one vertex, as text.
fn state_type_text(kinds: &Vec<NodeKind>, id: usize) -> (r: Option<String>)
    requires
        id < kinds@.len(),
    ensures
        match r {
            Some(t) => kinds.deep_view()[id as int].node_view().state_type == Some(t@),
            None => kinds.deep_view()[id as int].node_view().state_type is None,
        },
{
    proof {
        assert(kinds.deep_view()[id as int] == kinds@[id as int].deep_view());
    }
    match &kinds[id] {
        NodeKind::Inlet(i) => Some(i.ty.clone()),
        NodeKind::Outlet(o) => Some(o.ty.clone()),
        NodeKind::Custom { node, .. } => match &node.state_type {
            Some(t) => Some(t.clone()),
            None => None,
        },
    }
}

impl GraphNode {
    /// The signature text of the adapter's evaluator function.
    fn signature_text(&self, kinds: &Vec<NodeKind>) -> (r: String)
        requires
            self.wf(),
            kinds.deep_view() == self.graph.nodes(),
        ensures
            r@ == signature_spec(self.graph.nodes(), self.inlets@, self.outlets@),
    {
        let ghost nodes_v = self.graph.nodes();
        let mut r = String::from_str("fn graph_node_evaluator_fn(");
        proof {
            assert(r@ =~= "fn graph_node_evaluator_fn("@ + inlet_params_spec(
                nodes_v,
                self.inlets@,
                0,
            ));
        }
        let mut i: usize = 0;
        while i < self.inlets.len()
            invariant
                i <= self.inlets@.len(),
                self.wf(),
                kinds.deep_view() == nodes_v,
                nodes_v == self.graph.nodes(),
                kinds@.len() == nodes_v.len(),
                r@ == "fn graph_node_evaluator_fn("@ + inlet_params_spec(
                    nodes_v,
                    self.inlets@,
                    i as int,
                ),
            decreases self.inlets@.len() - i,
        {
            let id = self.inlets[i];
            r.append("inlet");
            r.append(dec_string(i).as_str());
            r.append(": ");
            match state_type_text(kinds, id) {
                Some(t) => {
                    r.append(t.as_str());
                },
                None => {
                    proof {
                        assert(false);
                    }
                },
            }
            r.append(", ");
            proof {
                assert(r@ =~= "fn graph_node_evaluator_fn("@ + inlet_params_spec(
                    nodes_v,
                    self.inlets@,
                    i + 1,
                ));
            }
            i = i + 1;
        }
        r.append("state: &mut ");
        let st_ty = self.state_type();
        r.append(st_ty.as_str());
        r.append(")");
        let ghost sig_head = "fn graph_node_evaluator_fn("@ + inlet_params_spec(
            nodes_v,
            self.inlets@,
            self.inlets@.len() as int,
        ) + "state: &mut "@ + graph_state_type_spec(nodes_v) + ")"@;
        proof {
            assert(r@ =~= sig_head);
        }
        if self.outlets.len() == 0 {
            proof {
                assert(r@ =~= sig_head + return_type_spec(nodes_v, self.outlets@));
            }
        } else if self.outlets.len() == 1 {
            r.append(" -> ");
            let id = self.outlets[0];
            match state_type_text(kinds, id) {
                Some(t) => {
                    r.append(t.as_str());
                },
                None => {
                    proof {
                        assert(false);
                    }
                },
            }
            proof {
                assert(r@ =~= sig_head + return_type_spec(nodes_v, self.outlets@));
            }
        } else {
            r.append(" -> (");
            let mut j: usize = 0;
            while j < self.outlets.len()
                invariant
                    j <= self.outlets@.len(),
                    self.wf(),
                    kinds.deep_view() == nodes_v,
                    nodes_v == self.graph.nodes(),
                    kinds@.len() == nodes_v.len(),
                    j == 0 ==> r@ == sig_head + " -> ("@,
                    j > 0 ==> r@ == sig_head + " -> ("@ + outlet_types_spec(
                        nodes_v,
                        self.outlets@,
                        j as int,
                    ),
                decreases self.outlets@.len() - j,
            {
                if j > 0 {
                    r.append(", ");
                }
                let id = self.outlets[j];
                match state_type_text(kinds, id) {
                    Some(t) => {
                        r.append(t.as_str());
                    },
                    None => {
                        proof {
                            assert(false);
                        }
                    },
                }
                proof {
                    if j == 0 {
                        assert(r@ =~= sig_head + " -> ("@ + outlet_types_spec(
                            nodes_v,
                            self.outlets@,
                            1,
                        ));
                    } else {
                        assert(r@ =~= sig_head + " -> ("@ + outlet_types_spec(
                            nodes_v,
                            self.outlets@,
                            j + 1,
                        ));
                    }
                }
                j = j + 1;
            }
            r.append(")");
            proof {
                assert(r@ =~= sig_head + return_type_spec(nodes_v, self.outlets@));
            }
        }
        r
    }

    /// The adapter's evaluator: one complete function whose signature is
    /// determined by the boundary lists and whose body is the inner graph's
    /// compilation, seeded at each inlet in order.
    ///
    /// Fails exactly when the inner compilation finds a contract violation.
    pub fn evaluator(&self) -> (r: Result<Evaluator, CodegenError>)
        requires
            self.wf(),
            self.inlets@.len() <= u32::MAX,
            self.outlets@.len() <= u32::MAX,
        ensures
            match r {
                Ok(ev) => graph_node_item_spec(
                    self.graph.nodes(),
                    self.graph.edges(),
                    self.inlets@,
                    self.outlets@,
                ) matches Ok(item) && ev@ == (EvaluatorView::Fn {
                    n_inputs: self.inlets@.len() as u32,
                    n_outputs: self.outlets@.len() as u32,
                    name: "graph_node_evaluator_fn"@,
                    item: item,
                }),
                Err(e) => graph_node_item_spec(
                    self.graph.nodes(),
                    self.graph.edges(),
                    self.inlets@,
                    self.outlets@,
                ) == Err::<Seq<char>, CodegenError>(e),
            },
    {
        let ghost nodes_v = self.graph.nodes();
        let ghost edges_v = self.graph.edges();
        let kinds = self.graph.node_list();
        let edges = self.graph.edge_list();
        let nn = kinds.len();
        proof {
            assert(nn == nodes_v.len());
        }

        // Traversal seeded at each inlet in order.
        let mut visited: Vec<bool> = vec![false; nn];
        let mut order: Vec<usize> = Vec::new();
        proof {
            assert(visited@ =~= initial_state(nodes_v.len() as nat).visited);
            assert(order@ =~= initial_state(nodes_v.len() as nat).order);
            assert(self.inlets@.take(0) =~= Seq::<usize>::empty());
            assert(DfsState { visited: visited@, order: order@ } == seed_run(
                edges_v,
                self.inlets@.take(0),
                initial_state(nodes_v.len() as nat),
            ));
        }
        let mut i: usize = 0;
        while i < self.inlets.len()
            invariant
                i <= self.inlets@.len(),
                nn == nodes_v.len(),
                visited@.len() == nn,
                edges@ == edges_v,
                boundary_ok(nodes_v, self.inlets@),
                (DfsState { visited: visited@, order: order@ }) == seed_run(
                    edges_v,
                    self.inlets@.take(i as int),
                    initial_state(nodes_v.len() as nat),
                ),
            decreases self.inlets@.len() - i,
        {
            let s = self.inlets[i];
            let ghost pre = DfsState { visited: visited@, order: order@ };
            proof {
                assert(self.inlets@[i as int] == s);
                assert(s < nodes_v.len());
                assert(pre.visited.len() == nn);
            }
            traverse_from(&edges, &mut visited, &mut order, s);
            proof {
                lemma_seed_run_push(
                    edges_v,
                    self.inlets@.take(i as int),
                    initial_state(nodes_v.len() as nat),
                    s,
                );
                assert(self.inlets@.take(i + 1) =~= self.inlets@.take(i as int).push(s));
                assert(DfsState { visited: visited@, order: order@ } == seed_run(
                    edges_v,
                    self.inlets@.take(i + 1),
                    initial_state(nodes_v.len() as nat),
                ));
            }
            i = i + 1;
        }
        proof {
            assert(self.inlets@.take(self.inlets@.len() as int) =~= self.inlets@);
            assert(order@ == multi_order(nodes_v.len() as nat, edges_v, self.inlets@));
            lemma_seed_run_mono(edges_v, self.inlets@, initial_state(nodes_v.len() as nat));
            assert forall|w: int| 0 <= w < order@.len() implies (#[trigger] order@[w])
                < nodes_v.len() by {
                assert(initial_state(nodes_v.len() as nat).order.len() <= w);
            }
        }
        let steps = steps_for_order(&kinds, &edges, &order);
        let ghost steps_v = steps.deep_view();
        proof {
            assert(steps_v == steps_spec(
                nodes_v,
                edges_v,
                multi_order(nodes_v.len() as nat, edges_v, self.inlets@),
            ));
        }

        // Body statements, with the boundary special cases.
        let mut body = String::new();
        let mut si: usize = 0;
        while si < steps.len()
            invariant
                si <= steps.len(),
                steps_v == steps.deep_view(),
                steps_v.len() == steps@.len(),
                kinds.deep_view() == nodes_v,
                nodes_v == self.graph.nodes(),
                edges_v == self.graph.edges(),
                steps_v == steps_spec(
                    nodes_v,
                    edges_v,
                    multi_order(nodes_v.len() as nat, edges_v, self.inlets@),
                ),
                nested_body_spec(nodes_v, self.inlets@, self.outlets@, steps_v, si as int) == Ok::<
                    Seq<char>,
                    CodegenError,
                >(body@),
            decreases steps.len() - si,
        {
            proof {
                assert(steps_v[si as int] == steps@[si as int].deep_view());
            }
            let m = steps[si].node;

            // First matching inlet position, if any.
            let mut inlet_idx: Option<usize> = None;
            let mut w: usize = 0;
            while w < self.inlets.len()
                invariant
                    w <= self.inlets@.len(),
                    match inlet_idx {
                        Some(ii) => index_of_id(self.inlets@, m, w as int) == Some(ii as int),
                        None => index_of_id(self.inlets@, m, w as int) is None,
                    },
                decreases self.inlets@.len() - w,
            {
                if inlet_idx.is_none() && self.inlets[w] == m {
                    inlet_idx = Some(w);
                }
                w = w + 1;
            }

            // First matching outlet position, if any.
            let mut outlet_idx: Option<usize> = None;
            let mut w2: usize = 0;
            while w2 < self.outlets.len()
                invariant
                    w2 <= self.outlets@.len(),
                    match outlet_idx {
                        Some(jj) => index_of_id(self.outlets@, m, w2 as int) == Some(jj as int),
                        None => index_of_id(self.outlets@, m, w2 as int) is None,
                    },
                decreases self.outlets@.len() - w2,
            {
                if outlet_idx.is_none() && self.outlets[w2] == m {
                    outlet_idx = Some(w2);
                }
                w2 = w2 + 1;
            }

            let stmt_r: Result<String, CodegenError> = match inlet_idx {
                Some(ii) => {
                    let mut t = String::from_str("let ");
                    t.append(var_name(si, 0).as_str());
                    t.append(" = inlet");
                    t.append(dec_string(ii).as_str());
                    t.append(";");
                    proof {
                        assert(t@ =~= "let "@ + var_name_spec(si as nat, 0) + " = inlet"@
                            + dec_spec(ii as nat) + ";"@);
                    }
                    Ok(t)
                },
                None => match outlet_idx {
                    Some(jj) => {
                        if steps[si].args.len() != 1 {
                            proof {
                                assert(steps_v[si as int].args.len() == steps@[
                                    si as int
                                ].args.deep_view().len());
                            }
                            Err(CodegenError::ArityMismatch { node: m })
                        } else {
                            match emit_arg_texts(&kinds, &steps, si) {
                                Ok(ts) => {
                                    proof {
                                        lemma_arg_texts_len(
                                            nodes_v,
                                            steps_v,
                                            si as int,
                                            steps_v[si as int].args,
                                        );
                                        assert(ts.deep_view().len() == 1);
                                        assert(ts@.len() == 1);
                                    }
                                    let mut t = String::from_str("let _outlet");
                                    t.append(dec_string(jj).as_str());
                                    t.append(" = ");
                                    t.append(ts[0].as_str());
                                    t.append(";");
                                    proof {
                                        assert(ts.deep_view()[0] == ts@[0]@);
                                        assert(t@ =~= "let _outlet"@ + dec_spec(jj as nat)
                                            + " = "@ + ts.deep_view()[0] + ";"@);
                                    }
                                    Ok(t)
                                },
                                Err(e) => Err(e),
                            }
                        }
                    },
                    None => emit_stmt(&kinds, &steps, si),
                },
            };
            match stmt_r {
                Ok(stmt) => {
                    proof {
                        assert(nested_stmt_spec(
                            nodes_v,
                            self.inlets@,
                            self.outlets@,
                            steps_v,
                            si as int,
                        ) == Ok::<Seq<char>, CodegenError>(stmt@));
                    }
                    let ghost body0 = body@;
                    body.append("    ");
                    body.append(stmt.as_str());
                    body.append("\n");
                    proof {
                        assert(body@ =~= body0 + "    "@ + stmt@ + "\n"@);
                        assert(nested_body_spec(
                            nodes_v,
                            self.inlets@,
                            self.outlets@,
                            steps_v,
                            si + 1,
                        ) == Ok::<Seq<char>, CodegenError>(body@));
                    }
                },
                Err(e) => {
                    proof {
                        assert(nested_stmt_spec(
                            nodes_v,
                            self.inlets@,
                            self.outlets@,
                            steps_v,
                            si as int,
                        ) == Err::<Seq<char>, CodegenError>(e));
                        assert(nested_body_spec(
                            nodes_v,
                            self.inlets@,
                            self.outlets@,
                            steps_v,
                            si + 1,
                        ) == Err::<Seq<char>, CodegenError>(e));
                        lemma_nested_body_err_mono(
                            nodes_v,
                            self.inlets@,
                            self.outlets@,
                            steps_v,
                            si + 1,
                            steps_v.len() as int,
                        );
                        assert(graph_node_item_spec(
                            nodes_v,
                            edges_v,
                            self.inlets@,
                            self.outlets@,
                        ) == Err::<Seq<char>, CodegenError>(e));
                    }
                    return Err(e);
                },
            }
            si = si + 1;
        }

        // Default bindings for outlets the traversal never reached.
        let ghost order_v = order@;
        let ghost body_steps = body@;
        let mut j: usize = 0;
        while j < self.outlets.len()
            invariant
                j <= self.outlets@.len(),
                order@ == order_v,
                body@ == body_steps + outlet_default_spec(order_v, self.outlets@, j as int),
            decreases self.outlets@.len() - j,
        {
            let oid = self.outlets[j];
            let mut seen = false;
            let mut w: usize = 0;
            while w < order.len()
                invariant
                    w <= order@.len(),
                    order@ == order_v,
                    oid == self.outlets@[j as int],
                    seen == exists|v: int| 0 <= v < w && order_v[v] == oid,
                decreases order@.len() - w,
            {
                if order[w] == oid {
                    seen = true;
                    proof {
                        assert(order_v[w as int] == oid);
                    }
                }
                w = w + 1;
            }
            proof {
                assert(seen == order_v.contains(oid));
            }
            let ghost body1 = body@;
            if !seen {
                body.append("    let _outlet");
                body.append(dec_string(j).as_str());
                body.append(" = Default::default();\n");
            }
            proof {
                if seen {
                    assert(body@ =~= body1 + Seq::<char>::empty());
                } else {
                    assert(body@ =~= body1 + ("    let _outlet"@ + dec_spec(j as nat)
                        + " = Default::default();\n"@));
                }
                assert(body@ =~= body_steps + outlet_default_spec(
                    order_v,
                    self.outlets@,
                    j + 1,
                ));
            }
            j = j + 1;
        }

        // The trailing return expression.
        let ghost body_defaults = body@;
        if self.outlets.len() == 1 {
            body.append("    _outlet0\n");
            proof {
                reveal_strlit("    _outlet0\n");
                reveal_strlit("_outlet");
                reveal_strlit("0");
                assert(("_outlet"@ + dec_spec(0)) =~= "_outlet0"@) by {
                    reveal_strlit("_outlet0");
                }
                assert(body@ =~= body_defaults + return_line_spec(self.outlets@.len() as nat));
            }
        } else if self.outlets.len() > 1 {
            body.append("    (");
            let mut w: usize = 0;
            while w < self.outlets.len()
                invariant
                    w <= self.outlets@.len(),
                    self.outlets@.len() >= 2,
                    w == 0 ==> body@ == body_defaults + "    ("@,
                    w > 0 ==> body@ == body_defaults + "    ("@ + outlet_names_spec(w as nat),
                decreases self.outlets@.len() - w,
            {
                if w > 0 {
                    body.append(", ");
                }
                body.append("_outlet");
                body.append(dec_string(w).as_str());
                proof {
                    if w == 0 {
                        assert(body@ =~= body_defaults + "    ("@ + outlet_names_spec(1));
                    } else {
                        assert(body@ =~= body_defaults + "    ("@ + outlet_names_spec(
                            (w + 1) as nat,
                        ));
                    }
                }
                w = w + 1;
            }
            body.append(")\n");
            proof {
                assert(body@ =~= body_defaults + return_line_spec(self.outlets@.len() as nat));
            }
        } else {
            proof {
                assert(body@ =~= body_defaults + return_line_spec(self.outlets@.len() as nat));
            }
        }

        // Assemble the function item.
        let mut item = self.signature_text(&kinds);
        item.append(" {\n");
        item.append(body.as_str());
        item.append("}\n");
        proof {
            assert(steps_v.len() == steps@.len());
            assert(nested_body_spec(
                nodes_v,
                self.inlets@,
                self.outlets@,
                steps_v,
                steps_v.len() as int,
            ) == Ok::<Seq<char>, CodegenError>(body_steps));
            assert(item@ =~= signature_spec(nodes_v, self.inlets@, self.outlets@) + " {\n"@
                + body_steps + outlet_default_spec(
                order_v,
                self.outlets@,
                self.outlets@.len() as int,
            ) + return_line_spec(self.outlets@.len() as nat) + "}\n"@);
            assert(graph_node_item_spec(nodes_v, edges_v, self.inlets@, self.outlets@) == Ok::<
                Seq<char>,
                CodegenError,
            >(item@));
        }
        let ev = Evaluator::Fn {
            n_inputs: self.inlets.len() as u32,
            n_outputs: self.outlets.len() as u32,
            name: String::from_str("graph_node_evaluator_fn"),
            item,
        };
        Ok(ev)
    }

    /// The adapter as a capability value, under the given registry tag: a
    /// full-function evaluator with the inner graph's aggregate state type.
    pub fn to_node(&self) -> (r: Result<Node, CodegenError>)
        requires
            self.wf(),
            self.inlets@.len() <= u32::MAX,
            self.outlets@.len() <= u32::MAX,
        ensures
            match r {
                Ok(n) => graph_node_item_spec(
                    self.graph.nodes(),
                    self.graph.edges(),
                    self.inlets@,
                    self.outlets@,
                ) matches Ok(item) && n@ == (crate::node::NodeView {
                    evaluator: (EvaluatorView::Fn {
                        n_inputs: self.inlets@.len() as u32,
                        n_outputs: self.outlets@.len() as u32,
                        name: "graph_node_evaluator_fn"@,
                        item: item,
                    }),
                    state_type: Some(graph_state_type_spec(self.graph.nodes())),
                    push_eval: None,
                    pull_eval: None,
                }),
                Err(e) => graph_node_item_spec(
                    self.graph.nodes(),
                    self.graph.edges(),
                    self.inlets@,
                    self.outlets@,
                ) == Err::<Seq<char>, CodegenError>(e),
            },
    {
        let ev = match self.evaluator() {
            Ok(ev) => ev,
            Err(e) => {
                return Err(e);
            },
        };
        Ok(
            Node {
                evaluator: ev,
                state_type: Some(self.state_type()),
                push_eval: None,
                pull_eval: None,
            },
        )
    }
}

impl Default for GraphNode {
    /// An empty nested graph with no boundary ports.
    fn default() -> (r: GraphNode)
        ensures
            r.graph.nodes() == Seq::<NodeKindView>::empty(),
            r.graph.edges() == Seq::<EdgeRec>::empty(),
            r.inlets@ == Seq::<usize>::empty(),
            r.outlets@ == Seq::<usize>::empty(),
            r.wf(),
    {
        let r = GraphNode { graph: Graph::new(), inlets: Vec::new(), outlets: Vec::new() };
        proof {
            assert(r.inlets@ =~= Seq::<usize>::empty());
            assert(r.outlets@ =~= Seq::<usize>::empty());
        }
        r
    }
}

} // verus!
