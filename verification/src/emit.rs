//! The code synthesizer.
//!
//! [`push_eval_fn`] turns an ordered evaluation-step list and a push-entry
//! descriptor into the text of one complete function: per step, the argument
//! expressions are resolved — an unconnected slot to a default-value
//! expression, a resolved slot to the variable bound for that exact
//! (producer, output) pair, cloned when flagged — the node's evaluator
//! produces one result expression, and the result is bound to zero, one or a
//! tuple of fresh variables. Variable names are deterministic functions of
//! (step index, output index), so no two collide within one function.
//!
//! A resolved slot whose binding is absent is a contract violation: an
//! internal inconsistency between the engine and the synthesizer, fatal to
//! that compilation run and reported as an error, never skipped silently.

use vstd::prelude::*;
use vstd::string::StringExecFns;
use crate::codegen::{EvalStep, EvalStepView, ExprInput, push_ids, push_steps_spec,
    push_eval_steps, push_nodes, pushes_ok_upto};
use crate::graph::{EdgeRec, Graph, NodeKind, NodeKindView};
use crate::node::{EvalFn, EvalFnView, Evaluator, EvaluatorView, spec_apply_template,
    apply_template};

verus! {

/// A fatal inconsistency found while synthesizing code: the engine and the
/// node model disagree about the graph.
#[derive(Copy, Clone, Debug, PartialEq, Eq, Structural)]
pub enum CodegenError {
    /// A step names a node identifier the graph does not hold.
    UnknownNode { node: usize },
    /// A step's argument-slot count disagrees with its node's declared input
    /// arity.
    ArityMismatch { node: usize },
    /// A resolved slot names a producer output for which no variable was
    /// bound by an earlier step.
    MissingBinding { node: usize, output: u32 },
}

/// The decimal digit characters of `n`.
pub open spec fn dec_spec(n: nat) -> Seq<char>
    decreases n,
{
    if n < 10 {
        seq![digit_char(n)]
    } else {
        dec_spec(n / 10).push(digit_char(n % 10))
    }
}

/// The character for one decimal digit.
pub open spec fn digit_char(d: nat) -> char {
    if d == 0 {
        '0'
    } else if d == 1 {
        '1'
    } else if d == 2 {
        '2'
    } else if d == 3 {
        '3'
    } else if d == 4 {
        '4'
    } else if d == 5 {
        '5'
    } else if d == 6 {
        '6'
    } else if d == 7 {
        '7'
    } else if d == 8 {
        '8'
    } else {
        '9'
    }
}

/// The decimal digits of `n`, as text.
pub fn dec_string(n: usize) -> (r: String)
    ensures
        r@ == dec_spec(n as nat),
    decreases n,
{
    let d = n % 10;
    let c = if d == 0 {
        "0"
    } else if d == 1 {
        "1"
    } else if d == 2 {
        "2"
    } else if d == 3 {
        "3"
    } else if d == 4 {
        "4"
    } else if d == 5 {
        "5"
    } else if d == 6 {
        "6"
    } else if d == 7 {
        "7"
    } else if d == 8 {
        "8"
    } else {
        "9"
    };
    proof {
        reveal_strlit("0");
        reveal_strlit("1");
        reveal_strlit("2");
        reveal_strlit("3");
        reveal_strlit("4");
        reveal_strlit("5");
        reveal_strlit("6");
        reveal_strlit("7");
        reveal_strlit("8");
        reveal_strlit("9");
    }
    if n < 10 {
        let r = c.to_owned();
        proof {
            assert(r@ =~= dec_spec(n as nat));
        }
        r
    } else {
        let mut r = dec_string(n / 10);
        r.append(c);
        proof {
            assert(r@ =~= dec_spec(n as nat));
        }
        r
    }
}

/// The variable bound for output `oi` of the step at index `si`.
pub open spec fn var_name_spec(si: nat, oi: nat) -> Seq<char> {
    "_node"@ + dec_spec(si) + "_output"@ + dec_spec(oi)
}

/// Render the variable bound for output `oi` of the step at index `si`.
pub fn var_name(si: usize, oi: u32) -> (r: String)
    ensures
        r@ == var_name_spec(si as nat, oi as nat),
{
    let mut r = String::from_str("_node");
    r.append(dec_string(si).as_str());
    r.append("_output");
    r.append(dec_string(oi as usize).as_str());
    r
}

/// The index of the first step before `upto` that evaluates `node`, if any.
pub open spec fn find_step(steps: Seq<EvalStepView>, upto: int, node: usize) -> Option<int>
    decreases upto,
{
    if upto <= 0 {
        None
    } else {
        match find_step(steps, upto - 1, node) {
            Some(j) => Some(j),
            None => {
                if upto <= steps.len() && steps[upto - 1].node == node {
                    Some(upto - 1)
                } else {
                    None
                }
            },
        }
    }
}

/// The argument expression for one slot of the step at index `si`: a
/// default-value expression for an unconnected slot, otherwise the variable
/// bound for the producing (node, output) pair — cloned when flagged — or a
/// missing-binding error when no earlier step bound it.
pub open spec fn arg_text(
    nodes: Seq<NodeKindView>,
    steps: Seq<EvalStepView>,
    si: int,
    slot: Option<ExprInput>,
) -> Result<Seq<char>, CodegenError> {
    match slot {
        None => Ok("Default::default()"@),
        Some(a) => match find_step(steps, si, a.node) {
            Some(j) => {
                if a.node < nodes.len() && a.output.0 < nodes[a.node as int].n_outputs() {
                    if a.requires_clone {
                        Ok("{ "@ + var_name_spec(j as nat, a.output.0 as nat) + ".clone() }"@)
                    } else {
                        Ok("{ "@ + var_name_spec(j as nat, a.output.0 as nat) + " }"@)
                    }
                } else {
                    Err(CodegenError::MissingBinding { node: a.node, output: a.output.0 })
                }
            },
            None => Err(CodegenError::MissingBinding { node: a.node, output: a.output.0 }),
        },
    }
}

/// The argument expressions for the first `upto` slots of the step at `si`;
/// the earliest missing binding wins.
pub open spec fn arg_texts(
    nodes: Seq<NodeKindView>,
    steps: Seq<EvalStepView>,
    si: int,
    args: Seq<Option<ExprInput>>,
) -> Result<Seq<Seq<char>>, CodegenError>
    decreases args.len(),
{
    if args.len() == 0 {
        Ok(Seq::empty())
    } else {
        match arg_texts(nodes, steps, si, args.drop_last()) {
            Err(e) => Err(e),
            Ok(ts) => match arg_text(nodes, steps, si, args.last()) {
                Err(e) => Err(e),
                Ok(t) => Ok(ts.push(t)),
            },
        }
    }
}

/// The texts joined with `", "` between them.
pub open spec fn join_comma(ts: Seq<Seq<char>>) -> Seq<char>
    decreases ts.len(),
{
    if ts.len() == 0 {
        Seq::empty()
    } else if ts.len() == 1 {
        ts[0]
    } else {
        join_comma(ts.drop_last()) + ", "@ + ts.last()
    }
}

/// The argument list of a call to a nested full function: the resolved
/// argument expressions followed by the enclosing `state`.
pub open spec fn call_args(ts: Seq<Seq<char>>) -> Seq<char> {
    if ts.len() == 0 {
        "state"@
    } else {
        join_comma(ts) + ", state"@
    }
}

/// The result expression of one step: an expression evaluator renders its
/// template over the argument expressions; a full-function evaluator is
/// called by name with the arguments and the enclosing shared state.
pub open spec fn step_expr(node: NodeKindView, ts: Seq<Seq<char>>) -> Seq<char> {
    match node.node_view().evaluator {
        EvaluatorView::Expr { template, .. } => spec_apply_template(template, ts),
        EvaluatorView::Fn { name, .. } => name + "("@ + call_args(ts) + ")"@,
    }
}

/// The tuple-destructuring pattern names for `k` outputs of step `si`.
pub open spec fn pat_names(si: nat, k: nat) -> Seq<char>
    decreases k,
{
    if k == 0 {
        Seq::empty()
    } else if k == 1 {
        var_name_spec(si, 0)
    } else {
        pat_names(si, (k - 1) as nat) + ", "@ + var_name_spec(si, (k - 1) as nat)
    }
}

/// The binding statement for the step at index `si`: zero bindings become a
/// unit pattern, one binding a fresh variable, several a tuple-destructuring
/// pattern with one fresh variable per output.
pub open spec fn stmt_spec(
    nodes: Seq<NodeKindView>,
    steps: Seq<EvalStepView>,
    si: int,
) -> Result<Seq<char>, CodegenError> {
    let m = steps[si].node;
    if m >= nodes.len() {
        Err(CodegenError::UnknownNode { node: m })
    } else if steps[si].args.len() != nodes[m as int].n_inputs() {
        Err(CodegenError::ArityMismatch { node: m })
    } else {
        match arg_texts(nodes, steps, si, steps[si].args) {
            Err(e) => Err(e),
            Ok(ts) => {
                let expr = step_expr(nodes[m as int], ts);
                let k = nodes[m as int].n_outputs();
                if k == 0 {
                    Ok("let () = "@ + expr + ";"@)
                } else if k == 1 {
                    Ok("let "@ + var_name_spec(si as nat, 0) + " = "@ + expr + ";"@)
                } else {
                    Ok("let ("@ + pat_names(si as nat, k as nat) + ") = "@ + expr + ";"@)
                }
            },
        }
    }
}

/// The statements for the first `upto` steps, each indented and terminated
/// by a newline; the earliest contract violation wins.
pub open spec fn body_spec(
    nodes: Seq<NodeKindView>,
    steps: Seq<EvalStepView>,
    upto: int,
) -> Result<Seq<char>, CodegenError>
    decreases upto,
{
    if upto <= 0 {
        Ok(Seq::empty())
    } else {
        match body_spec(nodes, steps, upto - 1) {
            Err(e) => Err(e),
            Ok(t) => match stmt_spec(nodes, steps, upto - 1) {
                Err(e) => Err(e),
                Ok(s) => Ok(t + "    "@ + s + "\n"@),
            },
        }
    }
}

/// The attribute lines of a generated function, each terminated by a
/// newline.
pub open spec fn attrs_spec(attrs: Seq<Seq<char>>) -> Seq<char>
    decreases attrs.len(),
{
    if attrs.len() == 0 {
        Seq::empty()
    } else {
        attrs_spec(attrs.drop_last()) + attrs.last() + "\n"@
    }
}

/// The complete text of one push-entry function: the descriptor's
/// attributes and name, an empty parameter list, and the ordered binding
/// statements as the body.
pub open spec fn push_fn_spec(
    nodes: Seq<NodeKindView>,
    steps: Seq<EvalStepView>,
    eval: EvalFnView,
) -> Result<Seq<char>, CodegenError> {
    match body_spec(nodes, steps, steps.len() as int) {
        Err(e) => Err(e),
        Ok(b) => Ok(attrs_spec(eval.attrs) + "pub fn "@ + eval.name + "() {\n"@ + b + "}\n"@),
    }
}

proof fn lemma_arg_texts_err_mono(
    nodes: Seq<NodeKindView>,
    steps: Seq<EvalStepView>,
    si: int,
    args: Seq<Option<ExprInput>>,
    k: int,
    j: int,
)
    requires
        0 <= k <= j <= args.len(),
        arg_texts(nodes, steps, si, args.take(k)) is Err,
    ensures
        arg_texts(nodes, steps, si, args.take(j)) == arg_texts(nodes, steps, si, args.take(k)),
    decreases j - k,
{
    if j > k {
        lemma_arg_texts_err_mono(nodes, steps, si, args, k, j - 1);
        assert(args.take(j).drop_last() =~= args.take(j - 1));
    }
}

proof fn lemma_body_spec_err_mono(nodes: Seq<NodeKindView>, steps: Seq<EvalStepView>, k: int, j: int)
    requires
        0 <= k <= j,
        body_spec(nodes, steps, k) is Err,
    ensures
        body_spec(nodes, steps, j) == body_spec(nodes, steps, k),
    decreases j - k,
{
    if j > k {
        lemma_body_spec_err_mono(nodes, steps, k, j - 1);
    }
}

/// Resolve the argument expressions for one step.
pub fn emit_arg_texts(kinds: &Vec<NodeKind>, steps: &Vec<EvalStep>, si: usize) -> (r: Result<
    Vec<String>,
    CodegenError,
>)
    requires
        si < steps@.len(),
    ensures
        match r {
            Ok(ts) => arg_texts(
                kinds.deep_view(),
                steps.deep_view(),
                si as int,
                steps.deep_view()[si as int].args,
            ) == Ok::<Seq<Seq<char>>, CodegenError>(ts.deep_view()),
            Err(e) => arg_texts(
                kinds.deep_view(),
                steps.deep_view(),
                si as int,
                steps.deep_view()[si as int].args,
            ) == Err::<Seq<Seq<char>>, CodegenError>(e),
        },
{
    let ghost nodes_v = kinds.deep_view();
    let ghost steps_v = steps.deep_view();
    proof {
        assert(steps_v[si as int] == steps@[si as int].deep_view());
    }
    let ghost spec_args = steps_v[si as int].args;
    proof {
        assert(spec_args == steps@[si as int].args.deep_view());
        assert(spec_args.len() == steps@[si as int].args@.len());
        assert(arg_texts(nodes_v, steps_v, si as int, spec_args.take(0)) == Ok::<
            Seq<Seq<char>>,
            CodegenError,
        >(Seq::<Seq<char>>::empty()));
    }
    let mut texts: Vec<String> = Vec::new();
    proof {
        assert(texts.deep_view() =~= Seq::<Seq<char>>::empty());
    }
    let mut s: usize = 0;
    while s < steps[si].args.len()
        invariant
            s <= spec_args.len(),
            si < steps.len(),
            kinds.deep_view() == nodes_v,
            steps_v == steps.deep_view(),
            spec_args == steps_v[si as int].args,
            spec_args == steps@[si as int].args.deep_view(),
            spec_args.len() == steps@[si as int].args.len(),
            arg_texts(nodes_v, steps_v, si as int, spec_args.take(s as int)) == Ok::<
                Seq<Seq<char>>,
                CodegenError,
            >(texts.deep_view()),
        decreases spec_args.len() - s,
    {
        proof {
            assert(spec_args[s as int] == steps@[si as int].args@[s as int].deep_view());
            assert(spec_args.take(s + 1).drop_last() =~= spec_args.take(s as int));
            assert(spec_args.take(s + 1).last() == spec_args[s as int]);
        }
        let ghost texts0 = texts.deep_view();
        match &steps[si].args[s] {
            None => {
                texts.push(String::from_str("Default::default()"));
                proof {
                    assert(texts.deep_view() =~= texts0.push("Default::default()"@));
                }
            },
            Some(a) => {
                // The variable bound for (producer, output), if an earlier
                // step bound it.
                let mut found: Option<usize> = None;
                let mut j: usize = 0;
                while j < si
                    invariant
                        j <= si,
                        si < steps.len(),
                        steps_v == steps.deep_view(),
                        match found {
                            Some(jj) => find_step(steps_v, j as int, a.node) == Some(jj as int),
                            None => find_step(steps_v, j as int, a.node) is None,
                        },
                    decreases si - j,
                {
                    proof {
                        assert(steps_v[j as int] == steps@[j as int].deep_view());
                    }
                    if found.is_none() && steps[j].node == a.node {
                        found = Some(j);
                    }
                    j = j + 1;
                }
                let mut bound: Option<String> = None;
                match found {
                    Some(jj) => {
                        if a.node < kinds.len() {
                            proof {
                                assert(kinds.deep_view()[a.node as int] == nodes_v[a.node as int]);
                            }
                            if a.output.0 < kinds[a.node].n_outputs() {
                                let mut t = String::from_str("{ ");
                                t.append(var_name(jj, a.output.0).as_str());
                                if a.requires_clone {
                                    t.append(".clone() }");
                                } else {
                                    t.append(" }");
                                }
                                bound = Some(t);
                            }
                        }
                    },
                    None => {},
                }
                match bound {
                    Some(t) => {
                        proof {
                            assert(arg_text(nodes_v, steps_v, si as int, spec_args[s as int])
                                == Ok::<Seq<char>, CodegenError>(t@));
                        }
                        texts.push(t);
                        proof {
                            assert(texts.deep_view() =~= texts0.push(texts@.last()@));
                        }
                    },
                    None => {
                        let e = CodegenError::MissingBinding { node: a.node, output: a.output.0 };
                        proof {
                            assert(arg_text(nodes_v, steps_v, si as int, spec_args[s as int])
                                == Err::<Seq<char>, CodegenError>(e));
                            assert(arg_texts(nodes_v, steps_v, si as int, spec_args.take(s + 1))
                                == Err::<Seq<Seq<char>>, CodegenError>(e));
                            lemma_arg_texts_err_mono(
                                nodes_v,
                                steps_v,
                                si as int,
                                spec_args,
                                s + 1,
                                spec_args.len() as int,
                            );
                            assert(spec_args.take(spec_args.len() as int) =~= spec_args);
                        }
                        return Err(e);
                    },
                }
            },
        }
        s = s + 1;
    }
    proof {
        assert(spec_args.take(spec_args.len() as int) =~= spec_args);
    }
    Ok(texts)
}

/// Synthesize the binding statement for one step: resolve the argument
/// slots, feed them to the node's evaluator, and bind the result.
pub fn emit_stmt(kinds: &Vec<NodeKind>, steps: &Vec<EvalStep>, si: usize) -> (r: Result<
    String,
    CodegenError,
>)
    requires
        si < steps@.len(),
    ensures
        match r {
            Ok(s) => stmt_spec(kinds.deep_view(), steps.deep_view(), si as int) == Ok::<
                Seq<char>,
                CodegenError,
            >(s@),
            Err(e) => stmt_spec(kinds.deep_view(), steps.deep_view(), si as int) == Err::<
                Seq<char>,
                CodegenError,
            >(e),
        },
{
    let ghost nodes_v = kinds.deep_view();
    let ghost steps_v = steps.deep_view();
    proof {
        assert(steps_v[si as int] == steps@[si as int].deep_view());
    }
    let m = steps[si].node;
    if m >= kinds.len() {
        return Err(CodegenError::UnknownNode { node: m });
    }
    proof {
        assert(kinds.deep_view()[m as int] == nodes_v[m as int]);
    }
    let n_in = kinds[m].n_inputs();
    if steps[si].args.len() != n_in as usize {
        proof {
            assert(steps_v[si as int].args.len() == steps@[si as int].args.deep_view().len());
        }
        return Err(CodegenError::ArityMismatch { node: m });
    }
    let texts = match emit_arg_texts(kinds, steps, si) {
        Ok(ts) => ts,
        Err(e) => {
            proof {
                assert(steps_v[si as int].args.len() == steps@[si as int].args.deep_view().len());
            }
            return Err(e);
        },
    };

    // One result expression, from the node's evaluator.
    let node_m = kinds[m].node();
    let expr: String = match &node_m.evaluator {
        Evaluator::Expr { template, .. } => apply_template(template, &texts),
        Evaluator::Fn { name, .. } => {
            let mut c = name.clone();
            c.append("(");
            if texts.len() == 0 {
                c.append("state");
            } else {
                let mut w: usize = 0;
                while w < texts.len()
                    invariant
                        w <= texts.len(),
                        texts.len() > 0,
                        w > 0 ==> c@ == name@ + "("@ + join_comma(
                            texts.deep_view().take(w as int),
                        ),
                        w == 0 ==> c@ == name@ + "("@,
                    decreases texts.len() - w,
                {
                    proof {
                        assert(texts.deep_view().take(w + 1).drop_last() =~= texts.deep_view()
                            .take(w as int));
                        assert(texts.deep_view().take(w + 1).last() == texts.deep_view()[
                            w as int
                        ]);
                    }
                    if w > 0 {
                        c.append(", ");
                    }
                    c.append(texts[w].as_str());
                    w = w + 1;
                }
                proof {
                    assert(texts.deep_view().take(texts@.len() as int) =~= texts.deep_view());
                }
                c.append(", state");
            }
            c.append(")");
            proof {
                assert(c@ =~= name@ + "("@ + call_args(texts.deep_view()) + ")"@);
            }
            c
        },
    };
    proof {
        assert(expr@ == step_expr(nodes_v[m as int], texts.deep_view()));
    }

    // Bind the result: unit, one fresh variable, or a tuple pattern.
    let n_out = kinds[m].n_outputs();
    let mut stmt: String;
    if n_out == 0 {
        stmt = String::from_str("let () = ");
    } else if n_out == 1 {
        stmt = String::from_str("let ");
        stmt.append(var_name(si, 0).as_str());
        stmt.append(" = ");
    } else {
        stmt = String::from_str("let (");
        proof {
            assert(stmt@ =~= "let ("@ + pat_names(si as nat, 0nat));
        }
        let mut oi: u32 = 0;
        while oi < n_out
            invariant
                oi <= n_out,
                n_out >= 2,
                stmt@ == "let ("@ + pat_names(si as nat, oi as nat),
            decreases n_out - oi,
        {
            if oi > 0 {
                stmt.append(", ");
            }
            stmt.append(var_name(si, oi).as_str());
            proof {
                if oi == 0 {
                    assert(stmt@ =~= "let ("@ + pat_names(si as nat, 1nat));
                } else {
                    assert(stmt@ =~= "let ("@ + pat_names(si as nat, (oi + 1) as nat));
                }
            }
            oi = oi + 1;
        }
        stmt.append(") = ");
        proof {
            assert(stmt@ =~= "let ("@ + pat_names(si as nat, n_out as nat) + ") = "@);
        }
    }
    stmt.append(expr.as_str());
    stmt.append(";");
    proof {
        if n_out == 0 {
            assert(stmt@ =~= "let () = "@ + expr@ + ";"@);
        } else if n_out == 1 {
            assert(stmt@ =~= "let "@ + var_name_spec(si as nat, 0) + " = "@ + expr@ + ";"@);
        } else {
            assert(stmt@ =~= "let ("@ + pat_names(si as nat, n_out as nat) + ") = "@ + expr@
                + ";"@);
        }
        assert(stmt_spec(nodes_v, steps_v, si as int) == Ok::<Seq<char>, CodegenError>(stmt@));
    }
    Ok(stmt)
}

/// Generate the text of the function performing push evaluation from a node
/// with the given entry descriptor and evaluation steps.
///
/// Fails exactly when the steps are inconsistent with the graph's node
/// model: a step for an identifier the graph does not hold, a slot count
/// that disagrees with the node's declared arity, or a resolved slot whose
/// producing output no earlier step bound.
pub fn push_eval_fn(g: &Graph, push_eval: EvalFn, steps: &Vec<EvalStep>) -> (r: Result<
    String,
    CodegenError,
>)
    ensures
        match r {
            Ok(s) => push_fn_spec(g.nodes(), steps.deep_view(), push_eval@) == Ok::<
                Seq<char>,
                CodegenError,
            >(s@),
            Err(e) => push_fn_spec(g.nodes(), steps.deep_view(), push_eval@) == Err::<
                Seq<char>,
                CodegenError,
            >(e),
        },
{
    let ghost nodes_v = g.nodes();
    let ghost steps_v = steps.deep_view();
    let kinds = g.node_list();
    let mut body = String::new();
    let mut si: usize = 0;
    while si < steps.len()
        invariant
            si <= steps.len(),
            kinds.deep_view() == nodes_v,
            nodes_v == g.nodes(),
            steps_v == steps.deep_view(),
            steps_v.len() == steps@.len(),
            body_spec(nodes_v, steps_v, si as int) == Ok::<Seq<char>, CodegenError>(body@),
        decreases steps.len() - si,
    {
        match emit_stmt(&kinds, steps, si) {
            Ok(stmt) => {
                let ghost body0 = body@;
                body.append("    ");
                body.append(stmt.as_str());
                body.append("\n");
                proof {
                    assert(body@ =~= body0 + "    "@ + stmt@ + "\n"@);
                    assert(body_spec(nodes_v, steps_v, si + 1) == Ok::<Seq<char>, CodegenError>(
                        body@,
                    ));
                }
            },
            Err(e) => {
                proof {
                    assert(body_spec(nodes_v, steps_v, si + 1) == Err::<Seq<char>, CodegenError>(
                        e,
                    ));
                    lemma_body_spec_err_mono(nodes_v, steps_v, si + 1, steps_v.len() as int);
                    assert(push_fn_spec(nodes_v, steps_v, push_eval@) == Err::<
                        Seq<char>,
                        CodegenError,
                    >(e));
                }
                return Err(e);
            },
        }
        si = si + 1;
    }

    // Assemble the function item.
    let mut out = String::new();
    let mut ai: usize = 0;
    while ai < push_eval.attrs.len()
        invariant
            ai <= push_eval.attrs.len(),
            out@ == attrs_spec(push_eval.attrs.deep_view().take(ai as int)),
        decreases push_eval.attrs.len() - ai,
    {
        proof {
            assert(push_eval.attrs.deep_view().take(ai + 1).drop_last() =~= push_eval
                .attrs
                .deep_view()
                .take(ai as int));
            assert(push_eval.attrs.deep_view().take(ai + 1).last() == push_eval.attrs.deep_view()[
                ai as int
            ]);
        }
        out.append(push_eval.attrs[ai].as_str());
        out.append("\n");
        ai = ai + 1;
    }
    proof {
        assert(push_eval.attrs.deep_view().take(push_eval.attrs@.len() as int) =~= push_eval
            .attrs
            .deep_view());
    }
    out.append("pub fn ");
    out.append(push_eval.name.as_str());
    out.append("() {\n");
    out.append(body.as_str());
    out.append("}\n");
    proof {
        assert(steps_v.len() == steps@.len());
        assert(out@ =~= attrs_spec(push_eval@.attrs) + "pub fn "@ + push_eval@.name + "() {\n"@
            + body@ + "}\n"@);
    }
    Ok(out)
}

/// The push-entry function text for the node at `id`: its own traversal's
/// steps synthesized under its own descriptor.
pub open spec fn node_fn_spec(
    nodes: Seq<NodeKindView>,
    edges: Seq<EdgeRec>,
    id: usize,
) -> Result<Seq<char>, CodegenError> {
    push_fn_spec(
        nodes,
        push_steps_spec(nodes, edges, id),
        nodes[id as int].node_view().push_eval.unwrap(),
    )
}

/// The concatenated texts of the functions for the first `k` push-entry
/// identifiers; the earliest contract violation wins.
pub open spec fn file_parts(
    nodes: Seq<NodeKindView>,
    edges: Seq<EdgeRec>,
    ids: Seq<usize>,
    k: int,
) -> Result<Seq<char>, CodegenError>
    decreases k,
{
    if k <= 0 {
        Ok(Seq::empty())
    } else {
        match file_parts(nodes, edges, ids, k - 1) {
            Err(e) => Err(e),
            Ok(t) => match node_fn_spec(nodes, edges, ids[k - 1]) {
                Err(e) => Err(e),
                Ok(f) => Ok(t + f),
            },
        }
    }
}

/// The complete generated source text for a graph: one function per
/// push-entry node, in identifier order.
pub open spec fn file_spec(nodes: Seq<NodeKindView>, edges: Seq<EdgeRec>) -> Result<
    Seq<char>,
    CodegenError,
> {
    file_parts(
        nodes,
        edges,
        push_ids(nodes, nodes.len() as int),
        push_ids(nodes, nodes.len() as int).len() as int,
    )
}

proof fn lemma_file_parts_err_mono(
    nodes: Seq<NodeKindView>,
    edges: Seq<EdgeRec>,
    ids: Seq<usize>,
    k: int,
    j: int,
)
    requires
        0 <= k <= j,
        file_parts(nodes, edges, ids, k) is Err,
    ensures
        file_parts(nodes, edges, ids, j) == file_parts(nodes, edges, ids, k),
    decreases j - k,
{
    if j > k {
        lemma_file_parts_err_mono(nodes, edges, ids, k, j - 1);
    }
}

/// Determinism law: the generated text is a function of the graph's node and
/// edge sequences alone, so recompiling an unchanged graph yields
/// byte-identical text.
pub proof fn lemma_generation_deterministic(g1: Graph, g2: Graph)
    requires
        g1.nodes() == g2.nodes(),
        g1.edges() == g2.edges(),
    ensures
        file_spec(g1.nodes(), g1.edges()) == file_spec(g2.nodes(), g2.edges()),
{
}

/// Generate one function per entry of a list of push-entry nodes with their
/// evaluation steps.
pub fn push_eval_fns(g: &Graph, items: &Vec<(usize, EvalFn, Vec<EvalStep>)>) -> (r: Result<
    Vec<String>,
    CodegenError,
>)
    ensures
        match r {
            Ok(fs) => fs@.len() == items@.len() && forall|k: int|
                0 <= k < items@.len() ==> push_fn_spec(
                    g.nodes(),
                    (#[trigger] items@[k]).2.deep_view(),
                    items@[k].1@,
                ) == Ok::<Seq<char>, CodegenError>(fs@[k]@),
            Err(e) => exists|k: int|
                0 <= k < items@.len() && push_fn_spec(
                    g.nodes(),
                    (#[trigger] items@[k]).2.deep_view(),
                    items@[k].1@,
                ) == Err::<Seq<char>, CodegenError>(e) && forall|j: int|
                    0 <= j < k ==> push_fn_spec(
                        g.nodes(),
                        (#[trigger] items@[j]).2.deep_view(),
                        items@[j].1@,
                    ) is Ok,
        },
{
    let mut fs: Vec<String> = Vec::new();
    let mut k: usize = 0;
    while k < items.len()
        invariant
            k <= items.len(),
            fs@.len() == k,
            forall|j: int|
                0 <= j < k ==> push_fn_spec(
                    g.nodes(),
                    (#[trigger] items@[j]).2.deep_view(),
                    items@[j].1@,
                ) == Ok::<Seq<char>, CodegenError>(fs@[j]@),
        decreases items.len() - k,
    {
        let item = &items[k];
        match push_eval_fn(g, item.1.duplicate(), &item.2) {
            Ok(f) => {
                fs.push(f);
            },
            Err(e) => {
                return Err(e);
            },
        }
        k = k + 1;
    }
    Ok(fs)
}

/// Generate the complete source text for a graph: the functions for all its
/// push-entry nodes, in identifier order.
///
/// Fails exactly when some push-entry node's synthesis finds a contract
/// violation; the earliest wins.
pub fn file(g: &Graph) -> (r: Result<String, CodegenError>)
    requires
        g.wf(),
    ensures
        match r {
            Ok(s) => file_spec(g.nodes(), g.edges()) == Ok::<Seq<char>, CodegenError>(s@),
            Err(e) => file_spec(g.nodes(), g.edges()) == Err::<Seq<char>, CodegenError>(e),
        },
{
    let ghost nodes_v = g.nodes();
    let ghost ids = push_ids(g.nodes(), g.nodes().len() as int);
    let pushes = push_nodes(g);
    proof {
        assert(pushes_ok_upto(g.nodes(), pushes@, g.nodes().len() as int));
    }
    let mut out = String::new();
    let mut k: usize = 0;
    while k < pushes.len()
        invariant
            k <= pushes.len(),
            g.wf(),
            nodes_v == g.nodes(),
            ids == push_ids(g.nodes(), g.nodes().len() as int),
            pushes_ok_upto(g.nodes(), pushes@, g.nodes().len() as int),
            file_parts(g.nodes(), g.edges(), ids, k as int) == Ok::<Seq<char>, CodegenError>(out@),
        decreases pushes.len() - k,
    {
        let id = pushes[k].0;
        let steps = push_eval_steps(g, id);
        match push_eval_fn(g, pushes[k].1.duplicate(), &steps) {
            Ok(f) => {
                let ghost out0 = out@;
                out.append(f.as_str());
                proof {
                    assert(node_fn_spec(g.nodes(), g.edges(), id) == Ok::<Seq<char>, CodegenError>(
                        f@,
                    ));
                    assert(file_parts(g.nodes(), g.edges(), ids, k + 1) == Ok::<
                        Seq<char>,
                        CodegenError,
                    >(out0 + f@));
                }
            },
            Err(e) => {
                proof {
                    assert(node_fn_spec(g.nodes(), g.edges(), id) == Err::<Seq<char>, CodegenError>(
                        e,
                    ));
                    assert(file_parts(g.nodes(), g.edges(), ids, k + 1) == Err::<
                        Seq<char>,
                        CodegenError,
                    >(e));
                    lemma_file_parts_err_mono(g.nodes(), g.edges(), ids, k + 1, ids.len() as int);
                }
                return Err(e);
            },
        }
        k = k + 1;
    }
    Ok(out)
}

} // verus!
