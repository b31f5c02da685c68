//! What a larger table of generated names leaves unchanged.
//!
//! Generation only ever adds names to the table. Text that was generated
//! when some names were defined reads the table at those names only, so it
//! is the same under every table that extends the one it was generated
//! with.

use crate::codegen::{
    args_text, body_outcome, body_text, body_units, expr_defined, expr_text, exprs_defined,
    exprs_texts, stmt_outcome, stmt_text, stmt_units, Env, Outcome,
};
use crate::types::{ExprView, StmtView};
use vstd::prelude::*;

verus! {

/// A table that extends another agrees with it wherever that one is
/// defined.
pub proof fn lemma_lookup(env1: Env, env2: Env, name: Seq<char>)
    requires
        env1.submap_of(env2),
        env1.dom().contains(name),
    ensures
        env2.dom().contains(name),
        env1[name] == env2[name],
{
    assert(env2.dom().contains(name));
}

/// An expression that calls defined functions only still does so when more
/// are defined.
pub proof fn lemma_defined_grows(e: ExprView, d1: Set<Seq<char>>, d2: Set<Seq<char>>)
    requires
        expr_defined(e, d1),
        d1.subset_of(d2),
    ensures
        expr_defined(e, d2),
    decreases e,
{
    match e {
        ExprView::Call { name, args } => {
            assert forall|i: int| 0 <= i < args.len() implies expr_defined(
                #[trigger] args[i],
                d2,
            ) by {
                lemma_defined_grows(args[i], d1, d2);
            }
        },
        ExprView::Binary { op, lhs, rhs } => {
            lemma_defined_grows(*lhs, d1, d2);
            lemma_defined_grows(*rhs, d1, d2);
        },
        _ => {},
    }
}

/// The text of an expression that calls defined functions only is the same
/// under every table that extends one in which they are defined.
pub proof fn lemma_expr_frame(e: ExprView, defs: Set<Seq<char>>, env1: Env, env2: Env)
    requires
        expr_defined(e, defs),
        defs.subset_of(env1.dom()),
        env1.submap_of(env2),
    ensures
        expr_text(e, env1) == expr_text(e, env2),
    decreases e, 0nat,
{
    match e {
        ExprView::Call { name, args } => {
            lemma_lookup(env1, env2, name);
            lemma_args_frame(args, defs, env1, env2, args.len());
        },
        ExprView::Binary { op, lhs, rhs } => {
            lemma_expr_frame(*lhs, defs, env1, env2);
            lemma_expr_frame(*rhs, defs, env1, env2);
        },
        _ => {},
    }
}

/// The same of a list of arguments.
pub proof fn lemma_args_frame(
    args: Seq<ExprView>,
    defs: Set<Seq<char>>,
    env1: Env,
    env2: Env,
    n: nat,
)
    requires
        forall|i: int| 0 <= i < args.len() ==> expr_defined(#[trigger] args[i], defs),
        defs.subset_of(env1.dom()),
        env1.submap_of(env2),
    ensures
        args_text(args, env1, n) == args_text(args, env2, n),
    decreases args, n,
{
    if n == 0 || n > args.len() {
    } else if n == 1 {
        lemma_expr_frame(args[0], defs, env1, env2);
    } else {
        lemma_args_frame(args, defs, env1, env2, (n - 1) as nat);
        lemma_expr_frame(args[n - 1], defs, env1, env2);
    }
}

/// The same of the bounds of a loop.
pub proof fn lemma_exprs_frame(exprs: Seq<ExprView>, defs: Set<Seq<char>>, env1: Env, env2: Env)
    requires
        exprs_defined(exprs, defs),
        defs.subset_of(env1.dom()),
        env1.submap_of(env2),
    ensures
        exprs_texts(exprs, env1) == exprs_texts(exprs, env2),
{
    assert forall|i: int| 0 <= i < exprs.len() implies exprs_texts(exprs, env1)[i] == exprs_texts(
        exprs,
        env2,
    )[i] by {
        lemma_expr_frame(exprs[i], defs, env1, env2);
    }
    assert(exprs_texts(exprs, env1) =~= exprs_texts(exprs, env2));
}

/// A statement that succeeds leaves defined what was defined before it.
pub proof fn lemma_stmt_outcome_grows(s: StmtView, defs: Set<Seq<char>>)
    ensures
        stmt_outcome(s, defs) matches Outcome::Done(after) ==> defs.subset_of(after),
    decreases s, 0nat,
{
    match s {
        StmtView::FunctionDefinition { name, args, body } => {
            lemma_body_outcome_grows(body, defs.insert(name), body.len());
        },
        StmtView::IfStatement { cond, body, branch } => {
            lemma_body_outcome_grows(body, defs, body.len());
            match body_outcome(body, defs, body.len()) {
                Outcome::Done(after) => match branch {
                    Some(other) => {
                        lemma_body_outcome_grows(other, after, other.len());
                    },
                    None => {},
                },
                _ => {},
            }
        },
        StmtView::For { body, ident, exprs } => {
            lemma_body_outcome_grows(body, defs, body.len());
        },
        StmtView::While { body, expr } => {
            lemma_body_outcome_grows(body, defs, body.len());
        },
        _ => {},
    }
}

/// A block that succeeds leaves defined what was defined before it.
pub proof fn lemma_body_outcome_grows(body: Seq<StmtView>, defs: Set<Seq<char>>, n: nat)
    ensures
        body_outcome(body, defs, n) matches Outcome::Done(after) ==> defs.subset_of(after),
    decreases body, n,
{
    if n == 0 || n > body.len() {
    } else {
        lemma_body_outcome_grows(body, defs, (n - 1) as nat);
        match body_outcome(body, defs, (n - 1) as nat) {
            Outcome::Done(before) => {
                lemma_stmt_outcome_grows(body[n - 1], before);
            },
            _ => {},
        }
    }
}

/// Once a block has failed, it has failed however many statements follow.
pub proof fn lemma_body_outcome_fails(body: Seq<StmtView>, defs: Set<Seq<char>>, n: nat, m: nat)
    requires
        n <= m <= body.len(),
        !(body_outcome(body, defs, n) is Done),
    ensures
        body_outcome(body, defs, m) == body_outcome(body, defs, n),
    decreases m,
{
    if m > n {
        lemma_body_outcome_fails(body, defs, n, (m - 1) as nat);
    }
}

/// What a statement that succeeds leaves behind, its text and the functions
/// it hoists, is the same under every table that extends one in which
/// everything is defined that the statement leaves defined.
pub proof fn lemma_stmt_frame(
    s: StmtView,
    defs: Set<Seq<char>>,
    env1: Env,
    env2: Env,
    as_result: bool,
)
    requires
        stmt_outcome(s, defs) matches Outcome::Done(after) && after.subset_of(env1.dom()),
        env1.submap_of(env2),
    ensures
        stmt_text(s, env1, as_result) == stmt_text(s, env2, as_result),
        stmt_units(s, env1) == stmt_units(s, env2),
    decreases s, 0nat,
{
    lemma_stmt_outcome_grows(s, defs);
    match s {
        StmtView::Expression(e) => {
            lemma_expr_frame(e, defs, env1, env2);
        },
        StmtView::Declaration { name, value } => {
            lemma_expr_frame(value, defs, env1, env2);
        },
        StmtView::Assignment { name, value } => {
            lemma_expr_frame(value, defs, env1, env2);
        },
        StmtView::FunctionDefinition { name, args, body } => {
            lemma_body_outcome_grows(body, defs.insert(name), body.len());
            lemma_body_frame(body, defs.insert(name), env1, env2, true, body.len());
            assert(defs.insert(name).contains(name));
            lemma_lookup(env1, env2, name);
        },
        StmtView::IfStatement { cond, body, branch } => {
            lemma_expr_frame(cond, defs, env1, env2);
            let mid = body_outcome(body, defs, body.len())->Done_0;
            match branch {
                Some(other) => {
                    lemma_body_outcome_grows(other, mid, other.len());
                    lemma_body_frame(body, defs, env1, env2, false, body.len());
                    lemma_body_frame(other, mid, env1, env2, false, other.len());
                },
                None => {
                    lemma_body_frame(body, defs, env1, env2, false, body.len());
                },
            }
        },
        StmtView::For { body, ident, exprs } => {
            lemma_exprs_frame(exprs, defs, env1, env2);
            lemma_body_frame(body, defs, env1, env2, false, body.len());
        },
        StmtView::While { body, expr } => {
            lemma_expr_frame(expr, defs, env1, env2);
            lemma_body_frame(body, defs, env1, env2, false, body.len());
        },
    }
}

/// The same of the first `n` statements of a block.
pub proof fn lemma_body_frame(
    body: Seq<StmtView>,
    defs: Set<Seq<char>>,
    env1: Env,
    env2: Env,
    function_body: bool,
    n: nat,
)
    requires
        body_outcome(body, defs, n) matches Outcome::Done(after) && after.subset_of(env1.dom()),
        env1.submap_of(env2),
    ensures
        body_text(body, env1, function_body, n) == body_text(body, env2, function_body, n),
        body_units(body, env1, n) == body_units(body, env2, n),
    decreases body, n,
{
    if n == 0 || n > body.len() {
    } else {
        let before = body_outcome(body, defs, (n - 1) as nat)->Done_0;
        lemma_stmt_outcome_grows(body[n - 1], before);
        lemma_body_frame(body, defs, env1, env2, function_body, (n - 1) as nat);
        lemma_stmt_frame(body[n - 1], before, env1, env2, function_body && n == body.len());
    }
}

} // verus!
