//! From the flat form of an expression to its tree, by operator precedence.

use crate::grammar::{is_expression, is_operand, operand_tree, resolution};
use crate::postfix::{
    lemma_pop_at_end, lemma_pop_done, lemma_pop_emit, lemma_pop_finds_group, lemma_pop_group,
    lemma_pop_push, lemma_pop_top, lemma_postfix_take, lemma_scan_group, lemma_scan_operand,
    fold_step, lemma_scan_pops, lemma_scan_start, popping, postfix_ok, postfix_trees, scanning,
    select, stack_precedence, trees_below_top,
};
use crate::types::{
    binary, lemma_call_expr_view, lemma_call_token_view, Expr, ExprToken, TokenView,
};
use vstd::prelude::*;

verus! {

/// The precedence of an operator or a parenthesis on the operator stack.
pub fn precedence(op: &ExprToken) -> (p: i16)
    requires
        !is_operand(op.deep_view()),
    ensures
        p == stack_precedence(op.deep_view()),
{
    match op {
        ExprToken::Eq => 2,
        ExprToken::Neq => 2,
        ExprToken::Leq => 3,
        ExprToken::Geq => 3,
        ExprToken::Lt => 3,
        ExprToken::Gt => 3,
        ExprToken::Add => 4,
        ExprToken::Sub => 4,
        ExprToken::Mul => 5,
        ExprToken::Div => 5,
        ExprToken::Mod => 5,
        ExprToken::Pow => 6,
        ExprToken::LParen => 0,
        _ => -1,
    }
}

/// Whether a token is an operator or a parenthesis, as opposed to an
/// operand.
pub fn is_op(e: &ExprToken) -> (b: bool)
    ensures
        b == !is_operand(e.deep_view()),
{
    match e {
        ExprToken::Number(_) | ExprToken::Ident(_) | ExprToken::Call { .. } => false,
        _ => true,
    }
}

fn is_lparen(e: &ExprToken) -> (b: bool)
    ensures
        b == (e.deep_view() is LParen),
{
    match e {
        ExprToken::LParen => true,
        _ => false,
    }
}

fn is_rparen(e: &ExprToken) -> (b: bool)
    ensures
        b == (e.deep_view() is RParen),
{
    match e {
        ExprToken::RParen => true,
        _ => false,
    }
}

/// The binary node that an operator token makes of two trees.
fn join(op: &ExprToken, lhs: Box<Expr>, rhs: Box<Expr>) -> (node: Box<Expr>)
    requires
        op.deep_view() is Op,
    ensures
        node.deep_view() == binary(op.deep_view()->Op_0, lhs.deep_view(), rhs.deep_view()),
{
    Box::new(
        match op {
            ExprToken::Add => Expr::Add(lhs, rhs),
            ExprToken::Sub => Expr::Sub(lhs, rhs),
            ExprToken::Mul => Expr::Mul(lhs, rhs),
            ExprToken::Div => Expr::Div(lhs, rhs),
            ExprToken::Pow => Expr::Pow(lhs, rhs),
            ExprToken::Mod => Expr::Mod(lhs, rhs),
            ExprToken::Leq => Expr::Leq(lhs, rhs),
            ExprToken::Geq => Expr::Geq(lhs, rhs),
            ExprToken::Lt => Expr::Lt(lhs, rhs),
            ExprToken::Gt => Expr::Gt(lhs, rhs),
            ExprToken::Eq => Expr::Eq(lhs, rhs),
            _ => Expr::Neq(lhs, rhs),
        },
    )
}

/// The positions of the tokens of a flat expression in postfix order:
/// folded, they give the one tree of the expression.
fn to_postfix(tokens: &Vec<ExprToken>) -> (rpn: Vec<usize>)
    requires
        is_expression(tokens.deep_view()),
    ensures
        forall|j: int| 0 <= j < rpn.len() ==> #[trigger] rpn[j] < tokens.len(),
        postfix_ok(select(tokens.deep_view(), rpn@)),
        postfix_trees(select(tokens.deep_view(), rpn@)) == seq![resolution(tokens.deep_view())],
{
    let ghost t = tokens.deep_view();
    let n = tokens.len();
    let mut rpn: Vec<usize> = Vec::new();
    let mut op_stack: Vec<(i16, usize)> = Vec::new();
    let ghost mut tix: Seq<int> = Seq::empty();
    let mut i: usize = 0;
    proof {
        lemma_scan_start(t);
        assert(op_stack@ =~= Seq::empty());
        assert(rpn@ =~= Seq::empty());
    }
    while i < n
        invariant
            n == tokens.len(),
            t == tokens.deep_view(),
            i <= n,
            scanning(t, op_stack@, tix, rpn@, i as int),
        decreases n - i,
    {
        let token = &tokens[i];
        assert(t[i as int] == token.deep_view());
        if is_op(token) {
            let prec = precedence(token);
            proof {
                if !(t[i as int] is LParen) {
                    lemma_scan_pops(t, op_stack@, tix, rpn@, i as int, prec as int);
                }
                if t[i as int] is RParen {
                    lemma_pop_finds_group(t, op_stack@, tix, rpn@, i as int, prec as int);
                }
            }
            while !op_stack.is_empty()
                invariant_except_break
                    t[i as int] is LParen ==> scanning(t, op_stack@, tix, rpn@, i as int),
                    !(t[i as int] is LParen) ==> popping(
                        t,
                        op_stack@,
                        tix,
                        rpn@,
                        i as int,
                        prec as int,
                    ),
                    t[i as int] is RParen ==> op_stack.len() > 0,
                invariant
                    n == tokens.len(),
                    t == tokens.deep_view(),
                    i < n,
                    t[i as int] == token.deep_view(),
                    !is_operand(t[i as int]),
                    prec == stack_precedence(t[i as int]),
                ensures
                    t[i as int] is LParen ==> scanning(t, op_stack@, tix, rpn@, i as int),
                    t[i as int] is Op ==> popping(t, op_stack@, tix, rpn@, i as int, prec as int)
                        && (op_stack.len() > 0 ==> op_stack@.last().0 <= prec),
                    t[i as int] is RParen ==> scanning(t, op_stack@, tix, rpn@, i + 1),
                decreases op_stack.len(),
            {
                let ghost ops0 = op_stack@;
                let ghost rpn0 = rpn@;
                proof {
                    lemma_pop_top(t, ops0, tix, rpn0, i as int, prec as int);
                }
                if is_lparen(token) {
                    break ;
                } else if prec < op_stack[op_stack.len() - 1].0 {
                    let op = op_stack.pop().unwrap();
                    assert(op == ops0.last());
                    assert(op_stack@ =~= ops0.drop_last());
                    assert(t[op.1 as int] == tokens[op.1 as int].deep_view());
                    if is_lparen(&tokens[op.1]) && is_rparen(token) {
                        proof {
                            lemma_pop_group(t, ops0, tix, rpn0, i as int, prec as int);
                            tix = tix.drop_last();
                        }
                        break ;
                    } else {
                        proof {
                            lemma_pop_emit(t, ops0, tix, rpn0, i as int, prec as int);
                            tix = tix.drop_last();
                            if t[i as int] is RParen {
                                lemma_pop_finds_group(
                                    t,
                                    op_stack@,
                                    tix,
                                    rpn0.push(op.1),
                                    i as int,
                                    prec as int,
                                );
                            }
                        }
                        rpn.push(op.1);
                    }
                } else {
                    break ;
                }
            }
            if !is_rparen(token) {
                proof {
                    if t[i as int] is LParen {
                        lemma_scan_group(t, op_stack@, tix, rpn@, i);
                    } else {
                        lemma_pop_push(t, op_stack@, tix, rpn@, i, prec);
                    }
                    tix = tix.push(trees_below_top(t, op_stack@, tix));
                }
                op_stack.push((prec, i));
            }
        } else {
            proof {
                lemma_scan_operand(t, op_stack@, tix, rpn@, i);
            }
            rpn.push(i);
        }
        i += 1;
    }
    proof {
        lemma_scan_pops(t, op_stack@, tix, rpn@, n as int, -1);
    }
    while !op_stack.is_empty()
        invariant
            n == tokens.len(),
            t == tokens.deep_view(),
            popping(t, op_stack@, tix, rpn@, n as int, -1),
        decreases op_stack.len(),
    {
        let ghost ops0 = op_stack@;
        proof {
            lemma_pop_top(t, ops0, tix, rpn@, n as int, -1);
            lemma_pop_at_end(t, ops0, tix, rpn@, -1);
            lemma_pop_emit(t, ops0, tix, rpn@, n as int, -1);
            tix = tix.drop_last();
        }
        let op = op_stack.pop().unwrap();
        assert(op_stack@ =~= ops0.drop_last());
        assert(t[op.1 as int] == tokens[op.1 as int].deep_view());
        if !is_lparen(&tokens[op.1]) {
            rpn.push(op.1);
        }
    }
    proof {
        lemma_pop_done(t, op_stack@, tix, rpn@, -1);
    }
    rpn
}

/// The leaf that an operand makes: a number, an identifier, or a call with
/// its arguments resolved.
fn leaf(token: &ExprToken) -> (tree: Box<Expr>)
    requires
        is_operand(token.deep_view()),
        token.deep_view() is Call ==> forall|a: int|
            0 <= a < token.deep_view()->args.len() ==> is_expression(
                #[trigger] token.deep_view()->args[a],
            ),
    ensures
        tree.deep_view() == operand_tree(token.deep_view()),
    decreases token, 2nat,
{
    match token {
        ExprToken::Number(v) => Box::new(Expr::Number(v.clone())),
        ExprToken::Ident(s) => Box::new(Expr::Ident(s.clone())),
        ExprToken::Call { name, args } => {
            proof {
                lemma_call_token_view(*name, *args);
                assert forall|a: int| 0 <= a < args.len() implies is_expression(
                    #[trigger] args[a].deep_view(),
                ) by {
                    assert(token.deep_view()->args[a] == args[a].deep_view());
                }
            }
            let resolved = resolve_arguments(args);
            let name = name.clone();
            proof {
                lemma_call_expr_view(name, resolved);
                assert(resolved.deep_view() =~= operand_tree(token.deep_view())->args);
            }
            Box::new(Expr::Call { name, args: resolved })
        },
        _ => unreached(),
    }
}

/// Whether the arguments of every call among the tokens are flat
/// expressions.
pub open spec fn calls_well_formed(t: Seq<TokenView>) -> bool {
    forall|i: int, j: int|
        0 <= i < t.len() && t[i] is Call && 0 <= j < t[i]->args.len() ==> is_expression(
            #[trigger] t[i]->args[j],
        )
}

/// Folds a postfix sequence into its tree: an operand becomes a leaf, an
/// operator joins the two trees made last.
fn build_tree(tokens: &Vec<ExprToken>, rpn: &Vec<usize>) -> (tree: Box<Expr>)
    requires
        calls_well_formed(tokens.deep_view()),
        forall|j: int| 0 <= j < rpn.len() ==> #[trigger] rpn[j] < tokens.len(),
        postfix_ok(select(tokens.deep_view(), rpn@)),
        postfix_trees(select(tokens.deep_view(), rpn@)).len() == 1,
    ensures
        tree.deep_view() == postfix_trees(select(tokens.deep_view(), rpn@))[0],
    decreases tokens, 0nat,
{
    let ghost t = tokens.deep_view();
    let ghost r = select(t, rpn@);
    let mut expr_trees: Vec<Box<Expr>> = Vec::new();
    let mut j: usize = 0;
    assert(expr_trees.deep_view() =~= postfix_trees(r.take(0)));
    while j < rpn.len()
        invariant
            t == tokens.deep_view(),
            r == select(t, rpn@),
            calls_well_formed(t),
            forall|k: int| 0 <= k < rpn.len() ==> #[trigger] rpn[k] < tokens.len(),
            postfix_ok(r),
            j <= rpn.len(),
            expr_trees.deep_view() == postfix_trees(r.take(j as int)),
        decreases rpn.len() - j,
    {
        let idx = rpn[j];
        let token = &tokens[idx];
        let ghost before = expr_trees.deep_view();
        proof {
            lemma_postfix_take(r, j as int);
            assert(r[j as int] == t[idx as int]);
            assert(t[idx as int] == token.deep_view());
        }
        if is_op(token) {
            let rhs = expr_trees.pop().unwrap();
            let lhs = expr_trees.pop().unwrap();
            let node = join(token, lhs, rhs);
            expr_trees.push(node);
            assert(expr_trees.deep_view() =~= fold_step(before, r[j as int]));
        } else {
            let node = leaf(token);
            expr_trees.push(node);
            assert(expr_trees.deep_view() =~= fold_step(before, r[j as int]));
        }
        j += 1;
    }
    assert(r.take(rpn.len() as int) =~= r);
    expr_trees.pop().unwrap()
}

/// Resolves each argument of a call on its own.
fn resolve_arguments(args: &Vec<Vec<ExprToken>>) -> (resolved: Vec<Box<Expr>>)
    requires
        forall|a: int| 0 <= a < args.len() ==> is_expression(#[trigger] args[a].deep_view()),
    ensures
        resolved.len() == args.len(),
        forall|a: int|
            0 <= a < args.len() ==> (#[trigger] resolved[a]).deep_view() == resolution(
                args[a].deep_view(),
            ),
    decreases args, 1nat,
{
    let mut resolved: Vec<Box<Expr>> = Vec::new();
    let mut k: usize = 0;
    while k < args.len()
        invariant
            k <= args.len(),
            resolved.len() == k,
            forall|a: int| 0 <= a < args.len() ==> is_expression(#[trigger] args[a].deep_view()),
            forall|a: int|
                0 <= a < k ==> (#[trigger] resolved[a]).deep_view() == resolution(
                    args[a].deep_view(),
                ),
        decreases args.len() - k,
    {
        let tree = resolve(&args[k]);
        resolved.push(tree);
        k += 1;
    }
    resolved
}

/// The tree of a flat expression.
fn resolve(tokens: &Vec<ExprToken>) -> (tree: Box<Expr>)
    requires
        is_expression(tokens.deep_view()),
    ensures
        tree.deep_view() == resolution(tokens.deep_view()),
    decreases tokens, 1nat,
{
    let rpn = to_postfix(tokens);
    build_tree(tokens, &rpn)
}

/// Resolves a flat expression into its tree.
///
/// The tokens are converted to postfix order with a stack of operators: an
/// operator first pops every operator that binds strictly tighter, an open
/// group is pushed, and a closing parenthesis pops down to its open group.
/// The postfix sequence is then folded into the tree. Operators of equal
/// precedence are therefore applied from the right: `a - b - c` is
/// `a - (b - c)`.
pub fn shunting_yard(tokens: &mut Vec<ExprToken>) -> (tree: Box<Expr>)
    requires
        is_expression(old(tokens).deep_view()),
    ensures
        *final(tokens) == *old(tokens),
        tree.deep_view() == resolution(old(tokens).deep_view()),
{
    resolve(&*tokens)
}

} // verus!
