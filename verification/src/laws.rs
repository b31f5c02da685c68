//! What holds of every flat expression and of every program.

use crate::codegen::{
    body_definitions, body_outcome, body_text, body_units, expr_text,
    stmt_definitions, stmt_outcome, stmt_text, stmt_units, Env, Outcome,
};
use crate::frame::{lemma_body_outcome_fails, lemma_body_outcome_grows, lemma_stmt_outcome_grows};
use crate::grammar::{
    binding_power, closes_term, depth, has_root, is_expression, is_operand, is_root,
    lemma_depth_subrange, lemma_group, lemma_join, lemma_single, opens_term, operand_tree,
    resolution, root,
};
use crate::grammar::lemma_chain;
use crate::syntax::{
    arguments, expr, forward, group, more_arguments, more_terms, skip, term, unary,
};
use crate::types::{binary, BinOp, ExprView, StmtView, TokenView};
use vstd::string::*;
use vstd::prelude::*;

verus! {

/// The leaves of a tree from left to right.
pub open spec fn in_order(e: ExprView) -> Seq<ExprView>
    decreases e,
{
    match e {
        ExprView::Binary { op, lhs, rhs } => in_order(*lhs) + in_order(*rhs),
        _ => seq![e],
    }
}

/// The leaves that the operands among the tokens make, in the order of the
/// tokens.
pub open spec fn operands(s: Seq<TokenView>) -> Seq<ExprView>
    decreases s.len(),
{
    if s.len() == 0 {
        Seq::empty()
    } else if is_operand(s.last()) {
        operands(s.drop_last()).push(operand_tree(s.last()))
    } else {
        operands(s.drop_last())
    }
}

/// Whether position `j` holds an operator outside every group.
pub open spec fn is_open_operator(s: Seq<TokenView>, j: int) -> bool {
    0 <= j < s.len() && s[j] is Op && depth(s, j) == 0
}

/// Among the first `n` positions, the operator outside every group that is
/// applied last, or `-1` where there is none.
pub open spec fn last_applied(s: Seq<TokenView>, n: int) -> int
    decreases n,
{
    if n <= 0 {
        -1
    } else {
        let before = last_applied(s, n - 1);
        if is_open_operator(s, n - 1) && (before < 0 || binding_power(s[n - 1]->Op_0)
            < binding_power(s[before]->Op_0)) {
            n - 1
        } else {
            before
        }
    }
}

/// What `last_applied` finds: nothing where no operator stands outside
/// every group, else an operator than which none to its left binds as
/// loosely and none to its right binds looser.
pub proof fn lemma_last_applied(s: Seq<TokenView>, n: int)
    requires
        0 <= n <= s.len(),
    ensures
        ({
            let b = last_applied(s, n);
            &&& -1 <= b < n
            &&& b < 0 ==> forall|j: int| 0 <= j < n ==> !is_open_operator(s, j)
            &&& b >= 0 ==> {
                &&& is_open_operator(s, b)
                &&& forall|j: int|
                    0 <= j < n && #[trigger] is_open_operator(s, j) ==> {
                        &&& j < b ==> binding_power(s[j]->Op_0) > binding_power(s[b]->Op_0)
                        &&& j > b ==> binding_power(s[j]->Op_0) >= binding_power(s[b]->Op_0)
                    }
            }
        }),
    decreases n,
{
    if n > 0 {
        lemma_last_applied(s, n - 1);
    }
}

/// A flat expression has a root exactly where one of its operators stands
/// outside every group.
pub proof fn lemma_root_exists(s: Seq<TokenView>)
    ensures
        has_root(s) <==> exists|j: int| is_open_operator(s, j),
{
    lemma_last_applied(s, s.len() as int);
    let b = last_applied(s, s.len() as int);
    if exists|j: int| is_open_operator(s, j) {
        let j = choose|j: int| is_open_operator(s, j);
        assert(b >= 0);
        assert forall|j: int|
            0 <= j < s.len() && (#[trigger] s[j]) is Op && depth(s, j) == 0 implies {
            &&& j < b ==> binding_power(s[j]->Op_0) > binding_power(s[b]->Op_0)
            &&& j > b ==> binding_power(s[j]->Op_0) >= binding_power(s[b]->Op_0)
        } by {
            assert(is_open_operator(s, j));
        }
        assert(is_root(s, b));
    }
    if has_root(s) {
        let k = choose|k: int| is_root(s, k);
        assert(is_open_operator(s, k));
    }
}

/// The tokens on either side of the root of a flat expression are flat
/// expressions.
pub proof fn lemma_split(s: Seq<TokenView>, k: int)
    requires
        is_expression(s),
        is_root(s, k),
    ensures
        0 < k < s.len() - 1,
        is_expression(s.subrange(0, k)),
        is_expression(s.subrange(k + 1, s.len() as int)),
{
    let n = s.len() as int;
    assert(k > 0);
    assert(k < n - 1);
    let x = s.subrange(0, k);
    let y = s.subrange(k + 1, n);
    assert(depth(s, k + 1) == depth(s, k) + 0);
    assert forall|j: int| 0 <= j <= k implies depth(x, j) == depth(s, j) by {
        lemma_depth_subrange(s, 0, k, j);
    }
    assert forall|j: int| 0 <= j <= n - k - 1 implies depth(y, j) == depth(s, k + 1 + j) by {
        lemma_depth_subrange(s, k + 1, n, j);
    }
    assert(x[0] == s[0]);
    assert(x.last() == s[k - 1]);
    assert(y[0] == s[k + 1]);
    assert(y.last() == s[n - 1]);
    assert(opens_term(s[k + 1]));
    assert(closes_term(s[k - 1]));
    assert forall|i: int| 0 < i < x.len() implies (opens_term(#[trigger] x[i]) <==> !closes_term(
        x[i - 1],
    )) by {
        assert(x[i] == s[i]);
        assert(x[i - 1] == s[i - 1]);
    }
    assert forall|i: int| 0 <= i <= x.len() implies #[trigger] depth(x, i) >= 0 by {
        assert(depth(s, i) >= 0);
    }
    assert forall|i: int, j: int|
        0 <= i < x.len() && x[i] is Call && 0 <= j < x[i]->args.len() implies is_expression(
        #[trigger] x[i]->args[j],
    ) by {
        assert(x[i] == s[i]);
        assert(is_expression(s[i]->args[j]));
    }
    assert forall|i: int| 0 < i < y.len() implies (opens_term(#[trigger] y[i]) <==> !closes_term(
        y[i - 1],
    )) by {
        assert(y[i] == s[k + 1 + i]);
        assert(y[i - 1] == s[k + i]);
    }
    assert forall|i: int| 0 <= i <= y.len() implies #[trigger] depth(y, i) >= 0 by {
        assert(depth(s, k + 1 + i) >= 0);
    }
    assert(depth(y, y.len() as int) == 0) by {
        assert(depth(s, n) == 0);
    }
    assert forall|i: int, j: int|
        0 <= i < y.len() && y[i] is Call && 0 <= j < y[i]->args.len() implies is_expression(
        #[trigger] y[i]->args[j],
    ) by {
        assert(y[i] == s[k + 1 + i]);
        assert(is_expression(s[k + 1 + i]->args[j]));
    }
}

/// Inside a flat expression without a root that is longer than one token,
/// every position but the two ends lies within a group.
proof fn lemma_inside_group(s: Seq<TokenView>, j: int)
    requires
        is_expression(s),
        !has_root(s),
        s.len() >= 2,
        0 < j < s.len(),
    ensures
        depth(s, j) >= 1,
        s[0] is LParen,
    decreases j,
{
    lemma_root_exists(s);
    assert(depth(s, 0) == 0);
    assert(depth(s, 1) == depth(s, 0) + crate::grammar::depth_step(s[0]));
    if is_operand(s[0]) {
        assert(depth(s, 1) == 0);
        assert(!opens_term(s[1]));
        if s[1] is Op {
            assert(is_open_operator(s, 1));
        } else {
            assert(depth(s, 2) == depth(s, 1) - 1);
            assert(depth(s, 2) >= 0);
        }
    }
    if j > 1 {
        lemma_inside_group(s, j - 1);
        assert(depth(s, j) == depth(s, j - 1) + crate::grammar::depth_step(s[j - 1]));
        if depth(s, j) < 1 {
            assert(s[j - 1] is RParen);
            assert(!opens_term(s[j]));
            if s[j] is Op {
                assert(is_open_operator(s, j));
            } else {
                assert(depth(s, j + 1) == depth(s, j) - 1);
                assert(depth(s, j + 1) >= 0);
            }
        }
    }
}

/// A flat expression without a root that is longer than one token is a
/// group, and its content is a flat expression.
pub proof fn lemma_unwrap(s: Seq<TokenView>)
    requires
        is_expression(s),
        !has_root(s),
        s.len() >= 2,
    ensures
        s.len() >= 3,
        s[0] is LParen,
        s.last() is RParen,
        is_expression(s.subrange(1, s.len() - 1)),
{
    let n = s.len() as int;
    lemma_inside_group(s, n - 1);
    assert(depth(s, n) == depth(s, n - 1) + crate::grammar::depth_step(s[n - 1]));
    assert(s[n - 1] is RParen);
    assert(opens_term(s[1]));
    assert(n >= 3);
    let x = s.subrange(1, n - 1);
    assert(depth(s, 1) == depth(s, 0) + crate::grammar::depth_step(s[0]));
    assert(depth(s, 0) == 0);
    assert forall|j: int| 0 <= j <= n - 2 implies depth(x, j) == depth(s, 1 + j) - 1 by {
        lemma_depth_subrange(s, 1, n - 1, j);
    }
    assert(x[0] == s[1]);
    assert(x.last() == s[n - 2]);
    assert(!opens_term(s[n - 1]));
    assert(closes_term(s[n - 2]));
    assert forall|i: int| 0 < i < x.len() implies (opens_term(#[trigger] x[i]) <==> !closes_term(
        x[i - 1],
    )) by {
        assert(x[i] == s[i + 1]);
        assert(x[i - 1] == s[i]);
    }
    assert forall|i: int| 0 <= i <= x.len() implies #[trigger] depth(x, i) >= 0 by {
        if i < x.len() {
            lemma_inside_group(s, 1 + i);
        } else {
            lemma_inside_group(s, n - 1);
        }
    }
    assert(depth(x, x.len() as int) == 0) by {
        assert(depth(s, n - 1) == 1);
    }
    assert forall|i: int, j: int|
        0 <= i < x.len() && x[i] is Call && 0 <= j < x[i]->args.len() implies is_expression(
        #[trigger] x[i]->args[j],
    ) by {
        assert(x[i] == s[i + 1]);
        assert(is_expression(s[i + 1]->args[j]));
    }
}

/// The operands of a single token: its leaf where it is an operand.
pub proof fn lemma_operands_single(s: Seq<TokenView>)
    requires
        s.len() == 1,
    ensures
        operands(s) == if is_operand(s[0]) {
            seq![operand_tree(s[0])]
        } else {
            Seq::<ExprView>::empty()
        },
{
    reveal_with_fuel(operands, 2);
    assert(s.drop_last().len() == 0);
    if is_operand(s[0]) {
        assert(operands(s) =~= seq![operand_tree(s[0])]);
    }
}

/// The operands of two sequences put together are those of the first, then
/// those of the second.
pub proof fn lemma_operands_concat(a: Seq<TokenView>, b: Seq<TokenView>)
    ensures
        operands(a + b) == operands(a) + operands(b),
    decreases b.len(),
{
    if b.len() == 0 {
        assert(a + b =~= a);
        assert(operands(a) + operands(b) =~= operands(a));
    } else {
        lemma_operands_concat(a, b.drop_last());
        assert((a + b).drop_last() =~= a + b.drop_last());
        assert((a + b).last() == b.last());
        if is_operand(b.last()) {
            assert(operands(a + b) =~= operands(a) + operands(b));
        }
    }
}

/// Resolving a flat expression keeps its operands in their order: read from
/// left to right, the leaves of the tree are the operands of the expression.
pub proof fn law_operand_order(s: Seq<TokenView>)
    requires
        is_expression(s),
    ensures
        in_order(resolution(s)) == operands(s),
    decreases s.len(),
{
    let n = s.len() as int;
    if has_root(s) {
        let k = root(s);
        lemma_split(s, k);
        let x = s.subrange(0, k);
        let y = s.subrange(k + 1, n);
        law_operand_order(x);
        law_operand_order(y);
        let mid = seq![s[k]];
        assert(s =~= (x + mid) + y);
        lemma_operands_concat(x + mid, y);
        lemma_operands_concat(x, mid);
        lemma_operands_single(mid);
        assert(operands(x) + operands(mid) =~= operands(x));
    } else if n == 1 {
        assert(is_operand(s[0]));
        lemma_operands_single(s);
    } else {
        lemma_unwrap(s);
        let x = s.subrange(1, n - 1);
        law_operand_order(x);
        let open = seq![s[0]];
        let close = seq![s[n - 1]];
        assert(s =~= (open + x) + close);
        lemma_operands_concat(open + x, close);
        lemma_operands_concat(open, x);
        lemma_operands_single(open);
        lemma_operands_single(close);
        assert(operands(open) + operands(x) =~= operands(x));
        assert(operands(x) + operands(close) =~= operands(x));
    }
}

/// Every function definition is hoisted: a statement sets aside as many
/// functions as it holds definitions, nested ones included, and a
/// definition leaves no text where it stood.
pub proof fn law_hoisting(s: StmtView, env: Env, as_result: bool)
    ensures
        stmt_units(s, env).len() == stmt_definitions(s),
        s is FunctionDefinition ==> stmt_text(s, env, as_result) == Seq::<char>::empty(),
    decreases s, 0nat,
{
    match s {
        StmtView::FunctionDefinition { name, args, body } => {
            law_hoisting_block(body, env, body.len());
        },
        StmtView::IfStatement { cond, body, branch } => {
            law_hoisting_block(body, env, body.len());
            match branch {
                Some(other) => {
                    law_hoisting_block(other, env, other.len());
                },
                None => {},
            }
        },
        StmtView::For { body, ident, exprs } => {
            law_hoisting_block(body, env, body.len());
        },
        StmtView::While { body, expr } => {
            law_hoisting_block(body, env, body.len());
        },
        _ => {},
    }
}

/// The first statements of a block set aside as many functions as they
/// hold definitions, nested ones included.
pub proof fn law_hoisting_block(body: Seq<StmtView>, env: Env, n: nat)
    ensures
        body_units(body, env, n).len() == body_definitions(body, n),
    decreases body, n,
{
    if n == 0 || n > body.len() {
    } else {
        law_hoisting_block(body, env, (n - 1) as nat);
        law_hoisting(body[n - 1], env, false);
    }
}

/// Where the first statements of a block succeed, so do fewer of them, and
/// what these leave defined stays defined.
pub proof fn lemma_body_outcome_prefix(body: Seq<StmtView>, defs: Set<Seq<char>>, n: nat, m: nat)
    requires
        n <= m <= body.len(),
        body_outcome(body, defs, m) is Done,
    ensures
        body_outcome(body, defs, n) is Done,
        body_outcome(body, defs, n)->Done_0.subset_of(body_outcome(body, defs, m)->Done_0),
    decreases m - n,
{
    if n < m {
        if !(body_outcome(body, defs, n) is Done) {
            lemma_body_outcome_fails(body, defs, n, m);
        }
        lemma_body_outcome_prefix(body, defs, (n + 1) as nat, m);
        lemma_stmt_outcome_grows(body[n as int], body_outcome(body, defs, n)->Done_0);
    }
}

/// Two definitions of one name in one block cannot both be generated: the
/// block fails, and where everything in front of the second definition
/// succeeds, it fails because the name is defined already. This holds of
/// every name, `main` among them.
pub proof fn law_redefinition(body: Seq<StmtView>, defs: Set<Seq<char>>, i: int, j: int)
    requires
        0 <= i < j < body.len(),
        body[i] is FunctionDefinition,
        body[j] is FunctionDefinition,
        body[i]->FunctionDefinition_name == body[j]->FunctionDefinition_name,
    ensures
        !(body_outcome(body, defs, body.len()) is Done),
        body_outcome(body, defs, j as nat) is Done ==> body_outcome(body, defs, body.len())
            == Outcome::Redefined(body[i]->FunctionDefinition_name),
{
    let name = body[i]->FunctionDefinition_name;
    if body_outcome(body, defs, j as nat) is Done {
        lemma_body_outcome_prefix(body, defs, (i + 1) as nat, j as nat);
        lemma_body_outcome_prefix(body, defs, i as nat, (i + 1) as nat);
        let before = body_outcome(body, defs, i as nat)->Done_0;
        let after = body_outcome(body, defs, (i + 1) as nat)->Done_0;
        let inner = body[i]->FunctionDefinition_body;
        assert(stmt_outcome(body[i], before) == Outcome::Done(after));
        lemma_body_outcome_grows(inner, before.insert(name), inner.len());
        assert(before.insert(name).contains(name));
        assert(after.contains(name));
        let at_j = body_outcome(body, defs, j as nat)->Done_0;
        assert(at_j.contains(name));
        assert(stmt_outcome(body[j], at_j) == Outcome::Redefined(name));
        assert(body_outcome(body, defs, (j + 1) as nat) == Outcome::Redefined(name));
        lemma_body_outcome_fails(body, defs, (j + 1) as nat, body.len());
    } else {
        lemma_body_outcome_fails(body, defs, j as nat, body.len());
    }
}

/// Whether a token is an operand whose arguments, if it is a call, are flat
/// expressions.
pub open spec fn is_sound_operand(t: TokenView) -> bool {
    &&& is_operand(t)
    &&& t is Call ==> forall|j: int|
        0 <= j < t->args.len() ==> is_expression(#[trigger] t->args[j])
}

/// One operator between two operands makes one node.
pub proof fn law_one_operator(a: TokenView, p: BinOp, b: TokenView)
    requires
        is_sound_operand(a),
        is_sound_operand(b),
    ensures
        is_expression(seq![a, TokenView::Op(p), b]),
        resolution(seq![a, TokenView::Op(p), b]) == binary(p, operand_tree(a), operand_tree(b)),
        crate::grammar::above(seq![a, TokenView::Op(p), b], binding_power(p)),
{
    let s = seq![a, TokenView::Op(p), b];
    let x = s.subrange(0, 1);
    let y = s.subrange(2, 3);
    assert(x[0] == a);
    assert(y[0] == b);
    lemma_single(x);
    lemma_single(y);
    lemma_join(s, 1);
}

/// Precedence and the order among equals: of two operators between three
/// operands, the second is applied last only where it binds strictly
/// looser than the first. So `a + b * c` is `a + (b * c)`, `a * b + c` is
/// `(a * b) + c`, and `a - b - c` is `a - (b - c)`.
pub proof fn law_two_operators(a: TokenView, p: BinOp, b: TokenView, q: BinOp, c: TokenView)
    requires
        is_sound_operand(a),
        is_sound_operand(b),
        is_sound_operand(c),
    ensures
        is_expression(seq![a, TokenView::Op(p), b, TokenView::Op(q), c]),
        resolution(seq![a, TokenView::Op(p), b, TokenView::Op(q), c]) == if binding_power(q)
            < binding_power(p) {
            binary(q, binary(p, operand_tree(a), operand_tree(b)), operand_tree(c))
        } else {
            binary(p, operand_tree(a), binary(q, operand_tree(b), operand_tree(c)))
        },
{
    let s = seq![a, TokenView::Op(p), b, TokenView::Op(q), c];
    if binding_power(q) < binding_power(p) {
        let x = s.subrange(0, 3);
        let y = s.subrange(4, 5);
        assert(x =~= seq![a, TokenView::Op(p), b]);
        assert(y[0] == c);
        law_one_operator(a, p, b);
        lemma_single(y);
        lemma_join(s, 3);
    } else {
        let x = s.subrange(0, 1);
        let y = s.subrange(2, 5);
        assert(x[0] == a);
        assert(y =~= seq![b, TokenView::Op(q), c]);
        lemma_single(x);
        law_one_operator(b, q, c);
        lemma_join(s, 1);
    }
}

/// Grouping: in `(a p b) q c` the group is resolved first, whatever the
/// operators are.
pub proof fn law_group_first(a: TokenView, p: BinOp, b: TokenView, q: BinOp, c: TokenView)
    requires
        is_sound_operand(a),
        is_sound_operand(b),
        is_sound_operand(c),
    ensures
        is_expression(
            seq![
                TokenView::LParen,
                a,
                TokenView::Op(p),
                b,
                TokenView::RParen,
                TokenView::Op(q),
                c,
            ],
        ),
        resolution(
            seq![
                TokenView::LParen,
                a,
                TokenView::Op(p),
                b,
                TokenView::RParen,
                TokenView::Op(q),
                c,
            ],
        ) == binary(q, binary(p, operand_tree(a), operand_tree(b)), operand_tree(c)),
{
    let s = seq![
        TokenView::LParen,
        a,
        TokenView::Op(p),
        b,
        TokenView::RParen,
        TokenView::Op(q),
        c,
    ];
    let g = s.subrange(0, 5);
    let y = s.subrange(6, 7);
    assert(g.subrange(1, g.len() - 1) =~= seq![a, TokenView::Op(p), b]);
    assert(y[0] == c);
    law_one_operator(a, p, b);
    lemma_group(g);
    lemma_single(y);
    lemma_join(s, 5);
}

/// Whether the last statement of a block gives a value does not touch the
/// statements in front of it.
pub proof fn lemma_body_text_front(body: Seq<StmtView>, env: Env, n: nat)
    requires
        n < body.len(),
    ensures
        body_text(body, env, true, n) == body_text(body, env, false, n),
    decreases n,
{
    if n > 0 {
        lemma_body_text_front(body, env, (n - 1) as nat);
    }
}

/// Return or print: a block that ends with an expression statement ends,
/// as the body of a function, with the return of its value, and anywhere
/// else with a call that prints it; what stands in front is the same.
pub proof fn law_last_expression(body: Seq<StmtView>, env: Env)
    requires
        body.len() > 0,
        body.last() is Expression,
    ensures
        body_text(body, env, true, body.len()) == body_text(
            body,
            env,
            false,
            (body.len() - 1) as nat,
        ) + ("\treturn "@ + expr_text(body.last()->Expression_0, env) + ";\n"@),
        body_text(body, env, false, body.len()) == body_text(
            body,
            env,
            false,
            (body.len() - 1) as nat,
        ) + ("\tprint_number("@ + expr_text(body.last()->Expression_0, env) + ");\n"@),
{
    let n = body.len();
    let last = body[n - 1];
    lemma_body_text_front(body, env, (n - 1) as nat);
    assert(body_text(body, env, true, n) == body_text(body, env, true, (n - 1) as nat) + stmt_text(
        last,
        env,
        true,
    ));
    assert(body_text(body, env, false, n) == body_text(body, env, false, (n - 1) as nat)
        + stmt_text(last, env, false));
    assert(stmt_text(last, env, true) == "\treturn "@ + expr_text(last->Expression_0, env)
        + ";\n"@);
    assert(stmt_text(last, env, false) == "\tprint_number("@ + expr_text(
        last->Expression_0,
        env,
    ) + ");\n"@);
}

/// Whether the tokens are a flat expression.
#[verifier::opaque]
pub open spec fn flat(tokens: Seq<TokenView>) -> bool {
    is_expression(tokens)
}

/// Whether each of the sequences is a flat expression.
#[verifier::opaque]
pub open spec fn all_flat(found: Seq<Seq<TokenView>>) -> bool {
    forall|a: int| 0 <= a < found.len() ==> is_expression(#[trigger] found[a])
}

/// One more flat expression among flat expressions.
proof fn lemma_all_flat_push(found: Seq<Seq<TokenView>>, next: Seq<TokenView>)
    requires
        all_flat(found),
        flat(next),
    ensures
        all_flat(found.push(next)),
{
    reveal(flat);
    reveal(all_flat);
    let more = found.push(next);
    assert forall|a: int| 0 <= a < more.len() implies is_expression(#[trigger] more[a]) by {
        if a < found.len() {
            assert(more[a] == found[a]);
        }
    }
}

/// No sequence at all.
proof fn lemma_all_flat_empty()
    ensures
        all_flat(Seq::<Seq<TokenView>>::empty()),
{
    reveal(all_flat);
}

/// An operand alone is a flat expression: an identifier, a number, and a
/// call whose arguments are flat expressions.
proof fn lemma_operand_flat(t: TokenView)
    requires
        t is Number || t is Ident || (t is Call && all_flat(t->args)),
    ensures
        flat(seq![t]),
{
    reveal(flat);
    reveal(all_flat);
    lemma_single(seq![t]);
}

/// A flat expression in parentheses is a flat expression.
proof fn lemma_group_flat(inner: Seq<TokenView>)
    requires
        flat(inner),
    ensures
        flat(seq![TokenView::LParen] + inner + seq![TokenView::RParen]),
{
    reveal(flat);
    let z = seq![TokenView::LParen] + inner + seq![TokenView::RParen];
    assert(z.subrange(1, z.len() - 1) =~= inner);
    lemma_group(z);
}

/// Two flat expressions with an operator between them are a flat
/// expression.
proof fn lemma_chain_flat(found: Seq<TokenView>, op: BinOp, next: Seq<TokenView>)
    requires
        flat(found),
        flat(next),
    ensures
        flat(found.push(TokenView::Op(op)) + next),
{
    reveal(flat);
    let z = found.push(TokenView::Op(op)) + next;
    assert(z.subrange(0, found.len() as int) =~= found);
    assert(z.subrange(found.len() as int + 1, z.len() as int) =~= next);
    lemma_chain(z, found.len() as int);
}

/// What the grammar reads as an operand is a flat expression of its own.
proof fn lemma_unary_flat(s: Seq<u8>, i: int)
    requires
        0 <= i <= s.len(),
    ensures
        unary(s, i) matches Some((t, j)) ==> flat(seq![t]),
    decreases s.len() - i, 0nat,
{
    match unary(s, i) {
        Some((t, j)) => {
            if t is Call {
                let name = crate::syntax::ident(s, i)->0;
                let p = crate::syntax::ws_tag(s, name.1, "(".spec_bytes())->0;
                lemma_arguments_flat(s, p);
            }
            lemma_operand_flat(t);
        },
        None => {},
    }
}

/// What the grammar reads as a group is a flat expression.
proof fn lemma_parsed_group_flat(s: Seq<u8>, i: int)
    requires
        0 <= i <= s.len(),
    ensures
        group(s, i) matches Some((tokens, j)) ==> flat(tokens),
    decreases s.len() - i, 0nat,
{
    match crate::syntax::ws_tag(s, i, "(".spec_bytes()) {
        Some(p) => {
            lemma_expr_flat(s, p);
            match expr(s, p) {
                Some((inner, j)) => {
                    lemma_group_flat(inner);
                },
                None => {},
            }
        },
        None => {},
    }
}

/// What the grammar reads as a term is a flat expression.
proof fn lemma_term_flat(s: Seq<u8>, i: int)
    requires
        0 <= i <= s.len(),
    ensures
        term(s, i) matches Some((tokens, j)) ==> flat(tokens),
    decreases s.len() - i, 1nat,
{
    lemma_parsed_group_flat(s, i);
    lemma_unary_flat(s, i);
}

/// Operators and terms added to a flat expression leave a flat expression.
proof fn lemma_more_terms_flat(s: Seq<u8>, i: int, found: Seq<TokenView>)
    requires
        0 <= i <= s.len(),
        flat(found),
    ensures
        flat(more_terms(s, i, found).0),
    decreases s.len() - i, 2nat,
{
    match crate::syntax::operator(s, skip(s, i)) {
        Some((op, k)) => {
            lemma_term_flat(s, skip(s, k));
            match forward(s, skip(s, k), term(s, skip(s, k))) {
                Some((next, j)) => {
                    lemma_chain_flat(found, op, next);
                    lemma_more_terms_flat(s, skip(s, j), found.push(TokenView::Op(op)) + next);
                },
                None => {},
            }
        },
        None => {},
    }
}

/// What the grammar reads as an expression is a flat expression.
proof fn lemma_expr_flat(s: Seq<u8>, i: int)
    requires
        0 <= i <= s.len(),
    ensures
        expr(s, i) matches Some((tokens, j)) ==> flat(tokens),
    decreases s.len() - i, 3nat,
{
    lemma_term_flat(s, skip(s, i));
    match forward(s, skip(s, i), term(s, skip(s, i))) {
        Some((first, j)) => {
            lemma_more_terms_flat(s, skip(s, j), first);
        },
        None => {},
    }
}

/// Arguments added to flat expressions leave flat expressions.
proof fn lemma_more_arguments_flat(s: Seq<u8>, i: int, found: Seq<Seq<TokenView>>)
    requires
        0 <= i <= s.len(),
        all_flat(found),
    ensures
        all_flat(more_arguments(s, i, found).0),
    decreases s.len() - i, 4nat,
{
    match crate::syntax::ws_tag(s, i, ",".spec_bytes()) {
        Some(k) => {
            lemma_expr_flat(s, k);
            match forward(s, k, expr(s, k)) {
                Some((next, j)) => {
                    lemma_all_flat_push(found, next);
                    lemma_more_arguments_flat(s, j, found.push(next));
                },
                None => {},
            }
        },
        None => {},
    }
}

/// What the grammar reads as the arguments of a call are flat expressions.
proof fn lemma_arguments_flat(s: Seq<u8>, i: int)
    requires
        0 <= i <= s.len(),
    ensures
        all_flat(arguments(s, i).0),
    decreases s.len() - i, 5nat,
{
    lemma_expr_flat(s, i);
    match forward(s, i, expr(s, i)) {
        Some((first, j)) => {
            lemma_all_flat_empty();
            lemma_all_flat_push(Seq::empty(), first);
            assert(Seq::<Seq<TokenView>>::empty().push(first) =~= seq![first]);
            lemma_more_arguments_flat(s, j, seq![first]);
        },
        None => {
            lemma_all_flat_empty();
        },
    }
}

/// The grammar and the resolver agree: what the grammar reads as an
/// expression is a flat expression, which the resolver takes.
pub proof fn law_expr_is_flat(s: Seq<u8>, i: int)
    requires
        0 <= i <= s.len(),
    ensures
        expr(s, i) matches Some((tokens, j)) ==> is_expression(tokens),
{
    reveal(flat);
    lemma_expr_flat(s, i);
}

/// Every byte of a run belongs to the class of the run.
pub proof fn lemma_run_in_class(s: Seq<u8>, i: int, c: crate::syntax::Class, k: int)
    requires
        0 <= i <= k < i + crate::syntax::run(s, i, c),
    ensures
        k < s.len(),
        crate::syntax::in_class(c, s[k]),
    decreases k - i,
{
    if k > i {
        lemma_run_in_class(s, i + 1, c, k);
    }
}

/// The names that the grammar reads are identifiers, so the generated name
/// of every function that it reads is one too.
pub proof fn law_ident_is_identifier(s: Seq<u8>, i: int)
    ensures
        crate::syntax::ident(s, i) matches Some((name, j)) ==> crate::utils::is_identifier(name),
{
    match crate::syntax::ident(s, i) {
        Some((name, j)) => {
            let bytes = s.subrange(i, j);
            assert(bytes[0] == s[i]);
            assert(name[0] == bytes[0] as char);
            assert forall|k: int| 0 <= k < name.len() implies crate::utils::is_alphanumeric(
                #[trigger] name[k],
            ) || name[k] == '_' by {
                assert(name[k] == bytes[k] as char);
                assert(bytes[k] == s[i + k]);
                if k > 0 {
                    lemma_run_in_class(s, i + 1, crate::syntax::Class::Word, i + k);
                }
            }
        },
        None => {},
    }
}

} // verus!
