//! The flat form of an expression and the tree it stands for.
//!
//! A flat expression is a sequence of terms separated by binary operators; a
//! term is an operand or a parenthesised flat expression. Its tree is fixed
//! by two rules: an operator of higher precedence binds tighter, and among
//! operators of equal precedence the leftmost one is applied last.

use crate::types::{binary, lemma_call_token_view, BinOp, ExprToken, ExprView, TokenView};
use vstd::prelude::*;

verus! {

/// Numbers, identifiers and calls.
pub open spec fn is_operand(t: TokenView) -> bool {
    t is Number || t is Ident || t is Call
}

/// A token that can begin a term.
pub open spec fn opens_term(t: TokenView) -> bool {
    is_operand(t) || t is LParen
}

/// A token that can end a term.
pub open spec fn closes_term(t: TokenView) -> bool {
    is_operand(t) || t is RParen
}

/// How tightly an operator binds; higher binds tighter.
pub open spec fn binding_power(op: BinOp) -> int {
    match op {
        BinOp::Eq | BinOp::Neq => 2,
        BinOp::Leq | BinOp::Geq | BinOp::Lt | BinOp::Gt => 3,
        BinOp::Add | BinOp::Sub => 4,
        BinOp::Mul | BinOp::Div | BinOp::Mod => 5,
        BinOp::Pow => 6,
    }
}

/// By how much a token changes the nesting depth.
pub open spec fn depth_step(t: TokenView) -> int {
    match t {
        TokenView::LParen => 1,
        TokenView::RParen => -1,
        _ => 0,
    }
}

/// The nesting depth in front of position `i`: the groups opened and not yet
/// closed among the first `i` tokens.
pub open spec fn depth(s: Seq<TokenView>, i: int) -> int
    decreases i,
{
    if i <= 0 {
        0
    } else {
        depth(s, i - 1) + depth_step(s[i - 1])
    }
}

/// Whether `s` is a flat expression: not empty, terms and operators in
/// turn, groups balanced, and the arguments of every call flat expressions
/// themselves.
pub open spec fn is_expression(s: Seq<TokenView>) -> bool
    decreases s,
{
    &&& s.len() > 0
    &&& opens_term(s[0])
    &&& closes_term(s.last())
    &&& forall|i: int| 0 < i < s.len() ==> (opens_term(#[trigger] s[i]) <==> !closes_term(s[i - 1]))
    &&& forall|i: int| 0 <= i <= s.len() ==> #[trigger] depth(s, i) >= 0
    &&& depth(s, s.len() as int) == 0
    &&& forall|i: int, j: int|
        0 <= i < s.len() && s[i] is Call && 0 <= j < s[i]->args.len() ==> is_expression(
            #[trigger] s[i]->args[j],
        )
}

/// Whether position `k` holds the operator that is applied last: it stands
/// outside every group, any operator outside every group to its left binds
/// strictly tighter, and none to its right binds looser.
pub open spec fn is_root(s: Seq<TokenView>, k: int) -> bool {
    &&& 0 <= k < s.len()
    &&& s[k] is Op
    &&& depth(s, k) == 0
    &&& forall|j: int|
        0 <= j < s.len() && (#[trigger] s[j]) is Op && depth(s, j) == 0 ==> {
            &&& j < k ==> binding_power(s[j]->Op_0) > binding_power(s[k]->Op_0)
            &&& j > k ==> binding_power(s[j]->Op_0) >= binding_power(s[k]->Op_0)
        }
}

/// Whether some operator of `s` stands outside every group.
pub open spec fn has_root(s: Seq<TokenView>) -> bool {
    exists|k: int| is_root(s, k)
}

/// The position of the operator that is applied last.
pub open spec fn root(s: Seq<TokenView>) -> int {
    choose|k: int| is_root(s, k)
}

/// The tree of an operand. The arguments of a call are resolved each on its
/// own.
pub open spec fn operand_tree(t: TokenView) -> ExprView
    decreases t,
{
    match t {
        TokenView::Number(n) => ExprView::Number(n),
        TokenView::Ident(name) => ExprView::Ident(name),
        TokenView::Call { name, args } => ExprView::Call {
            name,
            args: Seq::new(
                args.len(),
                |j: int|
                    if 0 <= j < args.len() {
                        resolution(args[j])
                    } else {
                        ExprView::Number(Seq::empty())
                    },
            ),
        },
        _ => ExprView::Number(Seq::empty()),
    }
}

/// The tree of a flat expression. Where an operator stands outside every
/// group, the one applied last is the root and the tokens on either side of
/// it give the two children. A single operand is a leaf. What is left is one
/// group, whose tree is that of its content.
pub open spec fn resolution(s: Seq<TokenView>) -> ExprView
    decreases s,
{
    if has_root(s) {
        let k = root(s);
        binary(
            s[k]->Op_0,
            resolution(s.subrange(0, k)),
            resolution(s.subrange(k + 1, s.len() as int)),
        )
    } else if s.len() == 1 {
        operand_tree(s[0])
    } else if s.len() >= 2 {
        resolution(s.subrange(1, s.len() - 1))
    } else {
        ExprView::Number(Seq::empty())
    }
}

/// Whether every operator of `s` that stands outside every group binds at
/// least as tightly as `p`.
pub open spec fn above(s: Seq<TokenView>, p: int) -> bool {
    forall|j: int|
        0 <= j < s.len() && (#[trigger] s[j]) is Op && depth(s, j) == 0 ==> binding_power(
            s[j]->Op_0,
        ) >= p
}

/// A bound that no operator reaches: `above(s, no_operator())` says that no
/// operator of `s` stands outside every group.
pub open spec fn no_operator() -> int {
    7
}

/// The depth inside a part of a sequence is the depth in the whole, counted
/// from where the part begins.
pub proof fn lemma_depth_subrange(s: Seq<TokenView>, a: int, b: int, j: int)
    requires
        0 <= a <= b <= s.len(),
        0 <= j <= b - a,
    ensures
        depth(s.subrange(a, b), j) == depth(s, a + j) - depth(s, a),
    decreases j,
{
    if j > 0 {
        lemma_depth_subrange(s, a, b, j - 1);
        assert(s.subrange(a, b)[j - 1] == s[a + j - 1]);
    }
}

/// A flat expression inside a sequence leaves the depth as it found it.
pub proof fn lemma_expression_balanced(s: Seq<TokenView>, a: int, b: int)
    requires
        0 <= a <= b <= s.len(),
        is_expression(s.subrange(a, b)),
    ensures
        depth(s, b) == depth(s, a),
        forall|i: int| a <= i <= b ==> depth(s, i) >= depth(s, a),
{
    let x = s.subrange(a, b);
    lemma_depth_subrange(s, a, b, b - a);
    assert forall|i: int| a <= i <= b implies depth(s, i) >= depth(s, a) by {
        lemma_depth_subrange(s, a, b, i - a);
        assert(depth(x, i - a) >= 0);
    }
}

/// At most one position holds the operator that is applied last.
pub proof fn lemma_root_unique(s: Seq<TokenView>, k1: int, k2: int)
    requires
        is_root(s, k1),
        is_root(s, k2),
    ensures
        k1 == k2,
{
}

/// An operand alone is a flat expression, and its tree is a leaf.
pub proof fn lemma_single(s: Seq<TokenView>)
    requires
        s.len() == 1,
        is_operand(s[0]),
        s[0] is Call ==> forall|j: int|
            0 <= j < s[0]->args.len() ==> is_expression(#[trigger] s[0]->args[j]),
    ensures
        is_expression(s),
        !has_root(s),
        resolution(s) == operand_tree(s[0]),
        above(s, no_operator()),
{
    assert(depth(s, 0) == 0);
    assert(depth(s, 1) == 0);
    assert forall|i: int| 0 <= i <= s.len() implies #[trigger] depth(s, i) >= 0 by {
        assert(i == 0 || i == 1);
    }
}

/// Two flat expressions joined by an operator that binds looser than every
/// operator in sight on its left, and no tighter than any on its right, form
/// a flat expression with that operator at the root.
pub proof fn lemma_join(z: Seq<TokenView>, k: int)
    requires
        0 <= k < z.len(),
        z[k] is Op,
        is_expression(z.subrange(0, k)),
        is_expression(z.subrange(k + 1, z.len() as int)),
        above(z.subrange(0, k), binding_power(z[k]->Op_0) + 1),
        above(z.subrange(k + 1, z.len() as int), binding_power(z[k]->Op_0)),
    ensures
        is_expression(z),
        is_root(z, k),
        resolution(z) == binary(
            z[k]->Op_0,
            resolution(z.subrange(0, k)),
            resolution(z.subrange(k + 1, z.len() as int)),
        ),
        above(z, binding_power(z[k]->Op_0)),
{
    let n = z.len() as int;
    let x = z.subrange(0, k);
    let y = z.subrange(k + 1, n);
    let p = binding_power(z[k]->Op_0);
    assert forall|j: int| 0 <= j <= k implies depth(z, j) == depth(x, j) by {
        lemma_depth_subrange(z, 0, k, j);
    }
    assert(depth(z, k) == 0);
    assert(depth(z, k + 1) == 0);
    assert forall|j: int| k + 1 <= j <= n implies depth(z, j) == depth(y, j - k - 1) by {
        lemma_depth_subrange(z, k + 1, n, j - k - 1);
    }
    assert forall|i: int| 0 <= i <= n implies #[trigger] depth(z, i) >= 0 by {
        if i <= k {
            assert(depth(x, i) >= 0);
        } else {
            assert(depth(y, i - k - 1) >= 0);
        }
    }
    assert(depth(z, n) == 0) by {
        assert(depth(y, n - k - 1) == 0);
    }
    assert(z[0] == x[0]);
    assert(z.last() == y.last());
    assert(z[k - 1] == x.last());
    assert(z[k + 1] == y[0]);
    assert forall|i: int| 0 < i < n implies (opens_term(#[trigger] z[i]) <==> !closes_term(
        z[i - 1],
    )) by {
        if i < k {
            assert(x[i] == z[i]);
            assert(x[i - 1] == z[i - 1]);
        } else if i > k + 1 {
            assert(y[i - k - 1] == z[i]);
            assert(y[i - k - 2] == z[i - 1]);
        }
    }
    assert forall|i: int, j: int|
        0 <= i < n && z[i] is Call && 0 <= j < z[i]->args.len() implies is_expression(
        #[trigger] z[i]->args[j],
    ) by {
        if i < k {
            assert(x[i] == z[i]);
        } else {
            assert(y[i - k - 1] == z[i]);
        }
    }
    assert(is_expression(z));
    assert forall|j: int| 0 <= j < n && (#[trigger] z[j]) is Op && depth(z, j) == 0 implies {
        &&& j < k ==> binding_power(z[j]->Op_0) > p
        &&& j > k ==> binding_power(z[j]->Op_0) >= p
    } by {
        if j < k {
            assert(x[j] == z[j]);
        } else if j > k {
            assert(y[j - k - 1] == z[j]);
        }
    }
    assert(is_root(z, k));
    lemma_root_unique(z, k, root(z));
}

/// Two flat expressions with an operator between them form a flat
/// expression.
pub proof fn lemma_chain(z: Seq<TokenView>, k: int)
    requires
        0 <= k < z.len(),
        z[k] is Op,
        is_expression(z.subrange(0, k)),
        is_expression(z.subrange(k + 1, z.len() as int)),
    ensures
        is_expression(z),
{
    let n = z.len() as int;
    let x = z.subrange(0, k);
    let y = z.subrange(k + 1, n);
    assert forall|j: int| 0 <= j <= k implies depth(z, j) == depth(x, j) by {
        lemma_depth_subrange(z, 0, k, j);
    }
    assert(depth(z, k) == 0);
    assert(depth(z, k + 1) == 0);
    assert forall|j: int| k + 1 <= j <= n implies depth(z, j) == depth(y, j - k - 1) by {
        lemma_depth_subrange(z, k + 1, n, j - k - 1);
    }
    assert forall|i: int| 0 <= i <= n implies #[trigger] depth(z, i) >= 0 by {
        if i <= k {
            assert(depth(x, i) >= 0);
        } else {
            assert(depth(y, i - k - 1) >= 0);
        }
    }
    assert(depth(z, n) == 0) by {
        assert(depth(y, n - k - 1) == 0);
    }
    assert(z[0] == x[0]);
    assert(z.last() == y.last());
    assert(z[k - 1] == x.last());
    assert(z[k + 1] == y[0]);
    assert forall|i: int| 0 < i < n implies (opens_term(#[trigger] z[i]) <==> !closes_term(
        z[i - 1],
    )) by {
        if i < k {
            assert(x[i] == z[i]);
            assert(x[i - 1] == z[i - 1]);
        } else if i > k + 1 {
            assert(y[i - k - 1] == z[i]);
            assert(y[i - k - 2] == z[i - 1]);
        }
    }
    assert forall|i: int, j: int|
        0 <= i < n && z[i] is Call && 0 <= j < z[i]->args.len() implies is_expression(
        #[trigger] z[i]->args[j],
    ) by {
        if i < k {
            assert(x[i] == z[i]);
        } else {
            assert(y[i - k - 1] == z[i]);
        }
    }
}

/// A flat expression in parentheses is a flat expression with the same
/// tree, and none of its operators stands outside every group.
pub proof fn lemma_group(z: Seq<TokenView>)
    requires
        z.len() >= 2,
        z[0] is LParen,
        z.last() is RParen,
        is_expression(z.subrange(1, z.len() - 1)),
    ensures
        is_expression(z),
        !has_root(z),
        resolution(z) == resolution(z.subrange(1, z.len() - 1)),
        above(z, no_operator()),
{
    let n = z.len() as int;
    let x = z.subrange(1, n - 1);
    assert(depth(z, 0) == 0);
    assert(depth(z, 1) == 1);
    assert forall|j: int| 1 <= j <= n - 1 implies depth(z, j) == depth(x, j - 1) + 1 by {
        lemma_depth_subrange(z, 1, n - 1, j - 1);
    }
    assert(depth(z, n - 1) == 1) by {
        assert(depth(x, n - 2) == 0);
    }
    assert(depth(z, n) == 0);
    assert forall|i: int| 0 <= i <= n implies #[trigger] depth(z, i) >= 0 by {
        if 1 <= i <= n - 1 {
            assert(depth(x, i - 1) >= 0);
        }
    }
    assert(z[1] == x[0]);
    assert(z[n - 2] == x.last());
    assert forall|i: int| 0 < i < n implies (opens_term(#[trigger] z[i]) <==> !closes_term(
        z[i - 1],
    )) by {
        if 1 < i < n - 1 {
            assert(x[i - 1] == z[i]);
            assert(x[i - 2] == z[i - 1]);
        }
    }
    assert forall|i: int, j: int|
        0 <= i < n && z[i] is Call && 0 <= j < z[i]->args.len() implies is_expression(
        #[trigger] z[i]->args[j],
    ) by {
        assert(x[i - 1] == z[i]);
    }
    assert forall|j: int| 0 <= j < n && (#[trigger] z[j]) is Op implies depth(z, j) != 0 by {
        assert(1 <= j <= n - 2);
        assert(depth(x, j - 1) >= 0);
    }
    assert(!has_root(z));
}

/// Whether every argument of a call is a flat expression.
fn arguments_well_formed(args: &Vec<Vec<ExprToken>>) -> (ok: bool)
    ensures
        ok == forall|a: int| 0 <= a < args.len() ==> is_expression(#[trigger] args[a].deep_view()),
    decreases args, 1nat,
{
    let mut k: usize = 0;
    while k < args.len()
        invariant
            k <= args.len(),
            forall|a: int| 0 <= a < k ==> is_expression(#[trigger] args[a].deep_view()),
        decreases args.len() - k,
    {
        if !is_well_formed(&args[k]) {
            return false;
        }
        k += 1;
    }
    true
}

/// Whether the tokens are a flat expression: what [`is_expression`] says of
/// their view, decided by one pass that counts the open groups and tells
/// whether a term or an operator is due.
pub fn is_well_formed(tokens: &Vec<ExprToken>) -> (ok: bool)
    ensures
        ok == is_expression(tokens.deep_view()),
    decreases tokens, 0nat,
{
    let ghost t = tokens.deep_view();
    let n = tokens.len();
    if n == 0 {
        return false;
    }
    let mut open: usize = 0;
    let mut term_due = true;
    let mut i: usize = 0;
    assert(depth(t, 0) == 0);
    while i < n
        invariant
            t == tokens.deep_view(),
            n == tokens.len(),
            i <= n,
            open <= i,
            open == depth(t, i as int),
            forall|k: int| 0 <= k <= i ==> #[trigger] depth(t, k) >= 0,
            i == 0 ==> term_due,
            i > 0 ==> term_due == !closes_term(t[i - 1]),
            i > 0 ==> opens_term(t[0]),
            forall|k: int| 0 < k < i ==> (opens_term(#[trigger] t[k]) <==> !closes_term(t[k - 1])),
            forall|k: int, j: int|
                0 <= k < i && t[k] is Call && 0 <= j < t[k]->args.len() ==> is_expression(
                    #[trigger] t[k]->args[j],
                ),
        decreases n - i,
    {
        let token = &tokens[i];
        assert(t[i as int] == token.deep_view());
        assert(depth(t, i + 1) == depth(t, i as int) + depth_step(t[i as int]));
        match token {
            ExprToken::LParen => {
                if !term_due {
                    return false;
                }
                open += 1;
            },
            ExprToken::RParen => {
                if term_due || open == 0 {
                    return false;
                }
                open -= 1;
            },
            ExprToken::Number(_) | ExprToken::Ident(_) => {
                if !term_due {
                    return false;
                }
                term_due = false;
            },
            ExprToken::Call { name, args } => {
                proof {
                    lemma_call_token_view(*name, *args);
                }
                if !term_due {
                    return false;
                }
                if !arguments_well_formed(args) {
                    proof {
                        let a = choose|a: int|
                            0 <= a < args.len() && !is_expression(#[trigger] args[a].deep_view());
                        assert(t[i as int]->args[a] == args[a].deep_view());
                    }
                    return false;
                }
                proof {
                    assert forall|j: int| 0 <= j < t[i as int]->args.len() implies is_expression(
                        #[trigger] t[i as int]->args[j],
                    ) by {
                        assert(t[i as int]->args[j] == args[j].deep_view());
                    }
                }
                term_due = false;
            },
            _ => {
                if term_due {
                    return false;
                }
                term_due = true;
            },
        }
        i += 1;
    }
    !term_due && open == 0
}

} // verus!
