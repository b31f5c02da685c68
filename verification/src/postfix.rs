//! Postfix order and the state of the operator-precedence conversion.
//!
//! The conversion reads a flat expression from left to right. It keeps a
//! stack of operators and open groups, and emits operands and operators in
//! postfix order. This module says what a postfix sequence folds to, what
//! holds of the stack between two tokens, and proves that each move of the
//! conversion keeps that.

use crate::grammar::{
    above, binding_power, closes_term, depth, is_expression, is_operand, lemma_expression_balanced,
    lemma_group, lemma_join, lemma_single, no_operator, opens_term, operand_tree, resolution,
};
use crate::types::{binary, ExprView, TokenView};
use vstd::prelude::*;

verus! {

/// What one more token does to the trees folded so far: an operand adds a
/// leaf, an operator joins the two trees on top.
pub open spec fn fold_step(st: Seq<ExprView>, t: TokenView) -> Seq<ExprView> {
    match t {
        TokenView::Op(op) => if st.len() >= 2 {
            st.subrange(0, st.len() - 2).push(binary(op, st[st.len() - 2], st[st.len() - 1]))
        } else {
            st
        },
        _ => st.push(operand_tree(t)),
    }
}

/// The trees that a postfix sequence folds to.
pub open spec fn postfix_trees(r: Seq<TokenView>) -> Seq<ExprView>
    decreases r.len(),
{
    if r.len() == 0 {
        Seq::empty()
    } else {
        fold_step(postfix_trees(r.drop_last()), r.last())
    }
}

/// Whether `r` can be folded: it holds operands and operators only, and
/// every operator finds two trees to join.
pub open spec fn postfix_ok(r: Seq<TokenView>) -> bool {
    forall|j: int|
        0 <= j < r.len() ==> is_operand(#[trigger] r[j]) || (r[j] is Op && postfix_trees(
            r.take(j),
        ).len() >= 2)
}

/// The tokens at the given positions.
pub open spec fn select(tokens: Seq<TokenView>, idx: Seq<usize>) -> Seq<TokenView> {
    Seq::new(idx.len(), |j: int| tokens[idx[j] as int])
}

/// The precedence under which a token lies on the operator stack. An open
/// group lies below every operator; a closing parenthesis is never pushed
/// and pops whatever it meets.
pub open spec fn stack_precedence(t: TokenView) -> int {
    match t {
        TokenView::Op(op) => binding_power(op),
        TokenView::RParen => -1,
        _ => 0,
    }
}

/// Whether the tokens from `a` up to `b` form a flat expression.
#[verifier::opaque]
pub open spec fn is_segment(tokens: Seq<TokenView>, a: int, b: int) -> bool {
    0 <= a < b <= tokens.len() && is_expression(tokens.subrange(a, b))
}

/// Whether every operator outside every group among the tokens from `a` up
/// to `b` binds at least as tightly as `p`.
#[verifier::opaque]
pub open spec fn segment_above(tokens: Seq<TokenView>, a: int, b: int, p: int) -> bool {
    above(tokens.subrange(a, b), p)
}

/// The tree of the tokens from `a` up to `b`.
#[verifier::opaque]
pub open spec fn segment_tree(tokens: Seq<TokenView>, a: int, b: int) -> ExprView {
    resolution(tokens.subrange(a, b))
}

/// One for an operator, nothing for an open group.
pub open spec fn operator_count(t: TokenView) -> int {
    if t is Op {
        1
    } else {
        0
    }
}

/// Where the tokens begin that follow stack entry `j - 1`.
pub open spec fn segment_start(ops: Seq<(i16, usize)>, j: int) -> int {
    if j == 0 {
        0
    } else {
        ops[j - 1].1 as int + 1
    }
}

/// The number of trees that belong to the stack entries below entry
/// `ops.len()`: one for each operator.
pub open spec fn trees_below_top(tokens: Seq<TokenView>, ops: Seq<(i16, usize)>, tix: Seq<int>) -> int {
    if ops.len() == 0 {
        0
    } else {
        tix[ops.len() - 1] + operator_count(tokens[ops[ops.len() - 1].1 as int])
    }
}

/// What holds of stack entry `j`. An open group follows its predecessor at
/// once. An operator is preceded by a flat expression, its left operand so
/// far, whose tree is `trees[tix[j]]` and whose operators bind strictly
/// tighter; and the operator below it on the stack binds no tighter.
pub open spec fn entry_ok(
    tokens: Seq<TokenView>,
    ops: Seq<(i16, usize)>,
    tix: Seq<int>,
    trees: Seq<ExprView>,
    j: int,
) -> bool {
    let pos = ops[j].1 as int;
    let t = tokens[pos];
    let a = segment_start(ops, j);
    &&& a <= pos < tokens.len()
    &&& ops[j].0 as int == stack_precedence(t)
    &&& (t is Op || t is LParen)
    &&& 0 <= tix[j]
    &&& tix[j] == if j == 0 {
        0
    } else {
        tix[j - 1] + operator_count(tokens[ops[j - 1].1 as int])
    }
    &&& (t is LParen ==> pos == a)
    &&& (t is Op ==> {
        &&& is_segment(tokens, a, pos)
        &&& tix[j] < trees.len()
        &&& trees[tix[j]] == segment_tree(tokens, a, pos)
        &&& segment_above(tokens, a, pos, binding_power(t->Op_0) + 1)
        &&& (j > 0 && tokens[ops[j - 1].1 as int] is Op ==> binding_power(
            tokens[ops[j - 1].1 as int]->Op_0,
        ) <= binding_power(t->Op_0))
    })
}

/// What holds of the whole stack.
pub open spec fn stack_ok(
    tokens: Seq<TokenView>,
    ops: Seq<(i16, usize)>,
    tix: Seq<int>,
    trees: Seq<ExprView>,
) -> bool {
    &&& tix.len() == ops.len()
    &&& forall|j: int| 0 <= j < ops.len() ==> #[trigger] entry_ok(tokens, ops, tix, trees, j)
    &&& forall|j: int, k: int|
        0 <= j < k < ops.len() ==> #[trigger] tix[j] + operator_count(tokens[ops[j].1 as int])
            <= #[trigger] tix[k]
}

/// What holds between two tokens of what follows the top of the stack up to
/// position `i`: nothing yet, or one complete term with its tree on top.
pub open spec fn tail_ok(
    tokens: Seq<TokenView>,
    ops: Seq<(i16, usize)>,
    tix: Seq<int>,
    trees: Seq<ExprView>,
    i: int,
) -> bool {
    let a = segment_start(ops, ops.len() as int);
    let c = trees_below_top(tokens, ops, tix);
    &&& a <= i <= tokens.len()
    &&& (i == a ==> trees.len() == c)
    &&& (i > a ==> {
        &&& is_segment(tokens, a, i)
        &&& segment_above(tokens, a, i, no_operator())
        &&& trees.len() == c + 1
        &&& trees[c] == segment_tree(tokens, a, i)
    })
}

/// What holds while operators are popped for a token of precedence `p`: a
/// flat expression follows the top of the stack, its tree is on top, its
/// operators bind strictly tighter than `p` and no looser than the operator
/// on top of the stack.
pub open spec fn open_tail_ok(
    tokens: Seq<TokenView>,
    ops: Seq<(i16, usize)>,
    tix: Seq<int>,
    trees: Seq<ExprView>,
    i: int,
    p: int,
) -> bool {
    let a = segment_start(ops, ops.len() as int);
    let c = trees_below_top(tokens, ops, tix);
    &&& a < i <= tokens.len()
    &&& is_segment(tokens, a, i)
    &&& segment_above(tokens, a, i, p + 1)
    &&& trees.len() == c + 1
    &&& trees[c] == segment_tree(tokens, a, i)
    &&& (ops.len() > 0 && tokens[ops.last().1 as int] is Op ==> segment_above(
        tokens,
        a,
        i,
        binding_power(tokens[ops.last().1 as int]->Op_0),
    ))
}

/// Folding one token more.
proof fn lemma_postfix_push(r: Seq<TokenView>, t: TokenView)
    requires
        postfix_ok(r),
        is_operand(t) || (t is Op && postfix_trees(r).len() >= 2),
    ensures
        postfix_ok(r.push(t)),
        postfix_trees(r.push(t)) == fold_step(postfix_trees(r), t),
{
    let r2 = r.push(t);
    assert(r2.drop_last() =~= r);
    assert forall|j: int| 0 <= j < r2.len() implies is_operand(#[trigger] r2[j]) || (r2[j] is Op
        && postfix_trees(r2.take(j)).len() >= 2) by {
        if j < r.len() {
            assert(r2.take(j) =~= r.take(j));
            assert(r2[j] == r[j]);
        } else {
            assert(r2.take(j) =~= r);
        }
    }
}

/// Folding a prefix that is one token longer.
pub proof fn lemma_postfix_take(r: Seq<TokenView>, j: int)
    requires
        0 <= j < r.len(),
    ensures
        postfix_trees(r.take(j + 1)) == fold_step(postfix_trees(r.take(j)), r[j]),
{
    assert(r.take(j + 1).drop_last() =~= r.take(j));
}

/// The positions selected after one more was added.
proof fn lemma_select_push(tokens: Seq<TokenView>, idx: Seq<usize>, i: usize)
    ensures
        select(tokens, idx.push(i)) == select(tokens, idx).push(tokens[i as int]),
{
    assert(select(tokens, idx.push(i)) =~= select(tokens, idx).push(tokens[i as int]));
}

/// An operand of a flat expression is a segment of its own; its tree is a
/// leaf.
proof fn lemma_segment_single(tokens: Seq<TokenView>, i: int)
    requires
        is_expression(tokens),
        0 <= i < tokens.len(),
        is_operand(tokens[i]),
    ensures
        is_segment(tokens, i, i + 1),
        segment_above(tokens, i, i + 1, no_operator()),
        segment_tree(tokens, i, i + 1) == operand_tree(tokens[i]),
{
    reveal(is_segment);
    reveal(segment_above);
    reveal(segment_tree);
    let x = tokens.subrange(i, i + 1);
    assert(x[0] == tokens[i]);
    lemma_single(x);
}

/// Two segments with an operator between them form one segment with that
/// operator at the root, where it binds looser than every operator in sight
/// on its left and no tighter than any on its right.
proof fn lemma_segment_join(tokens: Seq<TokenView>, a: int, k: int, b: int, q: int)
    requires
        is_segment(tokens, a, k),
        is_segment(tokens, k + 1, b),
        tokens[k] is Op,
        q == binding_power(tokens[k]->Op_0),
        segment_above(tokens, a, k, q + 1),
        segment_above(tokens, k + 1, b, q),
    ensures
        is_segment(tokens, a, b),
        segment_above(tokens, a, b, q),
        segment_tree(tokens, a, b) == binary(
            tokens[k]->Op_0,
            segment_tree(tokens, a, k),
            segment_tree(tokens, k + 1, b),
        ),
{
    reveal(is_segment);
    reveal(segment_above);
    reveal(segment_tree);
    let z = tokens.subrange(a, b);
    assert(z.subrange(0, k - a) =~= tokens.subrange(a, k));
    assert(z.subrange(k - a + 1, z.len() as int) =~= tokens.subrange(k + 1, b));
    assert(z[k - a] == tokens[k]);
    lemma_join(z, k - a);
}

/// A segment between parentheses forms, with them, a segment with the same
/// tree and no operator outside every group.
proof fn lemma_segment_group(tokens: Seq<TokenView>, a: int, b: int)
    requires
        0 <= a,
        b <= tokens.len(),
        is_segment(tokens, a + 1, b - 1),
        tokens[a] is LParen,
        tokens[b - 1] is RParen,
    ensures
        is_segment(tokens, a, b),
        segment_above(tokens, a, b, no_operator()),
        segment_tree(tokens, a, b) == segment_tree(tokens, a + 1, b - 1),
{
    reveal(is_segment);
    reveal(segment_above);
    reveal(segment_tree);
    let z = tokens.subrange(a, b);
    assert(z.subrange(1, z.len() - 1) =~= tokens.subrange(a + 1, b - 1));
    assert(z[0] == tokens[a]);
    assert(z.last() == tokens[b - 1]);
    lemma_group(z);
}

/// A bound on the operators of a segment can be lowered.
proof fn lemma_segment_above_weaken(tokens: Seq<TokenView>, a: int, b: int, p: int, q: int)
    requires
        segment_above(tokens, a, b, p),
        q <= p,
    ensures
        segment_above(tokens, a, b, q),
{
    reveal(segment_above);
}

/// A segment begins and ends as a term does, and leaves the depth as it
/// found it.
proof fn lemma_segment_ends(tokens: Seq<TokenView>, a: int, b: int)
    requires
        is_segment(tokens, a, b),
    ensures
        0 <= a < b <= tokens.len(),
        opens_term(tokens[a]),
        closes_term(tokens[b - 1]),
        depth(tokens, b) == depth(tokens, a),
{
    reveal(is_segment);
    let x = tokens.subrange(a, b);
    assert(x[0] == tokens[a]);
    assert(x.last() == tokens[b - 1]);
    lemma_expression_balanced(tokens, a, b);
}

/// The segment that spans a whole flat expression has its tree.
proof fn lemma_segment_whole(tokens: Seq<TokenView>)
    ensures
        segment_tree(tokens, 0, tokens.len() as int) == resolution(tokens),
{
    reveal(segment_tree);
    assert(tokens.subrange(0, tokens.len() as int) =~= tokens);
}

/// In a flat expression a token begins a term exactly where the token in
/// front of it does not end one.
proof fn lemma_adjacent(tokens: Seq<TokenView>, i: int)
    requires
        is_expression(tokens),
        0 <= i <= tokens.len(),
    ensures
        i == 0 ==> opens_term(tokens[0]),
        0 < i < tokens.len() ==> (opens_term(tokens[i]) <==> !closes_term(tokens[i - 1])),
        i == tokens.len() ==> i > 0 && closes_term(tokens[i - 1]),
        depth(tokens, i) >= 0,
        depth(tokens, 0) == 0,
        depth(tokens, tokens.len() as int) == 0,
        i < tokens.len() ==> depth(tokens, i + 1) == depth(tokens, i) + crate::grammar::depth_step(
            tokens[i],
        ),
{
}

/// A token that begins a term finds nothing behind the top of the stack.
proof fn lemma_term_begins(
    tokens: Seq<TokenView>,
    ops: Seq<(i16, usize)>,
    tix: Seq<int>,
    trees: Seq<ExprView>,
    i: int,
)
    requires
        is_expression(tokens),
        0 <= i < tokens.len(),
        opens_term(tokens[i]),
        tail_ok(tokens, ops, tix, trees, i),
    ensures
        i == segment_start(ops, ops.len() as int),
{
    let a = segment_start(ops, ops.len() as int);
    if i > a {
        lemma_segment_ends(tokens, a, i);
        lemma_adjacent(tokens, i);
    }
}

/// A token that continues an expression, or its end, finds a complete term
/// behind the top of the stack.
proof fn lemma_term_ended(
    tokens: Seq<TokenView>,
    ops: Seq<(i16, usize)>,
    tix: Seq<int>,
    trees: Seq<ExprView>,
    i: int,
    p: int,
)
    requires
        is_expression(tokens),
        0 <= i <= tokens.len(),
        i < tokens.len() ==> !opens_term(tokens[i]),
        p < no_operator(),
        stack_ok(tokens, ops, tix, trees),
        tail_ok(tokens, ops, tix, trees, i),
    ensures
        open_tail_ok(tokens, ops, tix, trees, i, p),
{
    let m = ops.len() as int;
    let a = segment_start(ops, m);
    lemma_adjacent(tokens, i);
    if i == a {
        if m > 0 {
            assert(entry_ok(tokens, ops, tix, trees, m - 1));
            assert(!closes_term(tokens[i - 1]));
        }
        assert(false);
    }
    lemma_segment_above_weaken(tokens, a, i, no_operator(), p + 1);
    if m > 0 && tokens[ops.last().1 as int] is Op {
        lemma_segment_above_weaken(
            tokens,
            a,
            i,
            no_operator(),
            binding_power(tokens[ops.last().1 as int]->Op_0),
        );
    }
}

/// Trees below the top of the stack stay where they are when the top
/// changes.
proof fn lemma_entries_keep(
    tokens: Seq<TokenView>,
    ops: Seq<(i16, usize)>,
    tix: Seq<int>,
    trees: Seq<ExprView>,
    trees2: Seq<ExprView>,
    len: int,
)
    requires
        stack_ok(tokens, ops, tix, trees),
        0 <= len <= ops.len(),
        forall|k: int|
            0 <= k < trees.len() && k < trees_below_top(tokens, ops.take(len), tix.take(len))
                ==> k < trees2.len() && trees2[k] == trees[k],
    ensures
        stack_ok(tokens, ops.take(len), tix.take(len), trees2),
{
    let ops2 = ops.take(len);
    let tix2 = tix.take(len);
    let c = trees_below_top(tokens, ops2, tix2);
    assert forall|j: int| 0 <= j < ops2.len() implies #[trigger] entry_ok(
        tokens,
        ops2,
        tix2,
        trees2,
        j,
    ) by {
        assert(entry_ok(tokens, ops, tix, trees, j));
        assert(segment_start(ops2, j) == segment_start(ops, j));
        if j < len - 1 {
            assert(tix[j] + operator_count(tokens[ops[j].1 as int]) <= tix[len - 1]);
        }
    }
    assert forall|j: int, k: int| 0 <= j < k < ops2.len() implies #[trigger] tix2[j]
        + operator_count(tokens[ops2[j].1 as int]) <= #[trigger] tix2[k] by {
        assert(tix[j] + operator_count(tokens[ops[j].1 as int]) <= tix[k]);
    }
}

/// A new entry on top of a stack that is in order.
proof fn lemma_entry_pushed(
    tokens: Seq<TokenView>,
    ops: Seq<(i16, usize)>,
    tix: Seq<int>,
    trees: Seq<ExprView>,
    entry: (i16, usize),
)
    requires
        stack_ok(tokens, ops, tix, trees),
        entry_ok(
            tokens,
            ops.push(entry),
            tix.push(trees_below_top(tokens, ops, tix)),
            trees,
            ops.len() as int,
        ),
    ensures
        stack_ok(tokens, ops.push(entry), tix.push(trees_below_top(tokens, ops, tix)), trees),
{
    let c = trees_below_top(tokens, ops, tix);
    let ops2 = ops.push(entry);
    let tix2 = tix.push(c);
    let m = ops.len() as int;
    assert forall|j: int| 0 <= j < ops2.len() implies #[trigger] entry_ok(
        tokens,
        ops2,
        tix2,
        trees,
        j,
    ) by {
        if j < m {
            assert(entry_ok(tokens, ops, tix, trees, j));
            assert(segment_start(ops2, j) == segment_start(ops, j));
        }
    }
    assert forall|j: int, k: int| 0 <= j < k < ops2.len() implies #[trigger] tix2[j]
        + operator_count(tokens[ops2[j].1 as int]) <= #[trigger] tix2[k] by {
        if k < m {
            assert(tix[j] + operator_count(tokens[ops[j].1 as int]) <= tix[k]);
        } else if j < m - 1 {
            assert(tix[j] + operator_count(tokens[ops[j].1 as int]) <= tix[m - 1]);
        }
    }
}

/// An operand is emitted at once.
proof fn lemma_emit_operand(
    tokens: Seq<TokenView>,
    ops: Seq<(i16, usize)>,
    tix: Seq<int>,
    rpn: Seq<usize>,
    i: usize,
)
    requires
        is_expression(tokens),
        i < tokens.len(),
        is_operand(tokens[i as int]),
        postfix_ok(select(tokens, rpn)),
        stack_ok(tokens, ops, tix, postfix_trees(select(tokens, rpn))),
        tail_ok(tokens, ops, tix, postfix_trees(select(tokens, rpn)), i as int),
    ensures
        postfix_ok(select(tokens, rpn.push(i))),
        stack_ok(tokens, ops, tix, postfix_trees(select(tokens, rpn.push(i)))),
        tail_ok(tokens, ops, tix, postfix_trees(select(tokens, rpn.push(i))), i + 1),
{
    let trees = postfix_trees(select(tokens, rpn));
    let t = tokens[i as int];
    lemma_term_begins(tokens, ops, tix, trees, i as int);
    lemma_select_push(tokens, rpn, i);
    lemma_postfix_push(select(tokens, rpn), t);
    let trees2 = postfix_trees(select(tokens, rpn.push(i)));
    assert(trees2 == trees.push(operand_tree(t)));
    lemma_segment_single(tokens, i as int);
    assert(ops.take(ops.len() as int) =~= ops);
    assert(tix.take(ops.len() as int) =~= tix);
    lemma_entries_keep(tokens, ops, tix, trees, trees2, ops.len() as int);
}

/// An open group is pushed.
proof fn lemma_push_group(
    tokens: Seq<TokenView>,
    ops: Seq<(i16, usize)>,
    tix: Seq<int>,
    trees: Seq<ExprView>,
    i: usize,
)
    requires
        is_expression(tokens),
        i < tokens.len(),
        tokens[i as int] is LParen,
        stack_ok(tokens, ops, tix, trees),
        tail_ok(tokens, ops, tix, trees, i as int),
    ensures
        stack_ok(
            tokens,
            ops.push((0i16, i)),
            tix.push(trees_below_top(tokens, ops, tix)),
            trees,
        ),
        tail_ok(
            tokens,
            ops.push((0i16, i)),
            tix.push(trees_below_top(tokens, ops, tix)),
            trees,
            i + 1,
        ),
{
    lemma_term_begins(tokens, ops, tix, trees, i as int);
    lemma_entry_pushed(tokens, ops, tix, trees, (0i16, i));
}

/// An operator is pushed once the top of the stack binds no tighter.
proof fn lemma_push_operator(
    tokens: Seq<TokenView>,
    ops: Seq<(i16, usize)>,
    tix: Seq<int>,
    trees: Seq<ExprView>,
    i: usize,
    p: i16,
)
    requires
        i < tokens.len(),
        tokens[i as int] is Op,
        p == binding_power(tokens[i as int]->Op_0),
        stack_ok(tokens, ops, tix, trees),
        open_tail_ok(tokens, ops, tix, trees, i as int, p as int),
        ops.len() > 0 ==> ops.last().0 <= p,
    ensures
        stack_ok(tokens, ops.push((p, i)), tix.push(trees_below_top(tokens, ops, tix)), trees),
        tail_ok(tokens, ops.push((p, i)), tix.push(trees_below_top(tokens, ops, tix)), trees, i + 1),
{
    let m = ops.len() as int;
    if m > 0 {
        assert(entry_ok(tokens, ops, tix, trees, m - 1));
    }
    lemma_entry_pushed(tokens, ops, tix, trees, (p, i));
}

/// The operator on top of the stack is popped and emitted: it joins its left
/// operand with what follows it.
proof fn lemma_pop_operator(
    tokens: Seq<TokenView>,
    ops: Seq<(i16, usize)>,
    tix: Seq<int>,
    rpn: Seq<usize>,
    i: int,
    p: int,
)
    requires
        ops.len() > 0,
        tokens[ops.last().1 as int] is Op,
        p < binding_power(tokens[ops.last().1 as int]->Op_0),
        postfix_ok(select(tokens, rpn)),
        stack_ok(tokens, ops, tix, postfix_trees(select(tokens, rpn))),
        open_tail_ok(tokens, ops, tix, postfix_trees(select(tokens, rpn)), i, p),
    ensures
        postfix_ok(select(tokens, rpn.push(ops.last().1))),
        stack_ok(
            tokens,
            ops.drop_last(),
            tix.drop_last(),
            postfix_trees(select(tokens, rpn.push(ops.last().1))),
        ),
        open_tail_ok(
            tokens,
            ops.drop_last(),
            tix.drop_last(),
            postfix_trees(select(tokens, rpn.push(ops.last().1))),
            i,
            p,
        ),
{
    let trees = postfix_trees(select(tokens, rpn));
    let m = ops.len() as int;
    let pos = ops.last().1;
    let t = tokens[pos as int];
    let q = binding_power(t->Op_0);
    let a = segment_start(ops, m - 1);
    let ops2 = ops.drop_last();
    let tix2 = tix.drop_last();
    assert(ops2 =~= ops.take(m - 1));
    assert(tix2 =~= tix.take(m - 1));
    assert(entry_ok(tokens, ops, tix, trees, m - 1));
    let c = tix[m - 1];
    assert(trees.len() == c + 2);
    lemma_select_push(tokens, rpn, pos);
    lemma_postfix_push(select(tokens, rpn), t);
    let trees2 = postfix_trees(select(tokens, rpn.push(pos)));
    assert(trees2 == trees.subrange(0, c).push(binary(t->Op_0, trees[c], trees[c + 1])));
    lemma_segment_join(tokens, a, pos as int, i, q);
    lemma_segment_above_weaken(tokens, a, i, q, p + 1);
    assert(trees_below_top(tokens, ops2, tix2) == c);
    lemma_entries_keep(tokens, ops, tix, trees, trees2, m - 1);
    if ops2.len() > 0 && tokens[ops2.last().1 as int] is Op {
        let q2 = binding_power(tokens[ops2.last().1 as int]->Op_0);
        assert(q2 <= q);
        lemma_segment_above_weaken(tokens, a, i, q, q2);
    }
}

/// A closing parenthesis meets its open group on top of the stack: the
/// group is complete and becomes one term.
proof fn lemma_close_group(
    tokens: Seq<TokenView>,
    ops: Seq<(i16, usize)>,
    tix: Seq<int>,
    trees: Seq<ExprView>,
    i: int,
    p: int,
)
    requires
        0 <= i < tokens.len(),
        tokens[i] is RParen,
        ops.len() > 0,
        tokens[ops.last().1 as int] is LParen,
        stack_ok(tokens, ops, tix, trees),
        open_tail_ok(tokens, ops, tix, trees, i, p),
    ensures
        stack_ok(tokens, ops.drop_last(), tix.drop_last(), trees),
        tail_ok(tokens, ops.drop_last(), tix.drop_last(), trees, i + 1),
{
    let m = ops.len() as int;
    let ops2 = ops.drop_last();
    let tix2 = tix.drop_last();
    assert(ops2 =~= ops.take(m - 1));
    assert(tix2 =~= tix.take(m - 1));
    assert(entry_ok(tokens, ops, tix, trees, m - 1));
    let a = segment_start(ops, m - 1);
    lemma_segment_group(tokens, a, i + 1);
    assert(trees_below_top(tokens, ops2, tix2) == tix[m - 1]);
    lemma_entries_keep(tokens, ops, tix, trees, trees, m - 1);
}

/// A closing parenthesis never finds the stack empty.
proof fn lemma_group_is_open(
    tokens: Seq<TokenView>,
    ops: Seq<(i16, usize)>,
    tix: Seq<int>,
    trees: Seq<ExprView>,
    i: int,
    p: int,
)
    requires
        is_expression(tokens),
        0 <= i < tokens.len(),
        tokens[i] is RParen,
        open_tail_ok(tokens, ops, tix, trees, i, p),
    ensures
        ops.len() > 0,
{
    if ops.len() == 0 {
        lemma_segment_ends(tokens, 0, i);
        lemma_adjacent(tokens, i);
        lemma_adjacent(tokens, i + 1);
    }
}

/// At the end of a flat expression no group is open.
proof fn lemma_no_group_left(
    tokens: Seq<TokenView>,
    ops: Seq<(i16, usize)>,
    tix: Seq<int>,
    trees: Seq<ExprView>,
    p: int,
)
    requires
        is_expression(tokens),
        ops.len() > 0,
        stack_ok(tokens, ops, tix, trees),
        open_tail_ok(tokens, ops, tix, trees, tokens.len() as int, p),
    ensures
        tokens[ops.last().1 as int] is Op,
{
    let m = ops.len() as int;
    let pos = ops.last().1 as int;
    let n = tokens.len() as int;
    assert(entry_ok(tokens, ops, tix, trees, m - 1));
    if tokens[pos] is LParen {
        lemma_segment_ends(tokens, pos + 1, n);
        lemma_adjacent(tokens, pos);
        lemma_adjacent(tokens, n);
    }
}

/// Once the stack is empty at the end, one tree is left: that of the whole
/// expression.
proof fn lemma_finished(
    tokens: Seq<TokenView>,
    ops: Seq<(i16, usize)>,
    tix: Seq<int>,
    trees: Seq<ExprView>,
    p: int,
)
    requires
        ops.len() == 0,
        open_tail_ok(tokens, ops, tix, trees, tokens.len() as int, p),
    ensures
        trees == seq![resolution(tokens)],
{
    lemma_segment_whole(tokens);
    assert(trees =~= seq![resolution(tokens)]);
}

/// The state between two tokens: the first `i` tokens are read, `rpn` is
/// emitted, `ops` is the operator stack, and `tix` tells for each stack
/// entry how many trees lie below it.
#[verifier::opaque]
pub open spec fn scanning(
    tokens: Seq<TokenView>,
    ops: Seq<(i16, usize)>,
    tix: Seq<int>,
    rpn: Seq<usize>,
    i: int,
) -> bool {
    &&& is_expression(tokens)
    &&& forall|j: int| 0 <= j < rpn.len() ==> #[trigger] rpn[j] < tokens.len()
    &&& postfix_ok(select(tokens, rpn))
    &&& stack_ok(tokens, ops, tix, postfix_trees(select(tokens, rpn)))
    &&& tail_ok(tokens, ops, tix, postfix_trees(select(tokens, rpn)), i)
}

/// The state while operators are popped for a token of precedence `p` at
/// position `i`, or at the end.
#[verifier::opaque]
pub open spec fn popping(
    tokens: Seq<TokenView>,
    ops: Seq<(i16, usize)>,
    tix: Seq<int>,
    rpn: Seq<usize>,
    i: int,
    p: int,
) -> bool {
    &&& is_expression(tokens)
    &&& forall|j: int| 0 <= j < rpn.len() ==> #[trigger] rpn[j] < tokens.len()
    &&& postfix_ok(select(tokens, rpn))
    &&& stack_ok(tokens, ops, tix, postfix_trees(select(tokens, rpn)))
    &&& open_tail_ok(tokens, ops, tix, postfix_trees(select(tokens, rpn)), i, p)
}

/// Before the first token nothing is emitted and the stack is empty.
pub proof fn lemma_scan_start(tokens: Seq<TokenView>)
    requires
        is_expression(tokens),
    ensures
        scanning(tokens, Seq::empty(), Seq::empty(), Seq::empty(), 0),
{
    reveal(scanning);
    assert(postfix_trees(select(tokens, Seq::empty())) =~= Seq::empty());
}

/// An operand is emitted at once.
pub proof fn lemma_scan_operand(
    tokens: Seq<TokenView>,
    ops: Seq<(i16, usize)>,
    tix: Seq<int>,
    rpn: Seq<usize>,
    i: usize,
)
    requires
        scanning(tokens, ops, tix, rpn, i as int),
        i < tokens.len(),
        is_operand(tokens[i as int]),
    ensures
        scanning(tokens, ops, tix, rpn.push(i), i + 1),
{
    reveal(scanning);
    lemma_emit_operand(tokens, ops, tix, rpn, i);
}

/// An open group is pushed.
pub proof fn lemma_scan_group(
    tokens: Seq<TokenView>,
    ops: Seq<(i16, usize)>,
    tix: Seq<int>,
    rpn: Seq<usize>,
    i: usize,
)
    requires
        scanning(tokens, ops, tix, rpn, i as int),
        i < tokens.len(),
        tokens[i as int] is LParen,
    ensures
        scanning(
            tokens,
            ops.push((0i16, i)),
            tix.push(trees_below_top(tokens, ops, tix)),
            rpn,
            i + 1,
        ),
{
    reveal(scanning);
    lemma_push_group(tokens, ops, tix, postfix_trees(select(tokens, rpn)), i);
}

/// An operator, a closing parenthesis or the end finds a complete term
/// behind the top of the stack.
pub proof fn lemma_scan_pops(
    tokens: Seq<TokenView>,
    ops: Seq<(i16, usize)>,
    tix: Seq<int>,
    rpn: Seq<usize>,
    i: int,
    p: int,
)
    requires
        scanning(tokens, ops, tix, rpn, i),
        0 <= i <= tokens.len(),
        i < tokens.len() ==> !opens_term(tokens[i]),
        p < no_operator(),
    ensures
        popping(tokens, ops, tix, rpn, i, p),
{
    reveal(scanning);
    reveal(popping);
    lemma_term_ended(tokens, ops, tix, postfix_trees(select(tokens, rpn)), i, p);
}

/// The entry on top of the stack is an operator or an open group of the
/// expression, under its precedence.
pub proof fn lemma_pop_top(
    tokens: Seq<TokenView>,
    ops: Seq<(i16, usize)>,
    tix: Seq<int>,
    rpn: Seq<usize>,
    i: int,
    p: int,
)
    requires
        popping(tokens, ops, tix, rpn, i, p) || scanning(tokens, ops, tix, rpn, i),
        ops.len() > 0,
    ensures
        ops.last().1 < tokens.len(),
        tokens[ops.last().1 as int] is Op || tokens[ops.last().1 as int] is LParen,
        ops.last().0 == stack_precedence(tokens[ops.last().1 as int]),
{
    reveal(scanning);
    reveal(popping);
    assert(entry_ok(tokens, ops, tix, postfix_trees(select(tokens, rpn)), ops.len() - 1));
}

/// The operator on top of the stack is popped and emitted.
pub proof fn lemma_pop_emit(
    tokens: Seq<TokenView>,
    ops: Seq<(i16, usize)>,
    tix: Seq<int>,
    rpn: Seq<usize>,
    i: int,
    p: int,
)
    requires
        popping(tokens, ops, tix, rpn, i, p),
        ops.len() > 0,
        tokens[ops.last().1 as int] is Op,
        p < ops.last().0,
    ensures
        popping(tokens, ops.drop_last(), tix.drop_last(), rpn.push(ops.last().1), i, p),
{
    lemma_pop_top(tokens, ops, tix, rpn, i, p);
    reveal(popping);
    lemma_pop_operator(tokens, ops, tix, rpn, i, p);
    let rpn2 = rpn.push(ops.last().1);
    assert forall|j: int| 0 <= j < rpn2.len() implies #[trigger] rpn2[j] < tokens.len() by {
        if j < rpn.len() {
            assert(rpn2[j] == rpn[j]);
        }
    }
}

/// A closing parenthesis meets its open group on top of the stack.
pub proof fn lemma_pop_group(
    tokens: Seq<TokenView>,
    ops: Seq<(i16, usize)>,
    tix: Seq<int>,
    rpn: Seq<usize>,
    i: int,
    p: int,
)
    requires
        popping(tokens, ops, tix, rpn, i, p),
        0 <= i < tokens.len(),
        tokens[i] is RParen,
        ops.len() > 0,
        tokens[ops.last().1 as int] is LParen,
    ensures
        scanning(tokens, ops.drop_last(), tix.drop_last(), rpn, i + 1),
{
    reveal(scanning);
    reveal(popping);
    lemma_close_group(tokens, ops, tix, postfix_trees(select(tokens, rpn)), i, p);
}

/// An operator is pushed once the top of the stack binds no tighter.
pub proof fn lemma_pop_push(
    tokens: Seq<TokenView>,
    ops: Seq<(i16, usize)>,
    tix: Seq<int>,
    rpn: Seq<usize>,
    i: usize,
    p: i16,
)
    requires
        popping(tokens, ops, tix, rpn, i as int, p as int),
        i < tokens.len(),
        tokens[i as int] is Op,
        p == binding_power(tokens[i as int]->Op_0),
        ops.len() > 0 ==> ops.last().0 <= p,
    ensures
        scanning(
            tokens,
            ops.push((p, i)),
            tix.push(trees_below_top(tokens, ops, tix)),
            rpn,
            i + 1,
        ),
{
    reveal(scanning);
    reveal(popping);
    lemma_push_operator(tokens, ops, tix, postfix_trees(select(tokens, rpn)), i, p);
}

/// A closing parenthesis never finds the stack empty.
pub proof fn lemma_pop_finds_group(
    tokens: Seq<TokenView>,
    ops: Seq<(i16, usize)>,
    tix: Seq<int>,
    rpn: Seq<usize>,
    i: int,
    p: int,
)
    requires
        popping(tokens, ops, tix, rpn, i, p),
        0 <= i < tokens.len(),
        tokens[i] is RParen,
    ensures
        ops.len() > 0,
{
    reveal(popping);
    lemma_group_is_open(tokens, ops, tix, postfix_trees(select(tokens, rpn)), i, p);
}

/// At the end of the expression the top of the stack is an operator.
pub proof fn lemma_pop_at_end(
    tokens: Seq<TokenView>,
    ops: Seq<(i16, usize)>,
    tix: Seq<int>,
    rpn: Seq<usize>,
    p: int,
)
    requires
        popping(tokens, ops, tix, rpn, tokens.len() as int, p),
        ops.len() > 0,
    ensures
        tokens[ops.last().1 as int] is Op,
        p < 0 ==> p < ops.last().0,
{
    lemma_pop_top(tokens, ops, tix, rpn, tokens.len() as int, p);
    reveal(popping);
    lemma_no_group_left(tokens, ops, tix, postfix_trees(select(tokens, rpn)), p);
}

/// Once the stack is empty at the end, what was emitted folds to the tree
/// of the expression.
pub proof fn lemma_pop_done(
    tokens: Seq<TokenView>,
    ops: Seq<(i16, usize)>,
    tix: Seq<int>,
    rpn: Seq<usize>,
    p: int,
)
    requires
        popping(tokens, ops, tix, rpn, tokens.len() as int, p),
        ops.len() == 0,
    ensures
        forall|j: int| 0 <= j < rpn.len() ==> #[trigger] rpn[j] < tokens.len(),
        postfix_ok(select(tokens, rpn)),
        postfix_trees(select(tokens, rpn)) == seq![resolution(tokens)],
{
    reveal(popping);
    lemma_finished(tokens, ops, tix, postfix_trees(select(tokens, rpn)), p);
}

} // verus!
