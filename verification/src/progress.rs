//! The rules of the grammar move forward.
//!
//! Whatever a rule finds ends behind the position from which it was read and
//! within the text; a rule that cannot fail may end where it began. So the
//! tests of position that the rules make, to be well-founded, never turn a
//! result away.

use crate::syntax::{
    arguments, block, else_branch, expr, for_loop, forward, function_def, group, if_block,
    if_stmt, more_arguments, more_terms, onward, program, skip, stmt, term, unary, value,
    while_loop,
};
use crate::types::TokenView;
use vstd::prelude::*;
use vstd::string::*;

verus! {

/// Whether what a rule found from position `i` lies behind `i` and within
/// the text.
pub open spec fn moves<T>(s: Seq<u8>, i: int, found: Option<(T, int)>) -> bool {
    found matches Some((v, j)) ==> i < j <= s.len()
}

/// Whether what a rule that cannot fail found from position `i` lies at or
/// behind `i` and within the text.
pub open spec fn stays<T>(s: Seq<u8>, i: int, found: (T, int)) -> bool {
    i <= found.1 <= s.len()
}

/// An operand takes up at least one byte of the text.
pub proof fn law_unary_moves(s: Seq<u8>, i: int)
    requires
        0 <= i <= s.len(),
    ensures
        moves(s, i, unary(s, i)),
    decreases s.len() - i, 0nat,
{
    match crate::syntax::ident(s, i) {
        Some((name, j)) => match crate::syntax::ws_tag(s, j, "(".spec_bytes()) {
            Some(p) => {
                law_arguments_stay(s, p);
            },
            None => {},
        },
        None => {},
    }
}

/// A group takes up at least one byte of the text.
pub proof fn law_group_moves(s: Seq<u8>, i: int)
    requires
        0 <= i <= s.len(),
    ensures
        moves(s, i, group(s, i)),
    decreases s.len() - i, 0nat,
{
    match crate::syntax::ws_tag(s, i, "(".spec_bytes()) {
        Some(p) => {
            law_expr_moves(s, p);
        },
        None => {},
    }
}

/// A term takes up at least one byte of the text.
pub proof fn law_term_moves(s: Seq<u8>, i: int)
    requires
        0 <= i <= s.len(),
    ensures
        moves(s, i, term(s, i)),
    decreases s.len() - i, 1nat,
{
    law_unary_moves(s, i);
    law_group_moves(s, i);
}

/// What follows a term, as far as it is read, lies within the text.
pub proof fn law_more_terms_stay(s: Seq<u8>, i: int, found: Seq<TokenView>)
    requires
        0 <= i <= s.len(),
    ensures
        stays(s, i, more_terms(s, i, found)),
    decreases s.len() - i, 2nat,
{
    match crate::syntax::operator(s, skip(s, i)) {
        Some((op, k)) => {
            law_term_moves(s, skip(s, k));
            match forward(s, skip(s, k), term(s, skip(s, k))) {
                Some((next, j)) => {
                    law_more_terms_stay(s, skip(s, j), found.push(TokenView::Op(op)) + next);
                },
                None => {},
            }
        },
        None => {},
    }
}

/// An expression takes up at least one byte of the text.
pub proof fn law_expr_moves(s: Seq<u8>, i: int)
    requires
        0 <= i <= s.len(),
    ensures
        moves(s, i, expr(s, i)),
        moves(s, i, value(s, i)),
        forward(s, i, expr(s, i)) == expr(s, i),
    decreases s.len() - i, 3nat,
{
    law_term_moves(s, skip(s, i));
    match forward(s, skip(s, i), term(s, skip(s, i))) {
        Some((first, j)) => {
            law_more_terms_stay(s, skip(s, j), first);
        },
        None => {},
    }
}

/// The arguments behind the first, as far as they are read, lie within the
/// text.
pub proof fn law_more_arguments_stay(s: Seq<u8>, i: int, found: Seq<Seq<TokenView>>)
    requires
        0 <= i <= s.len(),
    ensures
        stays(s, i, more_arguments(s, i, found)),
    decreases s.len() - i, 4nat,
{
    match crate::syntax::ws_tag(s, i, ",".spec_bytes()) {
        Some(k) => {
            law_expr_moves(s, k);
            match forward(s, k, expr(s, k)) {
                Some((next, j)) => {
                    law_more_arguments_stay(s, j, found.push(next));
                },
                None => {},
            }
        },
        None => {},
    }
}

/// The arguments of a call lie within the text.
pub proof fn law_arguments_stay(s: Seq<u8>, i: int)
    requires
        0 <= i <= s.len(),
    ensures
        stays(s, i, arguments(s, i)),
    decreases s.len() - i, 5nat,
{
    law_expr_moves(s, i);
    match forward(s, i, expr(s, i)) {
        Some((first, j)) => {
            law_more_arguments_stay(s, j, seq![first]);
        },
        None => {},
    }
}

/// What follows the block of a conditional lies within the text.
pub proof fn law_else_stays(s: Seq<u8>, i: int)
    requires
        0 <= i <= s.len(),
    ensures
        stays(s, i, else_branch(s, i)),
    decreases s.len() - i, 5nat,
{
    match crate::syntax::ws_tag(s, i, "else".spec_bytes()) {
        Some(r) => {
            law_if_block_moves(s, r);
            law_program_stays(s, r);
        },
        None => {},
    }
}

/// A conditional without its closing `end` takes up at least one byte of
/// the text.
pub proof fn law_if_block_moves(s: Seq<u8>, i: int)
    requires
        0 <= i <= s.len(),
    ensures
        moves(s, i, if_block(s, i)),
    decreases s.len() - i, 6nat,
{
    match crate::syntax::ws_tag(s, i, "if".spec_bytes()) {
        Some(p) => {
            law_expr_moves(s, p);
            match value(s, p) {
                Some((cond, j)) => match crate::syntax::ws_tag(s, j, "do".spec_bytes()) {
                    Some(q) => {
                        law_program_stays(s, q);
                        law_else_stays(s, onward(s, q, program(s, q)).1);
                    },
                    None => {},
                },
                None => {},
            }
        },
        None => {},
    }
}

/// A block that is closed by `end` takes up at least one byte of the text.
pub proof fn law_block_moves(s: Seq<u8>, i: int)
    requires
        0 <= i <= s.len(),
    ensures
        moves(s, i, block(s, i)),
    decreases s.len() - i, 10nat,
{
    law_program_stays(s, i);
}

/// A `for` loop takes up at least one byte of the text.
pub proof fn law_for_moves(s: Seq<u8>, i: int)
    requires
        0 <= i <= s.len(),
    ensures
        moves(s, i, for_loop(s, i)),
    decreases s.len() - i, 7nat,
{
    match crate::syntax::ws_tag(s, i, "for".spec_bytes()) {
        Some(p) => match crate::syntax::ident(s, p) {
            Some((name, j)) => {
                law_bounds_move(s, j);
                match crate::syntax::bounds(s, j) {
                    Some((exprs, k)) => match crate::syntax::ws_tag(s, k, "do".spec_bytes()) {
                        Some(q) => {
                            law_block_moves(s, q);
                        },
                        None => {},
                    },
                    None => {},
                }
            },
            None => {},
        },
        None => {},
    }
}

/// A `while` loop takes up at least one byte of the text.
pub proof fn law_while_moves(s: Seq<u8>, i: int)
    requires
        0 <= i <= s.len(),
    ensures
        moves(s, i, while_loop(s, i)),
    decreases s.len() - i, 7nat,
{
    match crate::syntax::ws_tag(s, i, "while".spec_bytes()) {
        Some(p) => {
            law_expr_moves(s, p);
            match value(s, p) {
                Some((cond, j)) => match crate::syntax::ws_tag(s, j, "do".spec_bytes()) {
                    Some(q) => {
                        law_block_moves(s, q);
                    },
                    None => {},
                },
                None => {},
            }
        },
        None => {},
    }
}

/// A function definition takes up at least one byte of the text.
pub proof fn law_definition_moves(s: Seq<u8>, i: int)
    requires
        0 <= i <= s.len(),
    ensures
        moves(s, i, function_def(s, i)),
    decreases s.len() - i, 7nat,
{
    law_head_moves(s, i);
    match crate::syntax::definition_head(s, i) {
        Some((name, args, j)) => {
            match crate::syntax::ws_tag(s, j, "=".spec_bytes()) {
                Some(p) => {
                    law_expr_moves(s, p);
                },
                None => {},
            }
            match crate::syntax::ws_tag(s, j, "do".spec_bytes()) {
                Some(q) => {
                    law_block_moves(s, q);
                },
                None => {},
            }
        },
        None => {},
    }
}

/// An assignment, a declaration and an expression statement take up at
/// least one byte of the text.
pub proof fn law_simple_moves(s: Seq<u8>, i: int)
    requires
        0 <= i <= s.len(),
    ensures
        moves(s, i, crate::syntax::assignment(s, i)),
        moves(s, i, crate::syntax::declaration(s, i)),
        moves(s, i, crate::syntax::stmt_expr(s, i)),
{
    law_expr_moves(s, i);
    match crate::syntax::ident(s, i) {
        Some((name, j)) => match crate::syntax::ws_tag(s, j, "=".spec_bytes()) {
            Some(p) => {
                law_expr_moves(s, p);
            },
            None => {},
        },
        None => {},
    }
    match crate::syntax::ws_tag(s, i, "local".spec_bytes()) {
        Some(p) => match crate::syntax::ident(s, p) {
            Some((name, j)) => match crate::syntax::ws_tag(s, j, "=".spec_bytes()) {
                Some(q) => {
                    law_expr_moves(s, q);
                },
                None => {},
            },
            None => {},
        },
        None => {},
    }
}

/// A conditional takes up at least one byte of the text.
pub proof fn law_if_moves(s: Seq<u8>, i: int)
    requires
        0 <= i <= s.len(),
    ensures
        moves(s, i, if_stmt(s, i)),
    decreases s.len() - i, 7nat,
{
    law_if_block_moves(s, i);
}

/// A statement of any kind takes up at least one byte of the text.
pub proof fn law_stmt_moves(s: Seq<u8>, i: int)
    requires
        0 <= i <= s.len(),
    ensures
        moves(s, i, stmt(s, i)),
        forward(s, i, stmt(s, i)) == stmt(s, i),
    decreases s.len() - i, 8nat,
{
    law_for_moves(s, i);
    law_while_moves(s, i);
    law_if_moves(s, i);
    law_definition_moves(s, i);
    law_simple_moves(s, i);
}

/// The statements from a position on lie within the text.
pub proof fn law_program_stays(s: Seq<u8>, i: int)
    requires
        0 <= i <= s.len(),
    ensures
        stays(s, i, program(s, i)),
        onward(s, i, program(s, i)) == program(s, i),
    decreases s.len() - i, 9nat,
{
    law_stmt_moves(s, i);
    match forward(s, i, stmt(s, i)) {
        Some((first, j)) => {
            if j > i {
                law_program_stays(s, j);
            }
        },
        None => {},
    }
}

/// The bounds of a `for` loop take up at least one byte of the text.
pub proof fn law_bounds_move(s: Seq<u8>, i: int)
    requires
        0 <= i <= s.len(),
    ensures
        moves(s, i, crate::syntax::bounds(s, i)),
{
    match crate::syntax::ws_tag(s, i, ",".spec_bytes()) {
        Some(k) => {
            law_expr_moves(s, k);
            match value(s, k) {
                Some((first, j1)) => match crate::syntax::ws_tag(s, j1, ",".spec_bytes()) {
                    Some(k2) => {
                        law_expr_moves(s, k2);
                        match value(s, k2) {
                            Some((second, j2)) => match crate::syntax::ws_tag(
                                s,
                                j2,
                                ",".spec_bytes(),
                            ) {
                                Some(k3) => {
                                    law_expr_moves(s, k3);
                                },
                                None => {},
                            },
                            None => {},
                        }
                    },
                    None => {},
                },
                None => {},
            }
        },
        None => {},
    }
}

/// The parameters behind the first, as far as they are read, lie within
/// the text.
pub proof fn law_more_params_stay(s: Seq<u8>, i: int, found: Seq<Seq<char>>)
    requires
        0 <= i <= s.len(),
    ensures
        stays(s, i, crate::syntax::more_params(s, i, found)),
    decreases s.len() - i,
{
    match crate::syntax::ws_tag(s, i, ",".spec_bytes()) {
        Some(k) => match crate::syntax::ident(s, k) {
            Some((name, j)) => {
                if j > i {
                    law_more_params_stay(s, j, found.push(name));
                }
            },
            None => {},
        },
        None => {},
    }
}

/// The head of a function definition takes up at least one byte of the
/// text.
pub proof fn law_head_moves(s: Seq<u8>, i: int)
    requires
        0 <= i <= s.len(),
    ensures
        crate::syntax::definition_head(s, i) matches Some((name, args, j)) ==> i < j <= s.len(),
{
    match crate::syntax::ident(s, i) {
        Some((name, j)) => match crate::syntax::ws_tag(s, j, "(".spec_bytes()) {
            Some(p) => {
                match crate::syntax::ident(s, p) {
                    Some((first, j2)) => {
                        law_more_params_stay(s, j2, seq![first]);
                    },
                    None => {},
                }
            },
            None => {},
        },
        None => {},
    }
}

} // verus!
