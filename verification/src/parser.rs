//! The parser: from the bytes of a source text to a program.

use crate::grammar::{is_expression, lemma_chain, lemma_group, lemma_single};
use crate::shunting_yard::shunting_yard;
use crate::syntax::{
    arguments, assignment, block, bound, bounds, declaration, definition_head, else_branch, expr,
    for_loop, function_def, group, ident, if_block, if_stmt, in_class,
    is_keyword, more_arguments, more_params, more_terms,
    number_end, operator, params, run, run_end, skip, stmt, stmt_expr, tag, term, text,
    unary, value, while_loop, ws_tag, Class,
};
use crate::codegen::{body_valid, stmt_valid};
use crate::types::{
    lemma_call_token_view, lemma_definition_view, lemma_for_view, lemma_if_view,
    lemma_while_view, Expr, ExprToken, Program, Stmt, StmtView, TokenView,
};
use crate::utils::push_char;
use vstd::prelude::*;
use vstd::string::*;

verus! {

/// Whether a byte belongs to a class.
fn byte_in_class(c: Class, b: u8) -> (yes: bool)
    ensures
        yes == in_class(c, b),
{
    match c {
        Class::Blank => b == 0x20 || b == 0x09 || b == 0x0a || b == 0x0d,
        Class::Digit => 0x30 <= b && b <= 0x39,
        Class::Word => (0x41 <= b && b <= 0x5a) || (0x61 <= b && b <= 0x7a) || (0x30 <= b && b
            <= 0x39) || b == 0x5f,
    }
}

/// A run that ends where a byte is not of the class.
proof fn lemma_run_ends(s: Seq<u8>, i: int, j: int, c: Class)
    requires
        0 <= i <= j <= s.len(),
        forall|k: int| i <= k < j ==> in_class(c, #[trigger] s[k]),
        j == s.len() || !in_class(c, s[j]),
    ensures
        run(s, i, c) == j - i,
        run_end(s, i, c) == j,
    decreases j - i,
{
    if i < j {
        lemma_run_ends(s, i + 1, j, c);
    }
}

/// The position behind the longest run of bytes of a class.
fn scan(input: &[u8], pos: usize, c: Class) -> (end: usize)
    requires
        pos <= input.len(),
    ensures
        end == run_end(input@, pos as int, c),
        pos <= end <= input.len(),
{
    let mut j = pos;
    while j < input.len() && byte_in_class(c, input[j])
        invariant
            pos <= j <= input.len(),
            forall|k: int| pos <= k < j ==> in_class(c, #[trigger] input@[k]),
        decreases input.len() - j,
    {
        j += 1;
    }
    proof {
        lemma_run_ends(input@, pos as int, j as int, c);
    }
    j
}

/// The position behind the blanks.
pub fn skip_blanks(input: &[u8], pos: usize) -> (end: usize)
    requires
        pos <= input.len(),
    ensures
        end == skip(input@, pos as int),
        pos <= end <= input.len(),
{
    scan(input, pos, Class::Blank)
}

/// A position found or not, as the grammar counts it.
pub open spec fn at(found: Option<usize>) -> Option<int> {
    match found {
        Some(j) => Some(j as int),
        None => None,
    }
}

/// Whether the bytes from `from` up to `to` are the bytes of `word`.
fn same_bytes(input: &[u8], from: usize, to: usize, word: &str) -> (same: bool)
    requires
        from <= to <= input.len(),
    ensures
        same == (input@.subrange(from as int, to as int) == word.spec_bytes()),
{
    let w = word.as_bytes();
    if w.len() != to - from {
        return false;
    }
    let mut k: usize = 0;
    while k < w.len()
        invariant
            from <= to <= input.len(),
            w@ == word.spec_bytes(),
            w.len() == to - from,
            k <= w.len(),
            forall|m: int| 0 <= m < k ==> input@[from + m] == #[trigger] w@[m],
        decreases w.len() - k,
    {
        if input[from + k] != w[k] {
            assert(input@.subrange(from as int, to as int)[k as int] != w@[k as int]);
            return false;
        }
        k += 1;
    }
    assert(input@.subrange(from as int, to as int) =~= w@);
    true
}

/// The position behind `word` where it stands at `pos`.
pub fn match_tag(input: &[u8], pos: usize, word: &str) -> (found: Option<usize>)
    requires
        pos <= input.len(),
    ensures
        at(found) == tag(input@, pos as int, word.spec_bytes()),
        found matches Some(j) ==> pos < j <= input.len(),
{
    let n = word.as_bytes().len();
    if n == 0 || n > input.len() - pos {
        return None;
    }
    if same_bytes(input, pos, pos + n, word) {
        Some(pos + n)
    } else {
        None
    }
}

/// The position behind `word` and the blanks on either side of it.
pub fn match_ws_tag(input: &[u8], pos: usize, word: &str) -> (found: Option<usize>)
    requires
        pos <= input.len(),
    ensures
        at(found) == ws_tag(input@, pos as int, word.spec_bytes()),
        found matches Some(j) ==> pos < j <= input.len(),
{
    let start = skip_blanks(input, pos);
    match match_tag(input, start, word) {
        Some(j) => Some(skip_blanks(input, j)),
        None => None,
    }
}

/// The text of the bytes from `from` up to `to`.
fn text_string(input: &[u8], from: usize, to: usize) -> (out: String)
    requires
        from <= to <= input.len(),
    ensures
        out@ == text(input@.subrange(from as int, to as int)),
{
    let ghost bytes = input@.subrange(from as int, to as int);
    let mut out = String::new();
    let mut k = from;
    while k < to
        invariant
            from <= k <= to <= input.len(),
            bytes == input@.subrange(from as int, to as int),
            out@ == text(bytes.subrange(0, k - from)),
        decreases to - k,
    {
        let ghost before = out@;
        push_char(&mut out, input[k] as char);
        assert(out@ =~= text(bytes.subrange(0, k + 1 - from))) by {
            assert(bytes[k - from] == input@[k as int]);
        }
        k += 1;
    }
    assert(bytes.subrange(0, to - from) =~= bytes);
    out
}

/// Whether the bytes from `from` up to `to` are a keyword.
fn is_keyword_at(input: &[u8], from: usize, to: usize) -> (yes: bool)
    requires
        from <= to <= input.len(),
    ensures
        yes == is_keyword(input@, from as int, to as int),
{
    same_bytes(input, from, to, "do") || same_bytes(input, from, to, "end") || same_bytes(
        input,
        from,
        to,
        "for",
    ) || same_bytes(input, from, to, "while") || same_bytes(input, from, to, "if")
        || same_bytes(input, from, to, "else") || same_bytes(input, from, to, "local")
}

/// The identifier at `pos` and the position behind it.
pub fn parse_ident(input: &[u8], pos: usize) -> (found: Option<(String, usize)>)
    requires
        pos <= input.len(),
    ensures
        match found {
            Some((name, j)) => ident(input@, pos as int) == Some((name@, j as int)) && pos < j
                <= input.len(),
            None => ident(input@, pos as int) is None,
        },
{
    if pos >= input.len() {
        return None;
    }
    let first = input[pos];
    if !((0x41 <= first && first <= 0x5a) || (0x61 <= first && first <= 0x7a) || first == 0x5f) {
        return None;
    }
    let end = scan(input, pos + 1, Class::Word);
    if is_keyword_at(input, pos, end) {
        return None;
    }
    Some((text_string(input, pos, end), end))
}

/// The position behind the number at `pos`.
pub fn parse_number_end(input: &[u8], pos: usize) -> (found: Option<usize>)
    requires
        pos <= input.len(),
    ensures
        at(found) == number_end(input@, pos as int),
        found matches Some(j) ==> pos < j <= input.len(),
{
    let d = scan(input, pos, Class::Digit);
    if d < input.len() && input[d] == 0x2e {
        let e = scan(input, d + 1, Class::Digit);
        if e > d + 1 {
            return Some(e);
        }
    }
    if d > pos {
        Some(d)
    } else {
        None
    }
}

/// The operator at `pos`, as a token, and the position behind it.
pub fn parse_operator(input: &[u8], pos: usize) -> (found: Option<(ExprToken, usize)>)
    requires
        pos <= input.len(),
    ensures
        match found {
            Some((token, j)) => {
                &&& operator(input@, pos as int) matches Some((op, k))
                &&& token.deep_view() == TokenView::Op(op)
                &&& k == j
                &&& pos < j <= input.len()
            },
            None => operator(input@, pos as int) is None,
        },
{
    if let Some(j) = match_tag(input, pos, "+") {
        Some((ExprToken::Add, j))
    } else if let Some(j) = match_tag(input, pos, "-") {
        Some((ExprToken::Sub, j))
    } else if let Some(j) = match_tag(input, pos, "*") {
        Some((ExprToken::Mul, j))
    } else if let Some(j) = match_tag(input, pos, "/") {
        Some((ExprToken::Div, j))
    } else if let Some(j) = match_tag(input, pos, "^") {
        Some((ExprToken::Pow, j))
    } else if let Some(j) = match_tag(input, pos, "%") {
        Some((ExprToken::Mod, j))
    } else if let Some(j) = match_tag(input, pos, "<=") {
        Some((ExprToken::Leq, j))
    } else if let Some(j) = match_tag(input, pos, ">=") {
        Some((ExprToken::Geq, j))
    } else if let Some(j) = match_tag(input, pos, "<") {
        Some((ExprToken::Lt, j))
    } else if let Some(j) = match_tag(input, pos, ">") {
        Some((ExprToken::Gt, j))
    } else if let Some(j) = match_tag(input, pos, "==") {
        Some((ExprToken::Eq, j))
    } else if let Some(j) = match_tag(input, pos, "!=") {
        Some((ExprToken::Neq, j))
    } else {
        None
    }
}

/// The parameter list at `pos` and the position behind it.
pub fn parse_params(input: &[u8], pos: usize) -> (found: (Vec<String>, usize))
    requires
        pos <= input.len(),
    ensures
        params(input@, pos as int) == (found.0.deep_view(), found.1 as int),
        pos <= found.1 <= input.len(),
{
    let mut names: Vec<String> = Vec::new();
    let mut at_pos = pos;
    match parse_ident(input, pos) {
        Some((name, j)) => {
            names.push(name);
            at_pos = j;
        },
        None => {
            assert(names.deep_view() =~= Seq::<Seq<char>>::empty());
            return (names, pos);
        },
    }
    assert(names.deep_view() =~= seq![names[0]@]);
    loop
        invariant
            pos <= at_pos <= input.len(),
            params(input@, pos as int) == more_params(input@, at_pos as int, names.deep_view()),
        ensures
            pos <= at_pos <= input.len(),
            params(input@, pos as int) == (names.deep_view(), at_pos as int),
        decreases input.len() - at_pos,
    {
        let comma = match match_ws_tag(input, at_pos, ",") {
            Some(k) => k,
            None => {
                break ;
            },
        };
        match parse_ident(input, comma) {
            Some((name, j)) => {
                let ghost before = names.deep_view();
                names.push(name);
                assert(names.deep_view() =~= before.push(name@));
                at_pos = j;
            },
            None => {
                break ;
            },
        }
    }
    (names, at_pos)
}

/// An operand at `pos`, as a token, and the position behind it.
pub fn parse_unary(input: &[u8], pos: usize) -> (found: Option<(ExprToken, usize)>)
    requires
        pos <= input.len(),
    ensures
        match found {
            Some((token, j)) => {
                &&& unary(input@, pos as int) == Some((token.deep_view(), j as int))
                &&& pos < j <= input.len()
                &&& is_expression(seq![token.deep_view()])
            },
            None => unary(input@, pos as int) is None,
        },
    decreases input.len() - pos, 0nat,
{
    if let Some(j) = parse_number_end(input, pos) {
        let token = ExprToken::Number(text_string(input, pos, j));
        proof {
            lemma_single(seq![token.deep_view()]);
        }
        return Some((token, j));
    }
    let (name, j) = match parse_ident(input, pos) {
        Some(found) => found,
        None => {
            return None;
        },
    };
    let open = match match_ws_tag(input, j, "(") {
        Some(p) => p,
        None => {
            let token = ExprToken::Ident(name);
            proof {
                lemma_single(seq![token.deep_view()]);
            }
            return Some((token, j));
        },
    };
    let (args, q) = parse_arguments(input, open);
    match match_ws_tag(input, q, ")") {
        Some(k) => {
            let token = ExprToken::Call { name, args };
            proof {
                lemma_call_token_view(name, args);
                let t = token.deep_view();
                assert forall|a: int| 0 <= a < t->args.len() implies is_expression(
                    #[trigger] t->args[a],
                ) by {
                    assert(t->args[a] == args[a].deep_view());
                }
                lemma_single(seq![t]);
            }
            Some((token, k))
        },
        None => {
            let token = ExprToken::Ident(name);
            proof {
                lemma_single(seq![token.deep_view()]);
            }
            Some((token, j))
        },
    }
}

/// The arguments of a call at `pos` and the position behind them.
pub fn parse_arguments(input: &[u8], pos: usize) -> (found: (Vec<Vec<ExprToken>>, usize))
    requires
        pos <= input.len(),
    ensures
        arguments(input@, pos as int) == (found.0.deep_view(), found.1 as int),
        pos <= found.1 <= input.len(),
        forall|a: int| 0 <= a < found.0.len() ==> is_expression(#[trigger] found.0[a].deep_view()),
    decreases input.len() - pos, 5nat,
{
    let mut args: Vec<Vec<ExprToken>> = Vec::new();
    let mut at_pos = pos;
    match parse_expr(input, pos) {
        Some((first, j)) => {
            args.push(first);
            at_pos = j;
        },
        None => {
            assert(args.deep_view() =~= Seq::<Seq<TokenView>>::empty());
            return (args, pos);
        },
    }
    assert(args.deep_view() =~= seq![args[0].deep_view()]);
    loop
        invariant
            pos <= at_pos <= input.len(),
            arguments(input@, pos as int) == more_arguments(
                input@,
                at_pos as int,
                args.deep_view(),
            ),
            forall|a: int| 0 <= a < args.len() ==> is_expression(#[trigger] args[a].deep_view()),
        ensures
            pos <= at_pos <= input.len(),
            arguments(input@, pos as int) == (args.deep_view(), at_pos as int),
            forall|a: int| 0 <= a < args.len() ==> is_expression(#[trigger] args[a].deep_view()),
        decreases input.len() - at_pos,
    {
        let comma = match match_ws_tag(input, at_pos, ",") {
            Some(k) => k,
            None => {
                break ;
            },
        };
        match parse_expr(input, comma) {
            Some((next, j)) => {
                let ghost before = args.deep_view();
                let ghost added = next.deep_view();
                args.push(next);
                assert(args.deep_view() =~= before.push(added));
                at_pos = j;
            },
            None => {
                break ;
            },
        }
    }
    (args, at_pos)
}

/// An expression in parentheses at `pos`, its tokens between two
/// parenthesis tokens, and the position behind it.
pub fn parse_group(input: &[u8], pos: usize) -> (found: Option<(Vec<ExprToken>, usize)>)
    requires
        pos <= input.len(),
    ensures
        match found {
            Some((tokens, j)) => {
                &&& group(input@, pos as int) == Some((tokens.deep_view(), j as int))
                &&& pos < j <= input.len()
                &&& is_expression(tokens.deep_view())
            },
            None => group(input@, pos as int) is None,
        },
    decreases input.len() - pos, 0nat,
{
    let open = match match_ws_tag(input, pos, "(") {
        Some(p) => p,
        None => {
            return None;
        },
    };
    let (mut tokens, j) = match parse_expr(input, open) {
        Some(found) => found,
        None => {
            return None;
        },
    };
    let close = match match_ws_tag(input, j, ")") {
        Some(k) => k,
        None => {
            return None;
        },
    };
    let ghost inner = tokens.deep_view();
    tokens.insert(0, ExprToken::LParen);
    tokens.push(ExprToken::RParen);
    proof {
        let z = tokens.deep_view();
        assert(z =~= seq![TokenView::LParen] + inner + seq![TokenView::RParen]);
        assert(z.subrange(1, z.len() - 1) =~= inner);
        lemma_group(z);
    }
    Some((tokens, close))
}

/// A term at `pos` and the position behind it.
pub fn parse_term(input: &[u8], pos: usize) -> (found: Option<(Vec<ExprToken>, usize)>)
    requires
        pos <= input.len(),
    ensures
        match found {
            Some((tokens, j)) => {
                &&& term(input@, pos as int) == Some((tokens.deep_view(), j as int))
                &&& pos < j <= input.len()
                &&& is_expression(tokens.deep_view())
            },
            None => term(input@, pos as int) is None,
        },
    decreases input.len() - pos, 1nat,
{
    if let Some(found) = parse_group(input, pos) {
        return Some(found);
    }
    match parse_unary(input, pos) {
        Some((token, j)) => {
            let mut tokens: Vec<ExprToken> = Vec::new();
            let ghost t = token.deep_view();
            tokens.push(token);
            assert(tokens.deep_view() =~= seq![t]);
            Some((tokens, j))
        },
        None => None,
    }
}

/// The flat form of the expression at `pos` and the position behind it.
pub fn parse_expr(input: &[u8], pos: usize) -> (found: Option<(Vec<ExprToken>, usize)>)
    requires
        pos <= input.len(),
    ensures
        match found {
            Some((tokens, j)) => {
                &&& expr(input@, pos as int) == Some((tokens.deep_view(), j as int))
                &&& pos < j <= input.len()
                &&& is_expression(tokens.deep_view())
            },
            None => expr(input@, pos as int) is None,
        },
    decreases input.len() - pos, 3nat,
{
    let start = skip_blanks(input, pos);
    let (mut tokens, j) = match parse_term(input, start) {
        Some(found) => found,
        None => {
            return None;
        },
    };
    let mut at_pos = skip_blanks(input, j);
    loop
        invariant
            pos < at_pos <= input.len(),
            expr(input@, pos as int) == Some(
                more_terms(input@, at_pos as int, tokens.deep_view()),
            ),
            is_expression(tokens.deep_view()),
        ensures
            pos < at_pos <= input.len(),
            expr(input@, pos as int) == Some((tokens.deep_view(), at_pos as int)),
            is_expression(tokens.deep_view()),
        decreases input.len() - at_pos,
    {
        let (op, k) = match parse_operator(input, skip_blanks(input, at_pos)) {
            Some(found) => found,
            None => {
                break ;
            },
        };
        let (mut next, j) = match parse_term(input, skip_blanks(input, k)) {
            Some(found) => found,
            None => {
                break ;
            },
        };
        let ghost before = tokens.deep_view();
        let ghost middle = op.deep_view();
        let ghost after = next.deep_view();
        tokens.push(op);
        tokens.append(&mut next);
        proof {
            let z = tokens.deep_view();
            assert(z =~= before.push(middle) + after);
            assert(z.subrange(0, before.len() as int) =~= before);
            assert(z.subrange(before.len() as int + 1, z.len() as int) =~= after);
            lemma_chain(z, before.len() as int);
        }
        at_pos = skip_blanks(input, j);
    }
    Some((tokens, at_pos))
}

/// The tree of the expression at `pos` and the position behind it.
pub fn parse_value(input: &[u8], pos: usize) -> (found: Option<(Box<Expr>, usize)>)
    requires
        pos <= input.len(),
    ensures
        match found {
            Some((tree, j)) => value(input@, pos as int) == Some((tree.deep_view(), j as int))
                && pos < j <= input.len(),
            None => value(input@, pos as int) is None,
        },
{
    match parse_expr(input, pos) {
        Some((mut tokens, j)) => {
            let tree = shunting_yard(&mut tokens);
            Some((tree, j))
        },
        None => None,
    }
}

/// A bound of a `for` loop at `pos` and the position behind it.
pub fn parse_bound(input: &[u8], pos: usize) -> (found: Option<(Box<Expr>, usize)>)
    requires
        pos <= input.len(),
    ensures
        match found {
            Some((tree, j)) => bound(input@, pos as int) == Some((tree.deep_view(), j as int))
                && pos < j <= input.len(),
            None => bound(input@, pos as int) is None,
        },
{
    match match_ws_tag(input, pos, ",") {
        Some(k) => parse_value(input, k),
        None => None,
    }
}

/// The bounds of a `for` loop at `pos`, one, two or three, and the position
/// behind them.
pub fn parse_bounds(input: &[u8], pos: usize) -> (found: Option<(Vec<Box<Expr>>, usize)>)
    requires
        pos <= input.len(),
    ensures
        match found {
            Some((trees, j)) => {
                &&& bounds(input@, pos as int) == Some((trees.deep_view(), j as int))
                &&& pos < j <= input.len()
                &&& 1 <= trees.len() <= 3
            },
            None => bounds(input@, pos as int) is None,
        },
{
    let mut trees: Vec<Box<Expr>> = Vec::new();
    let (first, j1) = match parse_bound(input, pos) {
        Some(found) => found,
        None => {
            return None;
        },
    };
    let ghost v1 = first.deep_view();
    trees.push(first);
    let (second, j2) = match parse_bound(input, j1) {
        Some(found) => found,
        None => {
            assert(trees.deep_view() =~= seq![v1]);
            return Some((trees, j1));
        },
    };
    let ghost v2 = second.deep_view();
    trees.push(second);
    let (third, j3) = match parse_bound(input, j2) {
        Some(found) => found,
        None => {
            assert(trees.deep_view() =~= seq![v1, v2]);
            return Some((trees, j2));
        },
    };
    let ghost v3 = third.deep_view();
    trees.push(third);
    assert(trees.deep_view() =~= seq![v1, v2, v3]);
    Some((trees, j3))
}

/// What a rule for statements finds, as the grammar counts it: the same
/// statement and position, behind where it began, and a statement that can
/// be generated.
pub open spec fn found_stmt(
    found: Option<(Stmt, usize)>,
    expected: Option<(StmtView, int)>,
    pos: usize,
    len: usize,
) -> bool {
    match found {
        Some((st, j)) => {
            &&& expected == Some((st.deep_view(), j as int))
            &&& pos < j <= len
            &&& stmt_valid(st.deep_view())
        },
        None => expected is None,
    }
}

/// An assignment at `pos`.
pub fn parse_assignment(input: &[u8], pos: usize) -> (found: Option<(Stmt, usize)>)
    requires
        pos <= input.len(),
    ensures
        found_stmt(found, assignment(input@, pos as int), pos, input.len()),
{
    let (name, j) = match parse_ident(input, pos) {
        Some(found) => found,
        None => {
            return None;
        },
    };
    let p = match match_ws_tag(input, j, "=") {
        Some(p) => p,
        None => {
            return None;
        },
    };
    match parse_value(input, p) {
        Some((value, k)) => Some((Stmt::Assignment { name, value }, k)),
        None => None,
    }
}

/// A declaration at `pos`.
pub fn parse_declaration(input: &[u8], pos: usize) -> (found: Option<(Stmt, usize)>)
    requires
        pos <= input.len(),
    ensures
        found_stmt(found, declaration(input@, pos as int), pos, input.len()),
{
    let p = match match_ws_tag(input, pos, "local") {
        Some(p) => p,
        None => {
            return None;
        },
    };
    let (name, j) = match parse_ident(input, p) {
        Some(found) => found,
        None => {
            return None;
        },
    };
    let given = match match_ws_tag(input, j, "=") {
        Some(q) => parse_value(input, q),
        None => None,
    };
    match given {
        Some((value, k)) => Some((Stmt::Declaration { name, value }, k)),
        None => {
            let value = Box::new(Expr::Number(String::from_str("0")));
            Some((Stmt::Declaration { name, value }, j))
        },
    }
}

/// An expression statement at `pos`.
pub fn parse_stmt_expr(input: &[u8], pos: usize) -> (found: Option<(Stmt, usize)>)
    requires
        pos <= input.len(),
    ensures
        found_stmt(found, stmt_expr(input@, pos as int), pos, input.len()),
{
    match parse_value(input, pos) {
        Some((value, j)) => Some((Stmt::Expression(value), j)),
        None => None,
    }
}

/// The head of a function definition at `pos`: its name, its parameters and
/// the position behind the closing parenthesis.
pub fn parse_definition_head(input: &[u8], pos: usize) -> (found: Option<(String, Vec<String>, usize)>)
    requires
        pos <= input.len(),
    ensures
        match found {
            Some((name, args, j)) => definition_head(input@, pos as int) == Some(
                (name@, args.deep_view(), j as int),
            ) && pos < j <= input.len(),
            None => definition_head(input@, pos as int) is None,
        },
{
    let (name, j) = match parse_ident(input, pos) {
        Some(found) => found,
        None => {
            return None;
        },
    };
    let p = match match_ws_tag(input, j, "(") {
        Some(p) => p,
        None => {
            return None;
        },
    };
    let (args, q) = parse_params(input, p);
    match match_ws_tag(input, q, ")") {
        Some(k) => Some((name, args, k)),
        None => None,
    }
}

/// A block at `pos` that is closed by `end`.
pub fn parse_block(input: &[u8], pos: usize) -> (found: Option<(Program, usize)>)
    requires
        pos <= input.len(),
    ensures
        match found {
            Some((body, j)) => {
                &&& block(input@, pos as int) == Some((body.deep_view(), j as int))
                &&& pos < j <= input.len()
                &&& body_valid(body.deep_view())
            },
            None => block(input@, pos as int) is None,
        },
    decreases input.len() - pos, 10nat,
{
    let (body, j) = parse_program(input, pos);
    match match_ws_tag(input, j, "end") {
        Some(k) => Some((body, k)),
        None => None,
    }
}

/// A `for` loop at `pos`.
pub fn parse_for(input: &[u8], pos: usize) -> (found: Option<(Stmt, usize)>)
    requires
        pos <= input.len(),
    ensures
        found_stmt(found, for_loop(input@, pos as int), pos, input.len()),
    decreases input.len() - pos, 7nat,
{
    let p = match match_ws_tag(input, pos, "for") {
        Some(p) => p,
        None => {
            return None;
        },
    };
    let (ident, j) = match parse_ident(input, p) {
        Some(found) => found,
        None => {
            return None;
        },
    };
    let (exprs, k) = match parse_bounds(input, j) {
        Some(found) => found,
        None => {
            return None;
        },
    };
    let q = match match_ws_tag(input, k, "do") {
        Some(q) => q,
        None => {
            return None;
        },
    };
    match parse_block(input, q) {
        Some((body, r)) => {
            proof {
                lemma_for_view(body, ident, exprs);
                let v = (Stmt::For { body, ident, exprs }).deep_view();
                assert(v->For_body == body.deep_view());
                assert(v->exprs.len() == exprs.len());
                assert(stmt_valid(v));
            }
            Some((Stmt::For { body, ident, exprs }, r))
        },
        None => None,
    }
}

/// A `while` loop at `pos`.
pub fn parse_while(input: &[u8], pos: usize) -> (found: Option<(Stmt, usize)>)
    requires
        pos <= input.len(),
    ensures
        found_stmt(found, while_loop(input@, pos as int), pos, input.len()),
    decreases input.len() - pos, 7nat,
{
    let p = match match_ws_tag(input, pos, "while") {
        Some(p) => p,
        None => {
            return None;
        },
    };
    let (expr, j) = match parse_value(input, p) {
        Some(found) => found,
        None => {
            return None;
        },
    };
    let q = match match_ws_tag(input, j, "do") {
        Some(q) => q,
        None => {
            return None;
        },
    };
    match parse_block(input, q) {
        Some((body, r)) => {
            proof {
                lemma_while_view(body, expr);
                let v = (Stmt::While { body, expr }).deep_view();
                assert(v->While_body == body.deep_view());
                assert(stmt_valid(v));
            }
            Some((Stmt::While { body, expr }, r))
        },
        None => None,
    }
}

/// What follows the block of a conditional at `pos`.
pub fn parse_else(input: &[u8], pos: usize) -> (found: (Option<Program>, usize))
    requires
        pos <= input.len(),
    ensures
        else_branch(input@, pos as int) == (
            match found.0 {
                Some(other) => Some(other.deep_view()),
                None => None,
            },
            found.1 as int,
        ),
        pos <= found.1 <= input.len(),
        found.0 matches Some(other) ==> body_valid(other.deep_view()),
    decreases input.len() - pos, 5nat,
{
    let r = match match_ws_tag(input, pos, "else") {
        Some(r) => r,
        None => {
            return (None, pos);
        },
    };
    match parse_if_block(input, r) {
        Some((nested, k)) => {
            let ghost v = nested.deep_view();
            let mut other: Program = Vec::new();
            other.push(nested);
            assert(other.deep_view() =~= seq![v]);
            (Some(other), k)
        },
        None => {
            let (other, k) = parse_program(input, r);
            (Some(other), k)
        },
    }
}

/// A conditional without its closing `end` at `pos`.
pub fn parse_if_block(input: &[u8], pos: usize) -> (found: Option<(Stmt, usize)>)
    requires
        pos <= input.len(),
    ensures
        found_stmt(found, if_block(input@, pos as int), pos, input.len()),
    decreases input.len() - pos, 6nat,
{
    let p = match match_ws_tag(input, pos, "if") {
        Some(p) => p,
        None => {
            return None;
        },
    };
    let (cond, j) = match parse_value(input, p) {
        Some(found) => found,
        None => {
            return None;
        },
    };
    let q = match match_ws_tag(input, j, "do") {
        Some(q) => q,
        None => {
            return None;
        },
    };
    let (body, b) = parse_program(input, q);
    let (branch, k) = parse_else(input, b);
    proof {
        lemma_if_view(cond, body, branch);
        let v = (Stmt::IfStatement { cond, body, branch }).deep_view();
        assert(v->IfStatement_body == body.deep_view());
        if branch is Some {
            assert(v->branch == Some(branch->0.deep_view()));
        }
        assert(stmt_valid(v));
    }
    Some((Stmt::IfStatement { cond, body, branch }, k))
}

/// A conditional at `pos`.
pub fn parse_if(input: &[u8], pos: usize) -> (found: Option<(Stmt, usize)>)
    requires
        pos <= input.len(),
    ensures
        found_stmt(found, if_stmt(input@, pos as int), pos, input.len()),
    decreases input.len() - pos, 7nat,
{
    let (found, j) = match parse_if_block(input, pos) {
        Some(found) => found,
        None => {
            return None;
        },
    };
    match match_ws_tag(input, j, "end") {
        Some(k) => Some((found, k)),
        None => None,
    }
}

/// A function definition at `pos`.
pub fn parse_function_def(input: &[u8], pos: usize) -> (found: Option<(Stmt, usize)>)
    requires
        pos <= input.len(),
    ensures
        found_stmt(found, function_def(input@, pos as int), pos, input.len()),
    decreases input.len() - pos, 7nat,
{
    let (name, args, j) = match parse_definition_head(input, pos) {
        Some(found) => found,
        None => {
            return None;
        },
    };
    let short = match match_ws_tag(input, j, "=") {
        Some(p) => parse_stmt_expr(input, p),
        None => None,
    };
    match short {
        Some((only, k)) => {
            let ghost v = only.deep_view();
            let mut body: Program = Vec::new();
            body.push(only);
            proof {
                assert(body.deep_view() =~= seq![v]);
                lemma_definition_view(name, args, body);
                let d = (Stmt::FunctionDefinition { name, args, body }).deep_view();
                assert(d->FunctionDefinition_body == body.deep_view());
                assert(body_valid(body.deep_view()));
                assert(stmt_valid(d));
            }
            Some((Stmt::FunctionDefinition { name, args, body }, k))
        },
        None => {
            let q = match match_ws_tag(input, j, "do") {
                Some(q) => q,
                None => {
                    return None;
                },
            };
            match parse_block(input, q) {
                Some((body, r)) => {
                    proof {
                        lemma_definition_view(name, args, body);
                        let d = (Stmt::FunctionDefinition { name, args, body }).deep_view();
                        assert(d->FunctionDefinition_body == body.deep_view());
                        assert(stmt_valid(d));
                    }
                    Some((Stmt::FunctionDefinition { name, args, body }, r))
                },
                None => None,
            }
        },
    }
}

/// A statement at `pos`: the first kind that is found there.
pub fn parse_stmt(input: &[u8], pos: usize) -> (found: Option<(Stmt, usize)>)
    requires
        pos <= input.len(),
    ensures
        found_stmt(found, stmt(input@, pos as int), pos, input.len()),
    decreases input.len() - pos, 8nat,
{
    if let Some(found) = parse_for(input, pos) {
        return Some(found);
    }
    if let Some(found) = parse_while(input, pos) {
        return Some(found);
    }
    if let Some(found) = parse_if(input, pos) {
        return Some(found);
    }
    if let Some(found) = parse_function_def(input, pos) {
        return Some(found);
    }
    if let Some(found) = parse_assignment(input, pos) {
        return Some(found);
    }
    if let Some(found) = parse_declaration(input, pos) {
        return Some(found);
    }
    parse_stmt_expr(input, pos)
}

/// The statements from `pos` on and the position behind the last.
pub fn parse_program(input: &[u8], pos: usize) -> (found: (Program, usize))
    requires
        pos <= input.len(),
    ensures
        crate::syntax::program(input@, pos as int) == (found.0.deep_view(), found.1 as int),
        pos <= found.1 <= input.len(),
        body_valid(found.0.deep_view()),
    decreases input.len() - pos, 9nat,
{
    let mut statements: Program = Vec::new();
    let mut at_pos = pos;
    assert(statements.deep_view() =~= Seq::<StmtView>::empty());
    loop
        invariant
            pos <= at_pos <= input.len(),
            crate::syntax::program(input@, pos as int) == (
                statements.deep_view() + crate::syntax::program(input@, at_pos as int).0,
                crate::syntax::program(input@, at_pos as int).1,
            ),
            body_valid(statements.deep_view()),
        ensures
            pos <= at_pos <= input.len(),
            crate::syntax::program(input@, pos as int) == (statements.deep_view(), at_pos as int),
            body_valid(statements.deep_view()),
        decreases input.len() - at_pos,
    {
        match parse_stmt(input, at_pos) {
            Some((next, j)) => {
                let ghost before = statements.deep_view();
                let ghost added = next.deep_view();
                statements.push(next);
                proof {
                    let rest = crate::syntax::program(input@, j as int);
                    assert(statements.deep_view() =~= before.push(added));
                    assert(before + (seq![added] + rest.0) =~= before.push(added) + rest.0);
                }
                at_pos = j;
            },
            None => {
                assert(statements.deep_view() + Seq::<StmtView>::empty()
                    =~= statements.deep_view());
                break ;
            },
        }
    }
    (statements, at_pos)
}

/// Parses the statements at the beginning of a source text: as many as
/// follow one another from its first byte. Returns them with the number of
/// bytes they take up; what follows them is no statement.
pub fn program(input: &str) -> (found: (Program, usize))
    ensures
        crate::syntax::program(input.spec_bytes(), 0) == (found.0.deep_view(), found.1 as int),
        found.1 <= input.spec_bytes().len(),
        body_valid(found.0.deep_view()),
{
    parse_program(input.as_bytes(), 0)
}

/// Parses a source text into its statements and leaves aside what follows
/// the last of them.
pub fn parse(input: &str) -> (statements: Program)
    ensures
        statements.deep_view() == crate::syntax::program(input.spec_bytes(), 0).0,
        body_valid(statements.deep_view()),
{
    program(input).0
}

} // verus!
