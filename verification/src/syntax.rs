//! The grammar of the language over the bytes of a source text.
//!
//! Every rule reads the text from a position and gives what it found with
//! the position behind it, or nothing. Choices are tried in order and the
//! first that succeeds is taken; a repetition takes as many as it can. `ws`
//! around a word means that blanks on either side are skipped.
//!
//! ```text
//! program     := stmt*
//! stmt        := for | while | if | definition | assignment | declaration | expr
//! for         := ws"for" ident (ws"," expr){1,3} ws"do" program ws"end"
//! while       := ws"while" expr ws"do" program ws"end"
//! if          := if_block ws"end"
//! if_block    := ws"if" expr ws"do" program (ws"else" (if_block | program))?
//! definition  := ident ws"(" params ws")" (ws"=" expr | ws"do" program ws"end")
//! params      := (ident (ws"," ident)*)?
//! assignment  := ident ws"=" expr
//! declaration := ws"local" ident (ws"=" expr)?
//! expr        := blanks term blanks (ws operator term blanks)*
//! term        := ws"(" expr ws")" | number | ident ws"(" arguments ws")" | ident
//! arguments   := (expr (ws"," expr)*)?
//! number      := digit* "." digit+ | digit+
//! ident       := (letter | "_") (letter | digit | "_")*, but no keyword
//! ```

use crate::grammar::resolution;
use crate::types::{BinOp, ExprView, StmtView, TokenView};
use vstd::prelude::*;
use vstd::string::*;

verus! {

/// The classes of bytes that a run is made of.
#[derive(Clone, Copy, Debug, PartialEq, Eq, Structural)]
pub enum Class {
    /// Space, tab, line feed and carriage return.
    Blank,
    /// The decimal digits.
    Digit,
    /// Letters, digits and the underscore.
    Word,
}

/// The ASCII letters.
pub open spec fn is_letter(b: u8) -> bool {
    (0x41 <= b && b <= 0x5a) || (0x61 <= b && b <= 0x7a)
}

/// The decimal digits.
pub open spec fn is_digit(b: u8) -> bool {
    0x30 <= b && b <= 0x39
}

/// Whether a byte belongs to a class.
pub open spec fn in_class(c: Class, b: u8) -> bool {
    match c {
        Class::Blank => b == 0x20 || b == 0x09 || b == 0x0a || b == 0x0d,
        Class::Digit => is_digit(b),
        Class::Word => is_letter(b) || is_digit(b) || b == 0x5f,
    }
}

/// The length of the longest run of bytes of a class from position `i`.
pub open spec fn run(s: Seq<u8>, i: int, c: Class) -> nat
    decreases s.len() - i,
{
    if 0 <= i < s.len() && in_class(c, s[i]) {
        1 + run(s, i + 1, c)
    } else {
        0
    }
}

/// The position behind the longest run of bytes of a class from position
/// `i`; it never lies behind the end of the text.
pub open spec fn run_end(s: Seq<u8>, i: int, c: Class) -> int {
    if i <= s.len() && i + run(s, i, c) > s.len() {
        s.len() as int
    } else {
        i + run(s, i, c)
    }
}

/// The position behind the blanks at position `i`.
pub open spec fn skip(s: Seq<u8>, i: int) -> int {
    run_end(s, i, Class::Blank)
}

/// The position behind the word `w` where it stands at position `i`.
pub open spec fn tag(s: Seq<u8>, i: int, w: Seq<u8>) -> Option<int> {
    if 0 <= i && w.len() > 0 && i + w.len() <= s.len() && s.subrange(i, i + w.len()) == w {
        Some(i + w.len())
    } else {
        None
    }
}

/// The position behind the word `w` and the blanks on either side of it.
pub open spec fn ws_tag(s: Seq<u8>, i: int, w: Seq<u8>) -> Option<int> {
    match tag(s, skip(s, i), w) {
        Some(j) => Some(skip(s, j)),
        None => None,
    }
}

/// The text that ASCII bytes stand for.
pub open spec fn text(bytes: Seq<u8>) -> Seq<char> {
    Seq::new(bytes.len(), |k: int| bytes[k] as char)
}

/// Whether the bytes from `i` up to `j` are the word `w`.
pub open spec fn is_word(s: Seq<u8>, i: int, j: int, w: Seq<u8>) -> bool {
    0 <= i <= j <= s.len() && s.subrange(i, j) == w
}

/// Whether the bytes from `i` up to `j` are a word that the language keeps
/// for itself.
pub open spec fn is_keyword(s: Seq<u8>, i: int, j: int) -> bool {
    ||| is_word(s, i, j, "do".spec_bytes())
    ||| is_word(s, i, j, "end".spec_bytes())
    ||| is_word(s, i, j, "for".spec_bytes())
    ||| is_word(s, i, j, "while".spec_bytes())
    ||| is_word(s, i, j, "if".spec_bytes())
    ||| is_word(s, i, j, "else".spec_bytes())
    ||| is_word(s, i, j, "local".spec_bytes())
}

/// The position behind the identifier at position `i`: a letter or an
/// underscore, then letters, digits and underscores; a keyword is no
/// identifier.
pub open spec fn ident_end(s: Seq<u8>, i: int) -> Option<int> {
    if 0 <= i < s.len() && (is_letter(s[i]) || s[i] == 0x5f) {
        let j = run_end(s, i + 1, Class::Word);
        if is_keyword(s, i, j) {
            None
        } else {
            Some(j)
        }
    } else {
        None
    }
}

/// The identifier at position `i` and the position behind it.
pub open spec fn ident(s: Seq<u8>, i: int) -> Option<(Seq<char>, int)> {
    match ident_end(s, i) {
        Some(j) => Some((text(s.subrange(i, j)), j)),
        None => None,
    }
}

/// The position behind the number at position `i`: digits, a point and at
/// least one digit, or else at least one digit.
pub open spec fn number_end(s: Seq<u8>, i: int) -> Option<int> {
    let d = run_end(s, i, Class::Digit);
    if 0 <= i && d < s.len() && s[d] == 0x2e && run_end(s, d + 1, Class::Digit) > d + 1 {
        Some(run_end(s, d + 1, Class::Digit))
    } else if 0 <= i && d > i {
        Some(d)
    } else {
        None
    }
}

/// The operator at position `i` and the position behind it. An operator of
/// two characters is tried before its first character alone.
pub open spec fn operator(s: Seq<u8>, i: int) -> Option<(BinOp, int)> {
    if tag(s, i, "+".spec_bytes()) is Some {
        Some((BinOp::Add, tag(s, i, "+".spec_bytes())->0))
    } else if tag(s, i, "-".spec_bytes()) is Some {
        Some((BinOp::Sub, tag(s, i, "-".spec_bytes())->0))
    } else if tag(s, i, "*".spec_bytes()) is Some {
        Some((BinOp::Mul, tag(s, i, "*".spec_bytes())->0))
    } else if tag(s, i, "/".spec_bytes()) is Some {
        Some((BinOp::Div, tag(s, i, "/".spec_bytes())->0))
    } else if tag(s, i, "^".spec_bytes()) is Some {
        Some((BinOp::Pow, tag(s, i, "^".spec_bytes())->0))
    } else if tag(s, i, "%".spec_bytes()) is Some {
        Some((BinOp::Mod, tag(s, i, "%".spec_bytes())->0))
    } else if tag(s, i, "<=".spec_bytes()) is Some {
        Some((BinOp::Leq, tag(s, i, "<=".spec_bytes())->0))
    } else if tag(s, i, ">=".spec_bytes()) is Some {
        Some((BinOp::Geq, tag(s, i, ">=".spec_bytes())->0))
    } else if tag(s, i, "<".spec_bytes()) is Some {
        Some((BinOp::Lt, tag(s, i, "<".spec_bytes())->0))
    } else if tag(s, i, ">".spec_bytes()) is Some {
        Some((BinOp::Gt, tag(s, i, ">".spec_bytes())->0))
    } else if tag(s, i, "==".spec_bytes()) is Some {
        Some((BinOp::Eq, tag(s, i, "==".spec_bytes())->0))
    } else if tag(s, i, "!=".spec_bytes()) is Some {
        Some((BinOp::Neq, tag(s, i, "!=".spec_bytes())->0))
    } else {
        None
    }
}

/// The parameters behind the first, each after a comma, added to `found`.
pub open spec fn more_params(s: Seq<u8>, i: int, found: Seq<Seq<char>>) -> (Seq<Seq<char>>, int)
    decreases s.len() - i,
{
    match ws_tag(s, i, ",".spec_bytes()) {
        Some(k) => match ident(s, k) {
            Some((name, j)) => if j > i {
                more_params(s, j, found.push(name))
            } else {
                (found, i)
            },
            None => (found, i),
        },
        None => (found, i),
    }
}

/// The parameter list at position `i`; it may be empty.
pub open spec fn params(s: Seq<u8>, i: int) -> (Seq<Seq<char>>, int) {
    match ident(s, i) {
        Some((name, j)) => more_params(s, j, seq![name]),
        None => (Seq::empty(), i),
    }
}

/// The head of a function definition at position `i`: its name and its
/// parameters in parentheses.
pub open spec fn definition_head(s: Seq<u8>, i: int) -> Option<(Seq<char>, Seq<Seq<char>>, int)> {
    match ident(s, i) {
        Some((name, j)) => match ws_tag(s, j, "(".spec_bytes()) {
            Some(p) => match ws_tag(s, params(s, p).1, ")".spec_bytes()) {
                Some(k) => Some((name, params(s, p).0, k)),
                None => None,
            },
            None => None,
        },
        None => None,
    }
}

/// A result counts only where its position lies between position `i` and
/// the end of the text. That of every rule does, which is proved once the
/// rules are defined; saying so where a rule goes on from the result of
/// another keeps the rules well-founded.
pub open spec fn forward<T>(s: Seq<u8>, i: int, found: Option<(T, int)>) -> Option<(T, int)> {
    match found {
        Some((v, j)) => if i <= j <= s.len() {
            found
        } else {
            None
        },
        None => None,
    }
}

/// The same of a result that cannot fail.
pub open spec fn onward<T>(s: Seq<u8>, i: int, found: (T, int)) -> (T, int) {
    if i <= found.1 <= s.len() {
        found
    } else {
        (found.0, i)
    }
}

/// The number `0`, the value of a variable declared without one.
pub open spec fn zero() -> ExprView {
    ExprView::Number("0"@)
}

/// An operand at position `i`: a number, a call with its arguments, or an
/// identifier.
pub open spec fn unary(s: Seq<u8>, i: int) -> Option<(TokenView, int)>
    decreases s.len() - i, 0nat,
{
    match number_end(s, i) {
        Some(j) => Some((TokenView::Number(text(s.subrange(i, j))), j)),
        None => match ident(s, i) {
            Some((name, j)) => match ws_tag(s, j, "(".spec_bytes()) {
                Some(p) => {
                    let args = arguments(s, p);
                    match ws_tag(s, args.1, ")".spec_bytes()) {
                        Some(k) => Some((TokenView::Call { name, args: args.0 }, k)),
                        None => Some((TokenView::Ident(name), j)),
                    }
                },
                None => Some((TokenView::Ident(name), j)),
            },
            None => None,
        },
    }
}

/// An expression in parentheses at position `i`; its tokens are kept
/// between two parenthesis tokens.
pub open spec fn group(s: Seq<u8>, i: int) -> Option<(Seq<TokenView>, int)>
    decreases s.len() - i, 0nat,
{
    match ws_tag(s, i, "(".spec_bytes()) {
        Some(p) => match expr(s, p) {
            Some((inner, j)) => match ws_tag(s, j, ")".spec_bytes()) {
                Some(k) => Some((seq![TokenView::LParen] + inner + seq![TokenView::RParen], k)),
                None => None,
            },
            None => None,
        },
        None => None,
    }
}

/// A term at position `i`: an expression in parentheses or an operand.
pub open spec fn term(s: Seq<u8>, i: int) -> Option<(Seq<TokenView>, int)>
    decreases s.len() - i, 1nat,
{
    match group(s, i) {
        Some(found) => Some(found),
        None => match unary(s, i) {
            Some((operand, j)) => Some((seq![operand], j)),
            None => None,
        },
    }
}

/// The operators and terms that follow a term, added to `found`.
pub open spec fn more_terms(s: Seq<u8>, i: int, found: Seq<TokenView>) -> (Seq<TokenView>, int)
    decreases s.len() - i, 2nat,
{
    match operator(s, skip(s, i)) {
        Some((op, k)) => match forward(s, skip(s, k), term(s, skip(s, k))) {
            Some((next, j)) => more_terms(s, skip(s, j), found.push(TokenView::Op(op)) + next),
            None => (found, i),
        },
        None => (found, i),
    }
}

/// The flat form of the expression at position `i`: terms with operators
/// between them, blanks skipped.
pub open spec fn expr(s: Seq<u8>, i: int) -> Option<(Seq<TokenView>, int)>
    decreases s.len() - i, 3nat,
{
    if 0 <= i <= s.len() {
        match forward(s, skip(s, i), term(s, skip(s, i))) {
            Some((first, j)) => Some(more_terms(s, skip(s, j), first)),
            None => None,
        }
    } else {
        None
    }
}

/// The arguments behind the first, each after a comma, added to `found`.
pub open spec fn more_arguments(s: Seq<u8>, i: int, found: Seq<Seq<TokenView>>) -> (
    Seq<Seq<TokenView>>,
    int,
)
    decreases s.len() - i, 4nat,
{
    match ws_tag(s, i, ",".spec_bytes()) {
        Some(k) => match forward(s, k, expr(s, k)) {
            Some((next, j)) => more_arguments(s, j, found.push(next)),
            None => (found, i),
        },
        None => (found, i),
    }
}

/// The arguments of a call at position `i`, each a flat expression; there
/// may be none.
pub open spec fn arguments(s: Seq<u8>, i: int) -> (Seq<Seq<TokenView>>, int)
    decreases s.len() - i, 5nat,
{
    match forward(s, i, expr(s, i)) {
        Some((first, j)) => more_arguments(s, j, seq![first]),
        None => (Seq::empty(), i),
    }
}

/// The tree of the expression at position `i`.
pub open spec fn value(s: Seq<u8>, i: int) -> Option<(ExprView, int)> {
    match forward(s, i, expr(s, i)) {
        Some((tokens, j)) => Some((resolution(tokens), j)),
        None => None,
    }
}

/// A bound of a `for` loop at position `i`: a comma and an expression.
pub open spec fn bound(s: Seq<u8>, i: int) -> Option<(ExprView, int)> {
    match ws_tag(s, i, ",".spec_bytes()) {
        Some(k) => value(s, k),
        None => None,
    }
}

/// The bounds of a `for` loop at position `i`: one, two or three.
pub open spec fn bounds(s: Seq<u8>, i: int) -> Option<(Seq<ExprView>, int)> {
    match bound(s, i) {
        Some((first, j1)) => match bound(s, j1) {
            Some((second, j2)) => match bound(s, j2) {
                Some((third, j3)) => Some((seq![first, second, third], j3)),
                None => Some((seq![first, second], j2)),
            },
            None => Some((seq![first], j1)),
        },
        None => None,
    }
}

/// An assignment at position `i`.
pub open spec fn assignment(s: Seq<u8>, i: int) -> Option<(StmtView, int)> {
    match ident(s, i) {
        Some((name, j)) => match ws_tag(s, j, "=".spec_bytes()) {
            Some(p) => match value(s, p) {
                Some((v, k)) => Some((StmtView::Assignment { name, value: v }, k)),
                None => None,
            },
            None => None,
        },
        None => None,
    }
}

/// A declaration at position `i`, with the value given or with zero.
pub open spec fn declaration(s: Seq<u8>, i: int) -> Option<(StmtView, int)> {
    match ws_tag(s, i, "local".spec_bytes()) {
        Some(p) => match ident(s, p) {
            Some((name, j)) => {
                let given = match ws_tag(s, j, "=".spec_bytes()) {
                    Some(q) => value(s, q),
                    None => None,
                };
                match given {
                    Some((v, k)) => Some((StmtView::Declaration { name, value: v }, k)),
                    None => Some((StmtView::Declaration { name, value: zero() }, j)),
                }
            },
            None => None,
        },
        None => None,
    }
}

/// An expression statement at position `i`.
pub open spec fn stmt_expr(s: Seq<u8>, i: int) -> Option<(StmtView, int)> {
    match value(s, i) {
        Some((v, j)) => Some((StmtView::Expression(v), j)),
        None => None,
    }
}

/// A block at position `i` that is closed by `end`.
pub open spec fn block(s: Seq<u8>, i: int) -> Option<(Seq<StmtView>, int)>
    decreases s.len() - i, 10nat,
{
    if 0 <= i <= s.len() {
        let body = program(s, i);
        match ws_tag(s, body.1, "end".spec_bytes()) {
            Some(k) => Some((body.0, k)),
            None => None,
        }
    } else {
        None
    }
}

/// A `for` loop at position `i`.
pub open spec fn for_loop(s: Seq<u8>, i: int) -> Option<(StmtView, int)>
    decreases s.len() - i, 7nat,
{
    match ws_tag(s, i, "for".spec_bytes()) {
        Some(p) => match ident(s, p) {
            Some((name, j)) => match bounds(s, j) {
                Some((exprs, k)) => match ws_tag(s, k, "do".spec_bytes()) {
                    Some(q) => if q > i {
                        match block(s, q) {
                            Some((body, r)) => Some(
                                (StmtView::For { body, ident: name, exprs }, r),
                            ),
                            None => None,
                        }
                    } else {
                        None
                    },
                    None => None,
                },
                None => None,
            },
            None => None,
        },
        None => None,
    }
}

/// A `while` loop at position `i`.
pub open spec fn while_loop(s: Seq<u8>, i: int) -> Option<(StmtView, int)>
    decreases s.len() - i, 7nat,
{
    match ws_tag(s, i, "while".spec_bytes()) {
        Some(p) => match value(s, p) {
            Some((cond, j)) => match ws_tag(s, j, "do".spec_bytes()) {
                Some(q) => if q > i {
                    match block(s, q) {
                        Some((body, r)) => Some((StmtView::While { body, expr: cond }, r)),
                        None => None,
                    }
                } else {
                    None
                },
                None => None,
            },
            None => None,
        },
        None => None,
    }
}

/// What may follow the block of a conditional at position `i`: `else` with
/// another conditional, which then shares the closing `end`, or `else` with a
/// block, or nothing.
pub open spec fn else_branch(s: Seq<u8>, i: int) -> (Option<Seq<StmtView>>, int)
    decreases s.len() - i, 5nat,
{
    match ws_tag(s, i, "else".spec_bytes()) {
        Some(r) => match if_block(s, r) {
            Some((nested, k)) => (Some(seq![nested]), k),
            None => {
                let other = program(s, r);
                (Some(other.0), other.1)
            },
        },
        None => (None, i),
    }
}

/// A conditional without its closing `end` at position `i`.
pub open spec fn if_block(s: Seq<u8>, i: int) -> Option<(StmtView, int)>
    decreases s.len() - i, 6nat,
{
    match ws_tag(s, i, "if".spec_bytes()) {
        Some(p) => match value(s, p) {
            Some((cond, j)) => match ws_tag(s, j, "do".spec_bytes()) {
                Some(q) => if q > i {
                    let body = onward(s, q, program(s, q));
                    let branch = else_branch(s, body.1);
                    Some((StmtView::IfStatement { cond, body: body.0, branch: branch.0 }, branch.1))
                } else {
                    None
                },
                None => None,
            },
            None => None,
        },
        None => None,
    }
}

/// A conditional at position `i`.
pub open spec fn if_stmt(s: Seq<u8>, i: int) -> Option<(StmtView, int)>
    decreases s.len() - i, 7nat,
{
    match if_block(s, i) {
        Some((found, j)) => match ws_tag(s, j, "end".spec_bytes()) {
            Some(k) => Some((found, k)),
            None => None,
        },
        None => None,
    }
}

/// A function definition at position `i`: with `=` its body is one
/// expression, with `do` a block up to `end`.
pub open spec fn function_def(s: Seq<u8>, i: int) -> Option<(StmtView, int)>
    decreases s.len() - i, 7nat,
{
    match definition_head(s, i) {
        Some((name, args, j)) => {
            let short = match ws_tag(s, j, "=".spec_bytes()) {
                Some(p) => stmt_expr(s, p),
                None => None,
            };
            match short {
                Some((only, k)) => Some(
                    (StmtView::FunctionDefinition { name, args, body: seq![only] }, k),
                ),
                None => match ws_tag(s, j, "do".spec_bytes()) {
                    Some(q) => if q > i {
                        match block(s, q) {
                            Some((body, r)) => Some(
                                (StmtView::FunctionDefinition { name, args, body }, r),
                            ),
                            None => None,
                        }
                    } else {
                        None
                    },
                    None => None,
                },
            }
        },
        None => None,
    }
}

/// A statement at position `i`: the first kind that is found there.
pub open spec fn stmt(s: Seq<u8>, i: int) -> Option<(StmtView, int)>
    decreases s.len() - i, 8nat,
{
    if for_loop(s, i) is Some {
        for_loop(s, i)
    } else if while_loop(s, i) is Some {
        while_loop(s, i)
    } else if if_stmt(s, i) is Some {
        if_stmt(s, i)
    } else if function_def(s, i) is Some {
        function_def(s, i)
    } else if assignment(s, i) is Some {
        assignment(s, i)
    } else if declaration(s, i) is Some {
        declaration(s, i)
    } else {
        stmt_expr(s, i)
    }
}

/// The statements from position `i` on, as many as are found one behind
/// another, and the position behind the last.
pub open spec fn program(s: Seq<u8>, i: int) -> (Seq<StmtView>, int)
    decreases s.len() - i, 9nat,
{
    match forward(s, i, stmt(s, i)) {
        Some((first, j)) => if j > i {
            let rest = program(s, j);
            (seq![first] + rest.0, rest.1)
        } else {
            (Seq::empty(), i)
        },
        None => (Seq::empty(), i),
    }
}

} // verus!
