//! What the generator emits, as functions of the program and of the table
//! of generated names.
//!
//! A table `env` maps the source name of every function defined so far to
//! its generated name. The text of an expression or a statement is a
//! function of the tree and of that table. Whether generation succeeds
//! depends on the set of names defined when each call and each definition is
//! met, which [`body_outcome`] follows statement by statement.

use crate::types::{BinOp, ExprView, StmtView};
use vstd::prelude::*;

verus! {

/// The table of generated names.
pub type Env = Map<Seq<char>, Seq<char>>;

/// The name of the entry point.
pub open spec fn entry_name() -> Seq<char> {
    "main"@
}

/// What opens the text of a binary node.
pub open spec fn binary_open(op: BinOp) -> Seq<char> {
    match op {
        BinOp::Pow => "pow("@,
        BinOp::Mod => "((int)"@,
        _ => "("@,
    }
}

/// What stands between the two operands of a binary node.
pub open spec fn binary_middle(op: BinOp) -> Seq<char> {
    match op {
        BinOp::Add => "+"@,
        BinOp::Sub => "-"@,
        BinOp::Mul => "*"@,
        BinOp::Div => "/"@,
        BinOp::Pow => ","@,
        BinOp::Mod => "%(int)"@,
        BinOp::Leq => "<="@,
        BinOp::Geq => ">="@,
        BinOp::Lt => "<"@,
        BinOp::Gt => ">"@,
        BinOp::Eq => "=="@,
        BinOp::Neq => "!="@,
    }
}

/// The text of an expression. A number and an identifier stand for
/// themselves. A call names the generated function. A binary node is put in
/// parentheses; a power becomes a call of `pow`, and the operands of a
/// remainder are cast to `int`.
pub open spec fn expr_text(e: ExprView, env: Env) -> Seq<char>
    decreases e, 0nat,
{
    match e {
        ExprView::Number(n) => n,
        ExprView::Ident(s) => s,
        ExprView::Call { name, args } => env[name] + "("@ + args_text(
            args,
            env,
            args.len(),
        ) + ")"@,
        ExprView::Binary { op, lhs, rhs } => binary_open(op) + expr_text(*lhs, env)
            + binary_middle(op) + expr_text(*rhs, env) + ")"@,
    }
}

/// The texts of the first `n` arguments, separated by commas.
pub open spec fn args_text(args: Seq<ExprView>, env: Env, n: nat) -> Seq<char>
    decreases args, n,
{
    if n == 0 || n > args.len() {
        Seq::empty()
    } else if n == 1 {
        expr_text(args[0], env)
    } else {
        args_text(args, env, (n - 1) as nat) + ","@ + expr_text(args[n - 1], env)
    }
}

/// Whether every function that the expression calls is among `defs`.
pub open spec fn expr_defined(e: ExprView, defs: Set<Seq<char>>) -> bool
    decreases e,
{
    match e {
        ExprView::Number(_) => true,
        ExprView::Ident(_) => true,
        ExprView::Call { name, args } => defs.contains(name) && forall|i: int|
            0 <= i < args.len() ==> expr_defined(#[trigger] args[i], defs),
        ExprView::Binary { op, lhs, rhs } => expr_defined(*lhs, defs) && expr_defined(*rhs, defs),
    }
}

/// Whether each of the expressions calls defined functions only.
pub open spec fn exprs_defined(exprs: Seq<ExprView>, defs: Set<Seq<char>>) -> bool {
    forall|i: int| 0 <= i < exprs.len() ==> expr_defined(#[trigger] exprs[i], defs)
}

/// How generation ends: with the set of names then defined, or with the
/// first error.
pub enum Outcome {
    Done(Set<Seq<char>>),
    Redefined(Seq<char>),
    Undefined,
}

/// The outcome of one statement, met when `defs` are defined. An expression
/// must call defined functions only. A definition defines its name, whatever
/// the name is, unless it is defined already, and is compiled where it
/// stands. In a compound statement the header comes first, then the blocks in
/// their order.
pub open spec fn stmt_outcome(s: StmtView, defs: Set<Seq<char>>) -> Outcome
    decreases s, 0nat,
{
    match s {
        StmtView::Expression(e) => if expr_defined(e, defs) {
            Outcome::Done(defs)
        } else {
            Outcome::Undefined
        },
        StmtView::Declaration { name, value } => if expr_defined(value, defs) {
            Outcome::Done(defs)
        } else {
            Outcome::Undefined
        },
        StmtView::Assignment { name, value } => if expr_defined(value, defs) {
            Outcome::Done(defs)
        } else {
            Outcome::Undefined
        },
        StmtView::FunctionDefinition { name, args, body } => if defs.contains(name) {
            Outcome::Redefined(name)
        } else {
            body_outcome(body, defs.insert(name), body.len())
        },
        StmtView::IfStatement { cond, body, branch } => if !expr_defined(cond, defs) {
            Outcome::Undefined
        } else {
            match body_outcome(body, defs, body.len()) {
                Outcome::Done(after) => match branch {
                    Some(other) => body_outcome(other, after, other.len()),
                    None => Outcome::Done(after),
                },
                failed => failed,
            }
        },
        StmtView::For { body, ident, exprs } => if !exprs_defined(exprs, defs) {
            Outcome::Undefined
        } else {
            body_outcome(body, defs, body.len())
        },
        StmtView::While { body, expr } => if !expr_defined(expr, defs) {
            Outcome::Undefined
        } else {
            body_outcome(body, defs, body.len())
        },
    }
}

/// The outcome of the first `n` statements of a block, met when `defs` are
/// defined: each statement starts from what the one before it left, and the
/// first error ends the block.
pub open spec fn body_outcome(body: Seq<StmtView>, defs: Set<Seq<char>>, n: nat) -> Outcome
    decreases body, n,
{
    if n == 0 || n > body.len() {
        Outcome::Done(defs)
    } else {
        match body_outcome(body, defs, (n - 1) as nat) {
            Outcome::Done(before) => stmt_outcome(body[n - 1], before),
            failed => failed,
        }
    }
}

/// The outcome of a function named `name` with the given body, met when
/// `defs` are defined. A name that is defined already cannot be defined
/// again. The name is defined before the body is compiled, so that the body
/// may call it.
pub open spec fn function_outcome(
    name: Seq<char>,
    body: Seq<StmtView>,
    defs: Set<Seq<char>>,
) -> Outcome {
    if defs.contains(name) {
        Outcome::Redefined(name)
    } else {
        body_outcome(body, defs.insert(name), body.len())
    }
}

/// The outcome of the unit that a caller asks for under `name`: the entry
/// point where the name is `main`, which is not defined by that, else a
/// function. A name that is defined already cannot be asked for.
pub open spec fn unit_outcome(name: Seq<char>, body: Seq<StmtView>, defs: Set<Seq<char>>) -> Outcome {
    if defs.contains(name) {
        Outcome::Redefined(name)
    } else if name == entry_name() {
        body_outcome(body, defs, body.len())
    } else {
        function_outcome(name, body, defs)
    }
}

/// The loop header of a `for` statement over the texts of its bounds. With
/// one bound the loop counts from zero up to it. With two or three the
/// direction is decided when the loop runs, by comparing start and stop;
/// the step is one, or the third bound added each time round.
pub open spec fn for_header(ident: Seq<char>, bounds: Seq<Seq<char>>) -> Seq<char> {
    if bounds.len() == 1 {
        "\tfor (int "@ + ident + "=0;"@ + ident + "<"@ + bounds[0] + ";"@ + ident + "++){\n"@
    } else if bounds.len() == 2 {
        "\tfor (int "@ + ident + "=(int)"@ + bounds[0] + ";"@ + bounds[0] + ">"@ + bounds[1]
            + "?(int)"@ + ident + ">(int)"@ + bounds[1] + ":(int)"@ + ident + "<(int)"@ + bounds[1]
            + ";"@ + bounds[0] + ">"@ + bounds[1] + "?"@ + ident + "--:"@ + ident + "++){\n"@
    } else {
        "\tfor (int "@ + ident + "=(int)"@ + bounds[0] + ";"@ + bounds[0] + ">"@ + bounds[1]
            + "?(int)"@ + ident + ">(int)"@ + bounds[1] + ":(int)"@ + ident + "<(int)"@ + bounds[1]
            + ";"@ + ident + "+=(int)"@ + bounds[2] + "){\n"@
    }
}

/// The texts of the expressions, each on its own.
pub open spec fn exprs_texts(exprs: Seq<ExprView>, env: Env) -> Seq<Seq<char>> {
    Seq::new(exprs.len(), |i: int| expr_text(exprs[i], env))
}

/// The text that a statement leaves where it stands. `as_result` tells
/// whether an expression statement gives the value of the function, or is
/// printed. A function definition leaves nothing.
pub open spec fn stmt_text(s: StmtView, env: Env, as_result: bool) -> Seq<char>
    decreases s, 0nat,
{
    match s {
        StmtView::Expression(e) => if as_result {
            "\treturn "@ + expr_text(e, env) + ";\n"@
        } else {
            "\tprint_number("@ + expr_text(e, env) + ");\n"@
        },
        StmtView::FunctionDefinition { name, args, body } => Seq::empty(),
        StmtView::Declaration { name, value } => "\tdouble "@ + name + "="@ + expr_text(
            value,
            env,
        ) + ";\n"@,
        StmtView::Assignment { name, value } => "\t"@ + name + "="@ + expr_text(value, env)
            + ";\n"@,
        StmtView::IfStatement { cond, body, branch } => match branch {
            Some(other) => "\tif ("@ + expr_text(cond, env) + "){\n"@ + body_text(
                body,
                env,
                false,
                body.len(),
            ) + "\t} else {\n"@ + body_text(other, env, false, other.len()) + "\t}\n"@,
            None => "\tif ("@ + expr_text(cond, env) + "){\n"@ + body_text(
                body,
                env,
                false,
                body.len(),
            ) + "\t}\n"@,
        },
        StmtView::For { body, ident, exprs } => for_header(ident, exprs_texts(exprs, env))
            + body_text(body, env, false, body.len()) + "\t}\n"@,
        StmtView::While { body, expr } => "\twhile ("@ + expr_text(expr, env) + "){\n"@
            + body_text(body, env, false, body.len()) + "\t}\n"@,
    }
}

/// The text of the first `n` statements of a block. In the body of a
/// function the last statement of the block returns its value if it is an
/// expression.
pub open spec fn body_text(body: Seq<StmtView>, env: Env, function_body: bool, n: nat) -> Seq<char>
    decreases body, n,
{
    if n == 0 || n > body.len() {
        Seq::empty()
    } else {
        body_text(body, env, function_body, (n - 1) as nat) + stmt_text(
            body[n - 1],
            env,
            function_body && n == body.len(),
        )
    }
}

/// The parameter list of a generated function: the first `n` parameters,
/// each a `double`, separated by commas.
pub open spec fn params_text(params: Seq<Seq<char>>, n: nat) -> Seq<char>
    decreases n,
{
    if n == 0 || n > params.len() {
        Seq::empty()
    } else if n == 1 {
        "double "@ + params[0]
    } else {
        params_text(params, (n - 1) as nat) + ","@ + "double "@ + params[n - 1]
    }
}

/// The text of the entry point: `int main()`, which prints its expression
/// statements and returns zero.
pub open spec fn entry_text(body: Seq<StmtView>, env: Env) -> Seq<char> {
    "int main(){\n"@ + body_text(body, env, false, body.len()) + "\treturn 0;\n"@ + "}\n"@
}

/// The text of a function: it bears its generated name, takes and returns
/// `double`, and returns the value of a final expression statement.
pub open spec fn function_text(
    name: Seq<char>,
    params: Seq<Seq<char>>,
    body: Seq<StmtView>,
    env: Env,
) -> Seq<char> {
    "double "@ + env[name] + "("@ + params_text(params, params.len()) + "){\n"@ + body_text(
        body,
        env,
        true,
        body.len(),
    ) + "}\n"@
}

/// The text of the unit that a caller asks for under `name`: the entry
/// point where the name is `main`, else a function.
pub open spec fn unit_text(
    name: Seq<char>,
    params: Seq<Seq<char>>,
    body: Seq<StmtView>,
    env: Env,
) -> Seq<char> {
    if name == entry_name() {
        entry_text(body, env)
    } else {
        function_text(name, params, body, env)
    }
}

/// The functions that a statement hoists, in the order in which they are
/// finished: those nested in a definition come before the definition itself.
pub open spec fn stmt_units(s: StmtView, env: Env) -> Seq<Seq<char>>
    decreases s, 0nat,
{
    match s {
        StmtView::FunctionDefinition { name, args, body } => body_units(body, env, body.len()).push(
            function_text(name, args, body, env),
        ),
        StmtView::IfStatement { cond, body, branch } => match branch {
            Some(other) => body_units(body, env, body.len()) + body_units(
                other,
                env,
                other.len(),
            ),
            None => body_units(body, env, body.len()),
        },
        StmtView::For { body, ident, exprs } => body_units(body, env, body.len()),
        StmtView::While { body, expr } => body_units(body, env, body.len()),
        _ => Seq::empty(),
    }
}

/// The functions that the first `n` statements of a block hoist.
pub open spec fn body_units(body: Seq<StmtView>, env: Env, n: nat) -> Seq<Seq<char>>
    decreases body, n,
{
    if n == 0 || n > body.len() {
        Seq::empty()
    } else {
        body_units(body, env, (n - 1) as nat) + stmt_units(body[n - 1], env)
    }
}

/// Whether a statement can be generated: a `for` statement has one, two or
/// three bounds, here and in every nested block.
pub open spec fn stmt_valid(s: StmtView) -> bool
    decreases s, 0nat,
{
    match s {
        StmtView::FunctionDefinition { name, args, body } => body_valid(body),
        StmtView::IfStatement { cond, body, branch } => body_valid(body) && match branch {
            Some(other) => body_valid(other),
            None => true,
        },
        StmtView::For { body, ident, exprs } => 1 <= exprs.len() <= 3 && body_valid(body),
        StmtView::While { body, expr } => body_valid(body),
        _ => true,
    }
}

/// Whether every statement of a block can be generated.
pub open spec fn body_valid(body: Seq<StmtView>) -> bool
    decreases body, 1nat,
{
    forall|i: int| 0 <= i < body.len() ==> stmt_valid(#[trigger] body[i])
}

/// The number of function definitions in a statement, nested ones
/// included.
pub open spec fn stmt_definitions(s: StmtView) -> nat
    decreases s, 0nat,
{
    match s {
        StmtView::FunctionDefinition { name, args, body } => 1 + body_definitions(body, body.len()),
        StmtView::IfStatement { cond, body, branch } => body_definitions(body, body.len())
            + match branch {
            Some(other) => body_definitions(other, other.len()),
            None => 0,
        },
        StmtView::For { body, ident, exprs } => body_definitions(body, body.len()),
        StmtView::While { body, expr } => body_definitions(body, body.len()),
        _ => 0,
    }
}

/// The number of function definitions in the first `n` statements of a
/// block.
pub open spec fn body_definitions(body: Seq<StmtView>, n: nat) -> nat
    decreases body, n,
{
    if n == 0 || n > body.len() {
        0
    } else {
        body_definitions(body, (n - 1) as nat) + stmt_definitions(body[n - 1])
    }
}

/// What every generated program begins with: the includes and the routine
/// that prints a number, without a fraction where it has none.
pub const C_HEADER: &'static str =
    "#include <stdio.h>\n#include <math.h>\n\nvoid print_number(double n){\n\tif (n==(long long)n) {\n\t\tprintf(\"%lld\\n\", (long long)n);\n\t} else {\n\t\tprintf(\"%lf\\n\", (double)n);\n\t}\n}";

/// The first `n` texts, separated by line breaks.
pub open spec fn joined_lines(units: Seq<Seq<char>>, n: nat) -> Seq<char>
    decreases n,
{
    if n == 0 || n > units.len() {
        Seq::empty()
    } else if n == 1 {
        units[0]
    } else {
        joined_lines(units, (n - 1) as nat) + "\n"@ + units[n - 1]
    }
}

/// The text of a whole program: the header, every hoisted function, then the
/// entry point.
pub open spec fn program_text(program: Seq<StmtView>, env: Env) -> Seq<char> {
    let units = body_units(program, env, program.len());
    C_HEADER@ + "\n"@ + joined_lines(units, units.len()) + "\n"@ + entry_text(program, env)
}

} // verus!
