//! Tokens, expressions and statements, each with its mathematical view.
//!
//! The executable types own strings and vectors. Contracts speak of their
//! views, in which a string is a `Seq<char>`, a vector a `Seq`, and the
//! binary nodes share one variant that names the operator.

use vstd::prelude::*;

verus! {

/// The binary operators of the language.
#[derive(Clone, Copy, Debug, PartialEq, Eq, Structural)]
pub enum BinOp {
    Add,
    Sub,
    Mul,
    Div,
    Pow,
    Mod,
    Leq,
    Geq,
    Lt,
    Gt,
    Eq,
    Neq,
}

/// One element of the flat form of an expression. A numeric literal is held
/// as the text that stands for it in generated code.
#[derive(Debug, PartialEq)]
pub enum ExprToken {
    Add,
    Sub,
    Mul,
    Div,
    Pow,
    Mod,
    Leq,
    Geq,
    Lt,
    Gt,
    Eq,
    Neq,
    LParen,
    RParen,
    Number(String),
    Ident(String),
    Call { name: String, args: Vec<Vec<ExprToken>> },
}

/// The view of an [`ExprToken`].
pub enum TokenView {
    Op(BinOp),
    LParen,
    RParen,
    Number(Seq<char>),
    Ident(Seq<char>),
    Call { name: Seq<char>, args: Seq<Seq<TokenView>> },
}

/// An expression tree.
#[derive(Debug, PartialEq)]
pub enum Expr {
    Add(Box<Expr>, Box<Expr>),
    Sub(Box<Expr>, Box<Expr>),
    Mul(Box<Expr>, Box<Expr>),
    Div(Box<Expr>, Box<Expr>),
    Pow(Box<Expr>, Box<Expr>),
    Mod(Box<Expr>, Box<Expr>),
    Leq(Box<Expr>, Box<Expr>),
    Geq(Box<Expr>, Box<Expr>),
    Lt(Box<Expr>, Box<Expr>),
    Gt(Box<Expr>, Box<Expr>),
    Eq(Box<Expr>, Box<Expr>),
    Neq(Box<Expr>, Box<Expr>),
    Number(String),
    Ident(String),
    Call { name: String, args: Vec<Box<Expr>> },
}

/// The view of an [`Expr`].
pub enum ExprView {
    Binary { op: BinOp, lhs: Box<ExprView>, rhs: Box<ExprView> },
    Number(Seq<char>),
    Ident(Seq<char>),
    Call { name: Seq<char>, args: Seq<ExprView> },
}

/// One lexical block: the top level, or the body of a loop, a branch or a
/// function.
pub type Program = Vec<Stmt>;

/// A statement.
#[derive(Debug, PartialEq)]
pub enum Stmt {
    FunctionDefinition { name: String, args: Vec<String>, body: Program },
    IfStatement { cond: Box<Expr>, body: Program, branch: Option<Program> },
    For { body: Program, ident: String, exprs: Vec<Box<Expr>> },
    While { body: Program, expr: Box<Expr> },
    Declaration { name: String, value: Box<Expr> },
    Assignment { name: String, value: Box<Expr> },
    Expression(Box<Expr>),
}

/// The view of a [`Stmt`].
pub enum StmtView {
    FunctionDefinition { name: Seq<char>, args: Seq<Seq<char>>, body: Seq<StmtView> },
    IfStatement { cond: ExprView, body: Seq<StmtView>, branch: Option<Seq<StmtView>> },
    For { body: Seq<StmtView>, ident: Seq<char>, exprs: Seq<ExprView> },
    While { body: Seq<StmtView>, expr: ExprView },
    Declaration { name: Seq<char>, value: ExprView },
    Assignment { name: Seq<char>, value: ExprView },
    Expression(ExprView),
}

/// The view of a token; the arguments of a call are viewed in turn.
pub open spec fn token_view(t: ExprToken) -> TokenView
    decreases t,
{
    match t {
        ExprToken::Add => TokenView::Op(BinOp::Add),
        ExprToken::Sub => TokenView::Op(BinOp::Sub),
        ExprToken::Mul => TokenView::Op(BinOp::Mul),
        ExprToken::Div => TokenView::Op(BinOp::Div),
        ExprToken::Pow => TokenView::Op(BinOp::Pow),
        ExprToken::Mod => TokenView::Op(BinOp::Mod),
        ExprToken::Leq => TokenView::Op(BinOp::Leq),
        ExprToken::Geq => TokenView::Op(BinOp::Geq),
        ExprToken::Lt => TokenView::Op(BinOp::Lt),
        ExprToken::Gt => TokenView::Op(BinOp::Gt),
        ExprToken::Eq => TokenView::Op(BinOp::Eq),
        ExprToken::Neq => TokenView::Op(BinOp::Neq),
        ExprToken::LParen => TokenView::LParen,
        ExprToken::RParen => TokenView::RParen,
        ExprToken::Number(n) => TokenView::Number(n@),
        ExprToken::Ident(s) => TokenView::Ident(s@),
        ExprToken::Call { name, args } => TokenView::Call {
            name: name@,
            args: Seq::new(
                args@.len(),
                |i: int|
                    Seq::new(
                        args@[i]@.len(),
                        |j: int|
                            if 0 <= i < args@.len() && 0 <= j < args@[i]@.len() {
                                token_view(args@[i]@[j])
                            } else {
                                TokenView::LParen
                            },
                    ),
            ),
        },
    }
}

/// The view of a binary node.
pub open spec fn binary(op: BinOp, lhs: ExprView, rhs: ExprView) -> ExprView {
    ExprView::Binary { op, lhs: Box::new(lhs), rhs: Box::new(rhs) }
}

/// The view of an expression tree.
pub open spec fn expr_view(e: Expr) -> ExprView
    decreases e,
{
    match e {
        Expr::Add(l, r) => binary(BinOp::Add, expr_view(*l), expr_view(*r)),
        Expr::Sub(l, r) => binary(BinOp::Sub, expr_view(*l), expr_view(*r)),
        Expr::Mul(l, r) => binary(BinOp::Mul, expr_view(*l), expr_view(*r)),
        Expr::Div(l, r) => binary(BinOp::Div, expr_view(*l), expr_view(*r)),
        Expr::Pow(l, r) => binary(BinOp::Pow, expr_view(*l), expr_view(*r)),
        Expr::Mod(l, r) => binary(BinOp::Mod, expr_view(*l), expr_view(*r)),
        Expr::Leq(l, r) => binary(BinOp::Leq, expr_view(*l), expr_view(*r)),
        Expr::Geq(l, r) => binary(BinOp::Geq, expr_view(*l), expr_view(*r)),
        Expr::Lt(l, r) => binary(BinOp::Lt, expr_view(*l), expr_view(*r)),
        Expr::Gt(l, r) => binary(BinOp::Gt, expr_view(*l), expr_view(*r)),
        Expr::Eq(l, r) => binary(BinOp::Eq, expr_view(*l), expr_view(*r)),
        Expr::Neq(l, r) => binary(BinOp::Neq, expr_view(*l), expr_view(*r)),
        Expr::Number(n) => ExprView::Number(n@),
        Expr::Ident(s) => ExprView::Ident(s@),
        Expr::Call { name, args } => ExprView::Call {
            name: name@,
            args: Seq::new(
                args@.len(),
                |i: int|
                    if 0 <= i < args@.len() {
                        expr_view(*args@[i])
                    } else {
                        ExprView::Number(Seq::empty())
                    },
            ),
        },
    }
}

/// The view of a statement; nested blocks are viewed in turn.
pub open spec fn stmt_view(s: Stmt) -> StmtView
    decreases s,
{
    match s {
        Stmt::FunctionDefinition { name, args, body } => StmtView::FunctionDefinition {
            name: name@,
            args: args.deep_view(),
            body: Seq::new(
                body@.len(),
                |i: int|
                    if 0 <= i < body@.len() {
                        stmt_view(body@[i])
                    } else {
                        StmtView::Expression(ExprView::Number(Seq::empty()))
                    },
            ),
        },
        Stmt::IfStatement { cond, body, branch } => StmtView::IfStatement {
            cond: expr_view(*cond),
            body: Seq::new(
                body@.len(),
                |i: int|
                    if 0 <= i < body@.len() {
                        stmt_view(body@[i])
                    } else {
                        StmtView::Expression(ExprView::Number(Seq::empty()))
                    },
            ),
            branch: match branch {
                Some(b) => Some(
                    Seq::new(
                        b@.len(),
                        |i: int|
                            if 0 <= i < b@.len() {
                                stmt_view(b@[i])
                            } else {
                                StmtView::Expression(ExprView::Number(Seq::empty()))
                            },
                    ),
                ),
                None => None,
            },
        },
        Stmt::For { body, ident, exprs } => StmtView::For {
            body: Seq::new(
                body@.len(),
                |i: int|
                    if 0 <= i < body@.len() {
                        stmt_view(body@[i])
                    } else {
                        StmtView::Expression(ExprView::Number(Seq::empty()))
                    },
            ),
            ident: ident@,
            exprs: exprs.deep_view(),
        },
        Stmt::While { body, expr } => StmtView::While {
            body: Seq::new(
                body@.len(),
                |i: int|
                    if 0 <= i < body@.len() {
                        stmt_view(body@[i])
                    } else {
                        StmtView::Expression(ExprView::Number(Seq::empty()))
                    },
            ),
            expr: expr_view(*expr),
        },
        Stmt::Declaration { name, value } => StmtView::Declaration {
            name: name@,
            value: expr_view(*value),
        },
        Stmt::Assignment { name, value } => StmtView::Assignment {
            name: name@,
            value: expr_view(*value),
        },
        Stmt::Expression(e) => StmtView::Expression(expr_view(*e)),
    }
}

impl DeepView for ExprToken {
    type V = TokenView;

    open spec fn deep_view(&self) -> TokenView {
        token_view(*self)
    }
}

impl DeepView for Expr {
    type V = ExprView;

    open spec fn deep_view(&self) -> ExprView {
        expr_view(*self)
    }
}

impl DeepView for Stmt {
    type V = StmtView;

    open spec fn deep_view(&self) -> StmtView {
        stmt_view(*self)
    }
}

/// The arguments of a call token, viewed, are the deep view of its vector
/// of argument sequences.
pub proof fn lemma_call_token_view(name: String, args: Vec<Vec<ExprToken>>)
    ensures
        token_view(ExprToken::Call { name, args }) == (TokenView::Call {
            name: name@,
            args: args.deep_view(),
        }),
{
    let t = token_view(ExprToken::Call { name, args });
    let d = args.deep_view();
    assert(t->args.len() == d.len());
    assert forall|i: int| 0 <= i < d.len() implies t->args[i] == d[i] by {
        assert(t->args[i] =~= d[i]);
    }
    assert(t->args =~= d);
}

/// The arguments of a call, viewed, are the deep view of its vector of
/// argument trees.
pub proof fn lemma_call_expr_view(name: String, args: Vec<Box<Expr>>)
    ensures
        expr_view(Expr::Call { name, args }) == (ExprView::Call {
            name: name@,
            args: args.deep_view(),
        }),
{
    let e = expr_view(Expr::Call { name, args });
    assert(e->args =~= args.deep_view());
}

/// The view of a block held in a statement is the deep view of its vector.
pub proof fn lemma_block_view(body: Program)
    ensures
        body.deep_view() == Seq::new(
            body@.len(),
            |i: int|
                if 0 <= i < body@.len() {
                    stmt_view(body@[i])
                } else {
                    StmtView::Expression(ExprView::Number(Seq::empty()))
                },
        ),
{
    assert(body.deep_view() =~= Seq::new(
        body@.len(),
        |i: int|
            if 0 <= i < body@.len() {
                stmt_view(body@[i])
            } else {
                StmtView::Expression(ExprView::Number(Seq::empty()))
            },
    ));
}

/// The view of a function definition is made of the views of its parts.
pub proof fn lemma_definition_view(name: String, args: Vec<String>, body: Program)
    ensures
        stmt_view(Stmt::FunctionDefinition { name, args, body }) == (StmtView::FunctionDefinition {
            name: name@,
            args: args.deep_view(),
            body: body.deep_view(),
        }),
{
    lemma_block_view(body);
    let s = stmt_view(Stmt::FunctionDefinition { name, args, body });
    assert(s->FunctionDefinition_body == body.deep_view());
}

/// The view of a conditional is made of the views of its parts.
pub proof fn lemma_if_view(cond: Box<Expr>, body: Program, branch: Option<Program>)
    ensures
        stmt_view(Stmt::IfStatement { cond, body, branch }) == (StmtView::IfStatement {
            cond: cond.deep_view(),
            body: body.deep_view(),
            branch: match branch {
                Some(other) => Some(other.deep_view()),
                None => None,
            },
        }),
{
    lemma_block_view(body);
    let s = stmt_view(Stmt::IfStatement { cond, body, branch });
    assert(s->IfStatement_body == body.deep_view());
    match branch {
        Some(other) => {
            lemma_block_view(other);
            assert(s->branch == Some(other.deep_view()));
        },
        None => {},
    }
}

/// The view of a `for` loop is made of the views of its parts.
pub proof fn lemma_for_view(body: Program, ident: String, exprs: Vec<Box<Expr>>)
    ensures
        stmt_view(Stmt::For { body, ident, exprs }) == (StmtView::For {
            body: body.deep_view(),
            ident: ident@,
            exprs: exprs.deep_view(),
        }),
{
    lemma_block_view(body);
    let s = stmt_view(Stmt::For { body, ident, exprs });
    assert(s->For_body == body.deep_view());
}

/// The view of a `while` loop is made of the views of its parts.
pub proof fn lemma_while_view(body: Program, expr: Box<Expr>)
    ensures
        stmt_view(Stmt::While { body, expr }) == (StmtView::While {
            body: body.deep_view(),
            expr: expr.deep_view(),
        }),
{
    lemma_block_view(body);
    let s = stmt_view(Stmt::While { body, expr });
    assert(s->While_body == body.deep_view());
}

/// A copy of a sequence of tokens.
fn clone_tokens(tokens: &Vec<ExprToken>) -> (copy: Vec<ExprToken>)
    ensures
        copy.deep_view() == tokens.deep_view(),
    decreases tokens, 0nat,
{
    let mut copy: Vec<ExprToken> = Vec::new();
    let mut i: usize = 0;
    while i < tokens.len()
        invariant
            i <= tokens.len(),
            copy.len() == i,
            forall|k: int| 0 <= k < i ==> (#[trigger] copy[k]).deep_view() == tokens[k].deep_view(),
        decreases tokens.len() - i,
    {
        copy.push(tokens[i].clone());
        i += 1;
    }
    assert(copy.deep_view() =~= tokens.deep_view());
    copy
}

/// A copy of the arguments of a call.
fn clone_arguments(args: &Vec<Vec<ExprToken>>) -> (copy: Vec<Vec<ExprToken>>)
    ensures
        copy.deep_view() == args.deep_view(),
    decreases args, 1nat,
{
    let mut copy: Vec<Vec<ExprToken>> = Vec::new();
    let mut i: usize = 0;
    while i < args.len()
        invariant
            i <= args.len(),
            copy.len() == i,
            forall|k: int| 0 <= k < i ==> (#[trigger] copy[k]).deep_view() == args[k].deep_view(),
        decreases args.len() - i,
    {
        copy.push(clone_tokens(&args[i]));
        i += 1;
    }
    assert(copy.deep_view() =~= args.deep_view());
    copy
}

impl Clone for ExprToken {
    /// A copy with the same view.
    fn clone(&self) -> (copy: Self)
        ensures
            copy.deep_view() == self.deep_view(),
        decreases self,
    {
        match self {
            ExprToken::Add => ExprToken::Add,
            ExprToken::Sub => ExprToken::Sub,
            ExprToken::Mul => ExprToken::Mul,
            ExprToken::Div => ExprToken::Div,
            ExprToken::Pow => ExprToken::Pow,
            ExprToken::Mod => ExprToken::Mod,
            ExprToken::Leq => ExprToken::Leq,
            ExprToken::Geq => ExprToken::Geq,
            ExprToken::Lt => ExprToken::Lt,
            ExprToken::Gt => ExprToken::Gt,
            ExprToken::Eq => ExprToken::Eq,
            ExprToken::Neq => ExprToken::Neq,
            ExprToken::LParen => ExprToken::LParen,
            ExprToken::RParen => ExprToken::RParen,
            ExprToken::Number(n) => ExprToken::Number(n.clone()),
            ExprToken::Ident(s) => ExprToken::Ident(s.clone()),
            ExprToken::Call { name, args } => {
                let name_copy = name.clone();
                let args_copy = clone_arguments(args);
                proof {
                    lemma_call_token_view(*name, *args);
                    lemma_call_token_view(name_copy, args_copy);
                }
                ExprToken::Call { name: name_copy, args: args_copy }
            },
        }
    }
}

/// A copy of a list of trees.
fn clone_trees(trees: &Vec<Box<Expr>>) -> (copy: Vec<Box<Expr>>)
    ensures
        copy.deep_view() == trees.deep_view(),
    decreases trees, 0nat,
{
    let mut copy: Vec<Box<Expr>> = Vec::new();
    let mut i: usize = 0;
    while i < trees.len()
        invariant
            i <= trees.len(),
            copy.len() == i,
            forall|k: int| 0 <= k < i ==> (#[trigger] copy[k]).deep_view() == trees[k].deep_view(),
        decreases trees.len() - i,
    {
        let tree: &Expr = &trees[i];
        copy.push(Box::new(tree.clone()));
        i += 1;
    }
    assert(copy.deep_view() =~= trees.deep_view());
    copy
}

impl Clone for Expr {
    /// A copy with the same view.
    fn clone(&self) -> (copy: Self)
        ensures
            copy.deep_view() == self.deep_view(),
        decreases self,
    {
        match self {
            Expr::Add(l, r) => Expr::Add(Box::new((**l).clone()), Box::new((**r).clone())),
            Expr::Sub(l, r) => Expr::Sub(Box::new((**l).clone()), Box::new((**r).clone())),
            Expr::Mul(l, r) => Expr::Mul(Box::new((**l).clone()), Box::new((**r).clone())),
            Expr::Div(l, r) => Expr::Div(Box::new((**l).clone()), Box::new((**r).clone())),
            Expr::Pow(l, r) => Expr::Pow(Box::new((**l).clone()), Box::new((**r).clone())),
            Expr::Mod(l, r) => Expr::Mod(Box::new((**l).clone()), Box::new((**r).clone())),
            Expr::Leq(l, r) => Expr::Leq(Box::new((**l).clone()), Box::new((**r).clone())),
            Expr::Geq(l, r) => Expr::Geq(Box::new((**l).clone()), Box::new((**r).clone())),
            Expr::Lt(l, r) => Expr::Lt(Box::new((**l).clone()), Box::new((**r).clone())),
            Expr::Gt(l, r) => Expr::Gt(Box::new((**l).clone()), Box::new((**r).clone())),
            Expr::Eq(l, r) => Expr::Eq(Box::new((**l).clone()), Box::new((**r).clone())),
            Expr::Neq(l, r) => Expr::Neq(Box::new((**l).clone()), Box::new((**r).clone())),
            Expr::Number(n) => Expr::Number(n.clone()),
            Expr::Ident(s) => Expr::Ident(s.clone()),
            Expr::Call { name, args } => {
                let name_copy = name.clone();
                let args_copy = clone_trees(args);
                proof {
                    lemma_call_expr_view(*name, *args);
                    lemma_call_expr_view(name_copy, args_copy);
                }
                Expr::Call { name: name_copy, args: args_copy }
            },
        }
    }
}

} // verus!
