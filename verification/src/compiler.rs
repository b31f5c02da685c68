//! The code generator: from a program to C source text.

use crate::codegen::{
    args_text, binary_middle, binary_open, body_definitions, body_outcome, body_text, body_units,
    body_valid, entry_name, expr_defined, expr_text, exprs_defined, exprs_texts, for_header,
    function_outcome, function_text, joined_lines, params_text, program_text, stmt_definitions,
    stmt_outcome, stmt_text, stmt_units, stmt_valid, unit_outcome, unit_text, Env, Outcome,
    C_HEADER,
};
use crate::frame::{
    lemma_body_frame, lemma_body_outcome_fails, lemma_expr_frame,
    lemma_exprs_frame, lemma_lookup,
};
use crate::interner::{
    interned, interner_contains, interner_get, interner_get_or_intern, interner_len, interner_new,
};
use crate::types::{
    binary, lemma_block_view, lemma_call_expr_view, BinOp, Expr, ExprView, Program, Stmt, StmtView,
};
use crate::utils::{generate_function_name, is_generated_name, law_generated_names_differ};
use lasso::{Rodeo, Spur};
use std::collections::hash_map::RandomState;
use std::collections::HashMap;
use vstd::prelude::*;
use vstd::string::*;

verus! {

broadcast use vstd::std_specs::hash::group_hash_axioms;

/// Why a program cannot be generated.
#[derive(Debug, PartialEq)]
pub enum CompileError {
    /// A function of that name is defined already.
    AlreadyExists(String),
    /// A call names a function that is not defined where the call stands.
    NotDefined,
}

impl CompileError {
    /// Whether this error is what the outcome says.
    pub open spec fn reports(self, outcome: Outcome) -> bool {
        match self {
            CompileError::AlreadyExists(name) => outcome == Outcome::Redefined(name@),
            CompileError::NotDefined => outcome == Outcome::Undefined,
        }
    }

    /// The error in words.
    pub fn message(&self) -> (text: String)
        ensures
            text@ == match *self {
                CompileError::AlreadyExists(name) => "function "@ + name@ + " already exists"@,
                CompileError::NotDefined => "function must be defined"@,
            },
    {
        match self {
            CompileError::AlreadyExists(name) => {
                let mut text = String::from_str("function ");
                text.append(name.as_str());
                text.append(" already exists");
                text
            },
            CompileError::NotDefined => String::from_str("function must be defined"),
        }
    }
}

/// The state of one generation pass: the functions defined so far, each
/// with its generated name, and the text of every function finished so far.
pub struct Compiler {
    ref_env: HashMap<usize, String>,
    rodeo: Rodeo<Spur, RandomState>,
    functions: Vec<String>,
}

/// Whether `name` is the name of the entry point.
fn is_entry(name: &str) -> (b: bool)
    ensures
        b == (name@ == entry_name()),
{
    let given = String::from_str(name);
    let entry = String::from_str("main");
    given == entry
}

/// The operands of a binary node with its operator, or `None` for a leaf.
fn as_binary(e: &Expr) -> (parts: Option<(BinOp, &Box<Expr>, &Box<Expr>)>)
    ensures
        match parts {
            Some((op, lhs, rhs)) => {
                &&& e.deep_view() == binary(op, lhs.deep_view(), rhs.deep_view())
                &&& decreases_to!(*e => *lhs)
                &&& decreases_to!(*e => *rhs)
            },
            None => e is Number || e is Ident || e is Call,
        },
{
    match e {
        Expr::Add(l, r) => Some((BinOp::Add, l, r)),
        Expr::Sub(l, r) => Some((BinOp::Sub, l, r)),
        Expr::Mul(l, r) => Some((BinOp::Mul, l, r)),
        Expr::Div(l, r) => Some((BinOp::Div, l, r)),
        Expr::Pow(l, r) => Some((BinOp::Pow, l, r)),
        Expr::Mod(l, r) => Some((BinOp::Mod, l, r)),
        Expr::Leq(l, r) => Some((BinOp::Leq, l, r)),
        Expr::Geq(l, r) => Some((BinOp::Geq, l, r)),
        Expr::Lt(l, r) => Some((BinOp::Lt, l, r)),
        Expr::Gt(l, r) => Some((BinOp::Gt, l, r)),
        Expr::Eq(l, r) => Some((BinOp::Eq, l, r)),
        Expr::Neq(l, r) => Some((BinOp::Neq, l, r)),
        _ => None,
    }
}

/// The text of a binary node over the texts of its operands.
fn binary_string(op: BinOp, lhs: &str, rhs: &str) -> (text: String)
    ensures
        text@ == binary_open(op) + lhs@ + binary_middle(op) + rhs@ + ")"@,
{
    let mut text = match op {
        BinOp::Pow => String::from_str("pow("),
        BinOp::Mod => String::from_str("((int)"),
        _ => String::from_str("("),
    };
    text.append(lhs);
    match op {
        BinOp::Add => text.append("+"),
        BinOp::Sub => text.append("-"),
        BinOp::Mul => text.append("*"),
        BinOp::Div => text.append("/"),
        BinOp::Pow => text.append(","),
        BinOp::Mod => text.append("%(int)"),
        BinOp::Leq => text.append("<="),
        BinOp::Geq => text.append(">="),
        BinOp::Lt => text.append("<"),
        BinOp::Gt => text.append(">"),
        BinOp::Eq => text.append("=="),
        BinOp::Neq => text.append("!="),
    }
    text.append(rhs);
    text.append(")");
    text
}

/// The parameter list of a generated function.
fn params_string(params: &Vec<String>) -> (text: String)
    ensures
        text@ == params_text(params.deep_view(), params.len() as nat),
{
    let ghost p = params.deep_view();
    let mut text = String::new();
    let mut i: usize = 0;
    while i < params.len()
        invariant
            p == params.deep_view(),
            i <= params.len(),
            text@ == params_text(p, i as nat),
        decreases params.len() - i,
    {
        assert(p[i as int] == params[i as int]@);
        if i == 0 {
            text = String::from_str("double ");
            text.append(params[i].as_str());
        } else {
            text.append(",");
            text.append("double ");
            text.append(params[i].as_str());
        }
        i += 1;
    }
    text
}

/// The header of a `for` loop over the texts of its bounds.
fn for_header_string(ident: &str, bounds: &Vec<String>) -> (text: String)
    requires
        1 <= bounds.len() <= 3,
    ensures
        text@ == for_header(ident@, bounds.deep_view()),
{
    let ghost b = bounds.deep_view();
    assert(b[0] == bounds[0]@);
    let mut text = String::from_str("\tfor (int ");
    text.append(ident);
    if bounds.len() == 1 {
        text.append("=0;");
        text.append(ident);
        text.append("<");
        text.append(bounds[0].as_str());
        text.append(";");
        text.append(ident);
        text.append("++){\n");
    } else {
        assert(b[1] == bounds[1]@);
        text.append("=(int)");
        text.append(bounds[0].as_str());
        text.append(";");
        text.append(bounds[0].as_str());
        text.append(">");
        text.append(bounds[1].as_str());
        text.append("?(int)");
        text.append(ident);
        text.append(">(int)");
        text.append(bounds[1].as_str());
        text.append(":(int)");
        text.append(ident);
        text.append("<(int)");
        text.append(bounds[1].as_str());
        text.append(";");
        if bounds.len() == 2 {
            text.append(bounds[0].as_str());
            text.append(">");
            text.append(bounds[1].as_str());
            text.append("?");
            text.append(ident);
            text.append("--:");
            text.append(ident);
            text.append("++){\n");
        } else {
            assert(b[2] == bounds[2]@);
            text.append(ident);
            text.append("+=(int)");
            text.append(bounds[2].as_str());
            text.append("){\n");
        }
    }
    text
}

/// The texts, separated by line breaks.
fn join_lines(units: &Vec<String>) -> (text: String)
    ensures
        text@ == joined_lines(units.deep_view(), units.len() as nat),
{
    let ghost u = units.deep_view();
    let mut text = String::new();
    let mut i: usize = 0;
    while i < units.len()
        invariant
            u == units.deep_view(),
            i <= units.len(),
            text@ == joined_lines(u, i as nat),
        decreases units.len() - i,
    {
        assert(u[i as int] == units[i as int]@);
        if i == 0 {
            text = units[i].clone();
        } else {
            text.append("\n");
            text.append(units[i].as_str());
        }
        i += 1;
    }
    text
}

/// Whether every generated name in the table is its source name with a
/// unique part behind it: an underscore and sixteen letters and digits.
pub open spec fn names_generated(env: Env) -> bool {
    forall|name: Seq<char>| #[trigger]
        env.dom().contains(name) ==> is_generated_name(env[name], name)
}

/// The sum of two counts, or the largest count where the sum is larger.
fn saturating_sum(a: usize, b: usize) -> (sum: usize)
    ensures
        sum == if a + b <= usize::MAX {
            a + b
        } else {
            usize::MAX as int
        },
{
    if a > usize::MAX - b {
        usize::MAX
    } else {
        a + b
    }
}

/// A count as far as a `usize` can hold it.
pub open spec fn saturated(n: nat) -> usize {
    if n <= usize::MAX {
        n as usize
    } else {
        usize::MAX
    }
}

/// Whether a statement can be generated: whether every `for` statement in
/// it has one, two or three bounds.
pub fn is_valid_stmt(stmt: &Stmt) -> (ok: bool)
    ensures
        ok == stmt_valid(stmt.deep_view()),
    decreases stmt, 0nat,
{
    let ghost s = stmt.deep_view();
    match stmt {
        Stmt::FunctionDefinition { name, args, body } => {
            proof {
                lemma_block_view(*body);
                assert(s->FunctionDefinition_body == body.deep_view());
            }
            is_valid_program(body)
        },
        Stmt::IfStatement { cond, body, branch } => {
            proof {
                lemma_block_view(*body);
                assert(s->IfStatement_body == body.deep_view());
            }
            if !is_valid_program(body) {
                return false;
            }
            match branch {
                Some(other) => {
                    proof {
                        lemma_block_view(*other);
                        assert(s->branch == Some(other.deep_view()));
                    }
                    is_valid_program(other)
                },
                None => true,
            }
        },
        Stmt::For { body, ident, exprs } => {
            proof {
                lemma_block_view(*body);
                assert(s->For_body == body.deep_view());
                assert(s->exprs == exprs.deep_view());
            }
            1 <= exprs.len() && exprs.len() <= 3 && is_valid_program(body)
        },
        Stmt::While { body, expr } => {
            proof {
                lemma_block_view(*body);
                assert(s->While_body == body.deep_view());
            }
            is_valid_program(body)
        },
        _ => true,
    }
}

/// Whether every statement of a block can be generated.
pub fn is_valid_program(prog: &Program) -> (ok: bool)
    ensures
        ok == body_valid(prog.deep_view()),
    decreases prog, 1nat,
{
    let ghost p = prog.deep_view();
    let mut i: usize = 0;
    while i < prog.len()
        invariant
            p == prog.deep_view(),
            i <= prog.len(),
            forall|k: int| 0 <= k < i ==> stmt_valid(#[trigger] p[k]),
        decreases prog.len() - i,
    {
        assert(p[i as int] == prog[i as int].deep_view());
        if !is_valid_stmt(&prog[i]) {
            return false;
        }
        i += 1;
    }
    true
}

/// The number of function definitions in a statement, nested ones
/// included, as far as a `usize` can hold it.
pub fn count_stmt_definitions(stmt: &Stmt) -> (n: usize)
    ensures
        n == saturated(stmt_definitions(stmt.deep_view())),
    decreases stmt, 0nat,
{
    let ghost s = stmt.deep_view();
    match stmt {
        Stmt::FunctionDefinition { name, args, body } => {
            proof {
                lemma_block_view(*body);
                assert(s->FunctionDefinition_body == body.deep_view());
            }
            saturating_sum(1, count_definitions(body))
        },
        Stmt::IfStatement { cond, body, branch } => {
            proof {
                lemma_block_view(*body);
                assert(s->IfStatement_body == body.deep_view());
            }
            let first = count_definitions(body);
            match branch {
                Some(other) => {
                    proof {
                        lemma_block_view(*other);
                        assert(s->branch == Some(other.deep_view()));
                    }
                    saturating_sum(first, count_definitions(other))
                },
                None => first,
            }
        },
        Stmt::For { body, ident, exprs } => {
            proof {
                lemma_block_view(*body);
                assert(s->For_body == body.deep_view());
            }
            count_definitions(body)
        },
        Stmt::While { body, expr } => {
            proof {
                lemma_block_view(*body);
                assert(s->While_body == body.deep_view());
            }
            count_definitions(body)
        },
        _ => 0,
    }
}

/// The number of function definitions in a block, nested ones included, as
/// far as a `usize` can hold it.
pub fn count_definitions(prog: &Program) -> (n: usize)
    ensures
        n == saturated(body_definitions(prog.deep_view(), prog.len() as nat)),
    decreases prog, 1nat,
{
    let ghost p = prog.deep_view();
    let mut n: usize = 0;
    let mut i: usize = 0;
    while i < prog.len()
        invariant
            p == prog.deep_view(),
            i <= prog.len(),
            n == saturated(body_definitions(p, i as nat)),
        decreases prog.len() - i,
    {
        assert(p[i as int] == prog[i as int].deep_view());
        n = saturating_sum(n, count_stmt_definitions(&prog[i]));
        i += 1;
    }
    n
}

/// The first statements of a block hold no more definitions than the whole
/// block.
proof fn lemma_definitions_grow(body: Seq<StmtView>, n: nat, m: nat)
    requires
        n <= m <= body.len(),
    ensures
        body_definitions(body, n) <= body_definitions(body, m),
    decreases m,
{
    if m > n {
        lemma_definitions_grow(body, n, (m - 1) as nat);
    }
}

impl Compiler {
    /// Whether the state is in order: no name is held twice, there are at
    /// most `u32::MAX` names, and every name has its generated name.
    pub closed spec fn wf(&self) -> bool {
        let names = interned(self.rodeo);
        &&& names.no_duplicates()
        &&& names.len() <= u32::MAX
        &&& forall|k: int|
            0 <= k < names.len() ==> #[trigger] self.ref_env@.contains_key(k as usize)
        &&& forall|k: int|
            0 <= k < names.len() ==> is_generated_name(
                self.ref_env@[k as usize]@,
                #[trigger] names[k],
            )
    }

    /// The table of generated names: for each function defined so far, the
    /// name it bears in the generated text.
    pub closed spec fn names(&self) -> Env {
        Map::new(
            |n: Seq<char>| interned(self.rodeo).contains(n),
            |n: Seq<char>| self.ref_env@[interned(self.rodeo).index_of(n) as usize]@,
        )
    }

    /// The names of the functions defined so far.
    pub open spec fn defined(&self) -> Set<Seq<char>> {
        self.names().dom()
    }

    /// The number of functions defined so far.
    pub closed spec fn len(&self) -> nat {
        interned(self.rodeo).len()
    }

    /// The texts of the functions finished so far, in the order in which
    /// they were finished.
    pub closed spec fn units(&self) -> Seq<Seq<char>> {
        self.functions.deep_view()
    }

    /// The name held at position `k` is defined, and its generated name is
    /// the one kept for `k`.
    proof fn lemma_name_at(&self, k: int)
        requires
            self.wf(),
            0 <= k < interned(self.rodeo).len(),
        ensures
            self.names().dom().contains(interned(self.rodeo)[k]),
            self.names()[interned(self.rodeo)[k]] == self.ref_env@[k as usize]@,
            is_generated_name(self.names()[interned(self.rodeo)[k]], interned(self.rodeo)[k]),
    {
        let names = interned(self.rodeo);
        let n = names[k];
        assert(names.contains(n));
        let j = names.index_of(n);
        assert(0 <= j < names.len() && names[j] == n);
        assert(j == k);
    }

    /// Every generated name in the table is made of its source name.
    pub proof fn lemma_names_generated(&self, name: Seq<char>)
        requires
            self.wf(),
            self.defined().contains(name),
        ensures
            is_generated_name(self.names()[name], name),
    {
        let names = interned(self.rodeo);
        let k = names.index_of(name);
        assert(0 <= k < names.len() && names[k] == name);
        self.lemma_name_at(k);
    }

    /// No two functions bear the same generated name.
    pub proof fn law_names_differ(&self, first: Seq<char>, second: Seq<char>)
        requires
            self.wf(),
            self.defined().contains(first),
            self.defined().contains(second),
            first != second,
        ensures
            self.names()[first] != self.names()[second],
    {
        self.lemma_names_generated(first);
        self.lemma_names_generated(second);
        law_generated_names_differ(self.names()[first], first, self.names()[second], second);
    }

    /// A generator that has defined no function and finished none.
    pub fn new() -> (c: Self)
        ensures
            c.wf(),
            c.names() == Map::<Seq<char>, Seq<char>>::empty(),
            c.units() == Seq::<Seq<char>>::empty(),
            c.len() == 0,
    {
        let c = Self { ref_env: HashMap::new(), rodeo: interner_new(), functions: Vec::new() };
        assert(c.names() =~= Map::<Seq<char>, Seq<char>>::empty());
        assert(c.units() =~= Seq::<Seq<char>>::empty());
        c
    }

    /// The generated name of a function, or `None` for a name that is not
    /// defined.
    pub fn generated_name(&self, name: &str) -> (generated: Option<String>)
        requires
            self.wf(),
        ensures
            match generated {
                Some(g) => self.defined().contains(name@) && g@ == self.names()[name@],
                None => !self.defined().contains(name@),
            },
    {
        match interner_get(&self.rodeo, name) {
            Some(key) => {
                proof {
                    self.lemma_name_at(key as int);
                }
                let found = self.ref_env.get(&key);
                Some(found.unwrap().clone())
            },
            None => None,
        }
    }

    /// The number of functions defined so far.
    pub fn defined_count(&self) -> (n: usize)
        ensures
            n == self.len(),
    {
        interner_len(&self.rodeo)
    }

    /// The texts of the functions finished so far.
    pub fn functions(&self) -> (units: &Vec<String>)
        ensures
            units.deep_view() == self.units(),
    {
        &self.functions
    }

    /// Defines a function: keeps its name and gives it a generated name.
    fn define(&mut self, name: &str) -> (generated: String)
        requires
            old(self).wf(),
            !old(self).defined().contains(name@),
            old(self).len() < u32::MAX,
        ensures
            final(self).wf(),
            final(self).names() == old(self).names().insert(name@, generated@),
            final(self).units() == old(self).units(),
            final(self).len() == old(self).len() + 1,
            is_generated_name(generated@, name@),
    {
        let ghost before = interned(self.rodeo);
        let ghost table = self.ref_env@;
        let key = interner_get_or_intern(&mut self.rodeo, name);
        let generated = generate_function_name(name);
        self.ref_env.insert(key, generated.clone());
        proof {
            let after = interned(self.rodeo);
            assert(after == before.push(name@));
            assert(after.no_duplicates());
            assert forall|k: int| 0 <= k < after.len() implies is_generated_name(
                self.ref_env@[k as usize]@,
                #[trigger] after[k],
            ) by {
                if k < before.len() {
                    assert(table.contains_key(k as usize));
                    assert(after[k] == before[k]);
                }
            }
            assert forall|k: int| 0 <= k < after.len() implies #[trigger] self.ref_env@.contains_key(
                k as usize,
            ) by {
                if k < before.len() {
                    assert(table.contains_key(k as usize));
                }
            }
            assert(self.wf());
            assert forall|n: Seq<char>| #[trigger]
                old(self).names().insert(name@, generated@).dom().contains(
                    n,
                ) implies self.names().dom().contains(n) && self.names()[n] == old(
                self,
            ).names().insert(name@, generated@)[n] by {
                if n == name@ {
                    assert(after[before.len() as int] == n);
                    self.lemma_name_at(before.len() as int);
                } else {
                    let k = before.index_of(n);
                    assert(before.contains(n));
                    assert(0 <= k < before.len() && before[k] == n);
                    old(self).lemma_name_at(k);
                    assert(after[k] == n);
                    self.lemma_name_at(k);
                }
            }
            assert forall|n: Seq<char>| #[trigger]
                self.names().dom().contains(n) implies old(self).names().insert(
                name@,
                generated@,
            ).dom().contains(n) by {
                let k = after.index_of(n);
                assert(after.contains(n));
                assert(0 <= k < after.len() && after[k] == n);
                if k < before.len() {
                    assert(before[k] == n);
                }
            }
            assert(self.names() =~= old(self).names().insert(name@, generated@));
        }
        generated
    }

    /// The text of an expression. Every function that it calls must be
    /// defined.
    pub fn compile_expr(&self, expr: &Box<Expr>) -> (result: Result<String, CompileError>)
        requires
            self.wf(),
        ensures
            match result {
                Ok(text) => expr_defined(expr.deep_view(), self.defined()) && text@ == expr_text(
                    expr.deep_view(),
                    self.names(),
                ),
                Err(e) => !expr_defined(expr.deep_view(), self.defined()) && e
                    == CompileError::NotDefined,
            },
        decreases expr,
    {
        match as_binary(&**expr) {
            Some((op, lhs, rhs)) => {
                let left = match self.compile_expr(lhs) {
                    Ok(text) => text,
                    Err(e) => {
                        return Err(e);
                    },
                };
                let right = match self.compile_expr(rhs) {
                    Ok(text) => text,
                    Err(e) => {
                        return Err(e);
                    },
                };
                Ok(binary_string(op, left.as_str(), right.as_str()))
            },
            None => match &**expr {
                Expr::Number(n) => Ok(n.clone()),
                Expr::Ident(s) => Ok(s.clone()),
                Expr::Call { name, args } => {
                    proof {
                        lemma_call_expr_view(*name, *args);
                    }
                    let key = match interner_get(&self.rodeo, name.as_str()) {
                        Some(key) => key,
                        None => {
                            return Err(CompileError::NotDefined);
                        },
                    };
                    proof {
                        self.lemma_name_at(key as int);
                    }
                    let ghost a = args.deep_view();
                    let mut joined = String::new();
                    let mut i: usize = 0;
                    while i < args.len()
                        invariant
                            self.wf(),
                            a == args.deep_view(),
                            expr.deep_view() == (ExprView::Call { name: name@, args: a }),
                            decreases_to!(expr => args),
                            i <= args.len(),
                            joined@ == args_text(a, self.names(), i as nat),
                            forall|j: int|
                                0 <= j < i ==> expr_defined(#[trigger] a[j], self.defined()),
                        decreases args.len() - i,
                    {
                        assert(a[i as int] == args[i as int].deep_view());
                        let text = match self.compile_expr(&args[i]) {
                            Ok(text) => text,
                            Err(e) => {
                                proof {
                                    let call = ExprView::Call { name: name@, args: a };
                                    assert(call->args[i as int] == a[i as int]);
                                }
                                return Err(e);
                            },
                        };
                        if i == 0 {
                            joined = text;
                        } else {
                            joined.append(",");
                            joined.append(text.as_str());
                        }
                        i += 1;
                    }
                    let mut text = self.ref_env.get(&key).unwrap().clone();
                    text.append("(");
                    text.append(joined.as_str());
                    text.append(")");
                    Ok(text)
                },
                _ => unreached(),
            },
        }
    }

    /// The texts of the bounds of a `for` loop.
    fn compile_bounds(&self, exprs: &Vec<Box<Expr>>) -> (result: Result<Vec<String>, CompileError>)
        requires
            self.wf(),
        ensures
            match result {
                Ok(texts) => exprs_defined(exprs.deep_view(), self.defined()) && texts.deep_view()
                    == exprs_texts(exprs.deep_view(), self.names()),
                Err(e) => !exprs_defined(exprs.deep_view(), self.defined()) && e
                    == CompileError::NotDefined,
            },
    {
        let ghost x = exprs.deep_view();
        let mut texts: Vec<String> = Vec::new();
        let mut i: usize = 0;
        while i < exprs.len()
            invariant
                self.wf(),
                x == exprs.deep_view(),
                i <= exprs.len(),
                texts.len() == i,
                forall|j: int| 0 <= j < i ==> expr_defined(#[trigger] x[j], self.defined()),
                forall|j: int| 0 <= j < i ==> (#[trigger] texts[j])@ == expr_text(x[j], self.names()),
            decreases exprs.len() - i,
        {
            assert(x[i as int] == exprs[i as int].deep_view());
            match self.compile_expr(&exprs[i]) {
                Ok(text) => {
                    texts.push(text);
                },
                Err(e) => {
                    return Err(e);
                },
            }
            i += 1;
        }
        assert(texts.deep_view() =~= exprs_texts(x, self.names()));
        Ok(texts)
    }

    /// What a statement needs before it is generated.
    pub open spec fn stmt_ready(self, s: StmtView) -> bool {
        &&& self.wf()
        &&& stmt_valid(s)
        &&& self.len() + stmt_definitions(s) <= u32::MAX
    }

    /// What holds once a statement was generated from the state `before`:
    /// the table and the list of finished functions have only grown; a
    /// definition of a name that was defined already has changed nothing; on
    /// success the names then defined, the text and the functions set aside
    /// are those of the statement under the table as it is now; on failure
    /// the error is the one that the statement ends with.
    pub open spec fn stmt_done(
        self,
        before: Self,
        s: StmtView,
        as_result: bool,
        result: Result<String, CompileError>,
    ) -> bool {
        &&& self.wf()
        &&& before.names().submap_of(self.names())
        &&& before.units().is_prefix_of(self.units())
        &&& self.len() <= before.len() + stmt_definitions(s)
        &&& (s is FunctionDefinition && before.defined().contains(s->FunctionDefinition_name)
            ==> self.units() == before.units() && self.names() == before.names())
        &&& match result {
            Ok(text) => {
                &&& stmt_outcome(s, before.defined()) == Outcome::Done(self.defined())
                &&& text@ == stmt_text(s, self.names(), as_result)
                &&& self.units() == before.units() + stmt_units(s, self.names())
            },
            Err(e) => e.reports(stmt_outcome(s, before.defined())),
        }
    }

    /// An expression statement: a `return` where it gives the value of the
    /// function, else a call that prints the value.
    fn compile_expression(&self, expr: &Box<Expr>, as_result: bool) -> (result: Result<
        String,
        CompileError,
    >)
        requires
            self.wf(),
        ensures
            self.stmt_done(*self, StmtView::Expression(expr.deep_view()), as_result, result),
    {
        let value = match self.compile_expr(expr) {
            Ok(text) => text,
            Err(e) => {
                return Err(e);
            },
        };
        let mut text = if as_result {
            String::from_str("\treturn ")
        } else {
            String::from_str("\tprint_number(")
        };
        text.append(value.as_str());
        if as_result {
            text.append(";\n");
        } else {
            text.append(");\n");
        }
        assert(self.units() =~= self.units() + Seq::<Seq<char>>::empty());
        Ok(text)
    }

    /// A declaration: a new `double` with its first value.
    fn compile_declaration(&self, name: &String, value: &Box<Expr>) -> (result: Result<
        String,
        CompileError,
    >)
        requires
            self.wf(),
        ensures
            self.stmt_done(
                *self,
                (StmtView::Declaration { name: name@, value: value.deep_view() }),
                false,
                result,
            ),
    {
        let value = match self.compile_expr(value) {
            Ok(text) => text,
            Err(e) => {
                return Err(e);
            },
        };
        let mut text = String::from_str("\tdouble ");
        text.append(name.as_str());
        text.append("=");
        text.append(value.as_str());
        text.append(";\n");
        assert(self.units() =~= self.units() + Seq::<Seq<char>>::empty());
        Ok(text)
    }

    /// An assignment.
    fn compile_assignment(&self, name: &String, value: &Box<Expr>) -> (result: Result<
        String,
        CompileError,
    >)
        requires
            self.wf(),
        ensures
            self.stmt_done(
                *self,
                (StmtView::Assignment { name: name@, value: value.deep_view() }),
                false,
                result,
            ),
    {
        let value = match self.compile_expr(value) {
            Ok(text) => text,
            Err(e) => {
                return Err(e);
            },
        };
        let mut text = String::from_str("\t");
        text.append(name.as_str());
        text.append("=");
        text.append(value.as_str());
        text.append(";\n");
        assert(self.units() =~= self.units() + Seq::<Seq<char>>::empty());
        Ok(text)
    }

    /// A function definition: the function is finished and set aside; where
    /// the definition stood nothing is left.
    fn compile_definition(&mut self, stmt: &Stmt) -> (result: Result<String, CompileError>)
        requires
            stmt is FunctionDefinition,
            old(self).stmt_ready(stmt.deep_view()),
        ensures
            final(self).stmt_done(*old(self), stmt.deep_view(), false, result),
        decreases stmt, 0nat,
    {
        let ghost s = stmt.deep_view();
        let ghost units0 = self.units();
        match stmt {
            Stmt::FunctionDefinition { name, args, body } => {
                proof {
                    lemma_block_view(*body);
                    assert(s->FunctionDefinition_body == body.deep_view());
                    assert(body_valid(s->FunctionDefinition_body));
                }
                let unit = match self.compile_function(body, name.as_str(), args) {
                    Ok(text) => text,
                    Err(e) => {
                        return Err(e);
                    },
                };
                let ghost units1 = self.units();
                self.functions.push(unit);
                assert(self.units() =~= units1.push(unit@));
                assert(self.units() =~= units0 + stmt_units(s, self.names()));
                Ok(String::new())
            },
            _ => unreached(),
        }
    }

    /// A conditional: the condition, the block, and the other block where
    /// there is one.
    fn compile_if(&mut self, stmt: &Stmt) -> (result: Result<String, CompileError>)
        requires
            stmt is IfStatement,
            old(self).stmt_ready(stmt.deep_view()),
        ensures
            final(self).stmt_done(*old(self), stmt.deep_view(), false, result),
        decreases stmt, 0nat,
    {
        let ghost s = stmt.deep_view();
        let ghost env0 = self.names();
        let ghost defs0 = self.defined();
        let ghost units0 = self.units();
        match stmt {
            Stmt::IfStatement { cond, body, branch } => {
                proof {
                    lemma_block_view(*body);
                    assert(s->IfStatement_body == body.deep_view());
                    assert(body_valid(s->IfStatement_body));
                }
                let cond_text = match self.compile_expr(cond) {
                    Ok(text) => text,
                    Err(e) => {
                        return Err(e);
                    },
                };
                let body_text = match self.compile_body(body, false) {
                    Ok(text) => text,
                    Err(e) => {
                        return Err(e);
                    },
                };
                let ghost env1 = self.names();
                let mut text = String::from_str("\tif (");
                text.append(cond_text.as_str());
                text.append("){\n");
                text.append(body_text.as_str());
                match branch {
                    Some(other) => {
                        proof {
                            lemma_block_view(*other);
                            assert(s->branch == Some(other.deep_view()));
                            assert(body_valid(other.deep_view()));
                        }
                        let other_text = match self.compile_body(other, false) {
                            Ok(text) => text,
                            Err(e) => {
                                proof {
                                    vstd::map_lib::lemma_submap_of_trans(env0, env1, self.names());
                                }
                                return Err(e);
                            },
                        };
                        text.append("\t} else {\n");
                        text.append(other_text.as_str());
                        text.append("\t}\n");
                        proof {
                            let env2 = self.names();
                            vstd::map_lib::lemma_submap_of_trans(env0, env1, env2);
                            lemma_expr_frame(s->cond, defs0, env0, env2);
                            lemma_body_frame(
                                s->IfStatement_body,
                                defs0,
                                env1,
                                env2,
                                false,
                                body.len() as nat,
                            );
                            assert(self.units() =~= units0 + stmt_units(s, env2));
                        }
                    },
                    None => {
                        text.append("\t}\n");
                        proof {
                            lemma_expr_frame(s->cond, defs0, env0, env1);
                        }
                    },
                }
                Ok(text)
            },
            _ => unreached(),
        }
    }

    /// A `for` loop: its bounds, then its block.
    fn compile_for(&mut self, stmt: &Stmt) -> (result: Result<String, CompileError>)
        requires
            stmt is For,
            old(self).stmt_ready(stmt.deep_view()),
        ensures
            final(self).stmt_done(*old(self), stmt.deep_view(), false, result),
        decreases stmt, 0nat,
    {
        let ghost s = stmt.deep_view();
        let ghost env0 = self.names();
        let ghost defs0 = self.defined();
        match stmt {
            Stmt::For { body, ident, exprs } => {
                proof {
                    lemma_block_view(*body);
                    assert(s->For_body == body.deep_view());
                    assert(s->exprs == exprs.deep_view());
                    assert(body_valid(s->For_body));
                    assert(1 <= s->exprs.len() <= 3);
                }
                let bounds = match self.compile_bounds(exprs) {
                    Ok(texts) => texts,
                    Err(e) => {
                        return Err(e);
                    },
                };
                assert(bounds.deep_view().len() == exprs.deep_view().len());
                let body_text = match self.compile_body(body, false) {
                    Ok(text) => text,
                    Err(e) => {
                        return Err(e);
                    },
                };
                let mut text = for_header_string(ident.as_str(), &bounds);
                text.append(body_text.as_str());
                text.append("\t}\n");
                proof {
                    lemma_exprs_frame(s->exprs, defs0, env0, self.names());
                }
                Ok(text)
            },
            _ => unreached(),
        }
    }

    /// A `while` loop: its condition, then its block.
    fn compile_while(&mut self, stmt: &Stmt) -> (result: Result<String, CompileError>)
        requires
            stmt is While,
            old(self).stmt_ready(stmt.deep_view()),
        ensures
            final(self).stmt_done(*old(self), stmt.deep_view(), false, result),
        decreases stmt, 0nat,
    {
        let ghost s = stmt.deep_view();
        let ghost env0 = self.names();
        let ghost defs0 = self.defined();
        match stmt {
            Stmt::While { body, expr } => {
                proof {
                    lemma_block_view(*body);
                    assert(s->While_body == body.deep_view());
                    assert(body_valid(s->While_body));
                }
                let cond_text = match self.compile_expr(expr) {
                    Ok(text) => text,
                    Err(e) => {
                        return Err(e);
                    },
                };
                let body_text = match self.compile_body(body, false) {
                    Ok(text) => text,
                    Err(e) => {
                        return Err(e);
                    },
                };
                let mut text = String::from_str("\twhile (");
                text.append(cond_text.as_str());
                text.append("){\n");
                text.append(body_text.as_str());
                text.append("\t}\n");
                proof {
                    lemma_expr_frame(s->expr, defs0, env0, self.names());
                }
                Ok(text)
            },
            _ => unreached(),
        }
    }

    /// Generates one statement: the text that it leaves where it stands,
    /// while the functions defined in it are finished and set aside.
    /// `as_result` tells whether an expression statement gives the value of
    /// the function.
    pub fn compile_stmt(&mut self, stmt: &Stmt, as_result: bool) -> (result: Result<
        String,
        CompileError,
    >)
        requires
            old(self).wf(),
            stmt_valid(stmt.deep_view()),
            old(self).len() + stmt_definitions(stmt.deep_view()) <= u32::MAX,
        ensures
            final(self).wf(),
            old(self).names().submap_of(final(self).names()),
            old(self).units().is_prefix_of(final(self).units()),
            final(self).len() <= old(self).len() + stmt_definitions(stmt.deep_view()),
            stmt.deep_view() is FunctionDefinition && old(self).defined().contains(
                stmt.deep_view()->FunctionDefinition_name,
            ) ==> final(self).units() == old(self).units() && final(self).names() == old(
                self,
            ).names(),
            match result {
                Ok(text) => {
                    &&& stmt_outcome(stmt.deep_view(), old(self).defined()) == Outcome::Done(
                        final(self).defined(),
                    )
                    &&& text@ == stmt_text(stmt.deep_view(), final(self).names(), as_result)
                    &&& final(self).units() == old(self).units() + stmt_units(
                        stmt.deep_view(),
                        final(self).names(),
                    )
                },
                Err(e) => e.reports(stmt_outcome(stmt.deep_view(), old(self).defined())),
            },
        decreases stmt, 1nat,
    {
        match stmt {
            Stmt::Expression(expr) => self.compile_expression(expr, as_result),
            Stmt::Declaration { name, value } => self.compile_declaration(name, value),
            Stmt::Assignment { name, value } => self.compile_assignment(name, value),
            Stmt::FunctionDefinition { .. } => self.compile_definition(stmt),
            Stmt::IfStatement { .. } => self.compile_if(stmt),
            Stmt::For { .. } => self.compile_for(stmt),
            Stmt::While { .. } => self.compile_while(stmt),
        }
    }

    /// Generates a block, statement by statement. In the body of a function
    /// the last statement returns its value if it is an expression; every
    /// other expression statement prints its value.
    pub fn compile_body(&mut self, body: &Program, function_body: bool) -> (result: Result<
        String,
        CompileError,
    >)
        requires
            old(self).wf(),
            body_valid(body.deep_view()),
            old(self).len() + body_definitions(body.deep_view(), body.len() as nat) <= u32::MAX,
        ensures
            final(self).wf(),
            old(self).names().submap_of(final(self).names()),
            old(self).units().is_prefix_of(final(self).units()),
            final(self).len() <= old(self).len() + body_definitions(
                body.deep_view(),
                body.len() as nat,
            ),
            match result {
                Ok(text) => {
                    &&& body_outcome(body.deep_view(), old(self).defined(), body.len() as nat)
                        == Outcome::Done(final(self).defined())
                    &&& text@ == body_text(
                        body.deep_view(),
                        final(self).names(),
                        function_body,
                        body.len() as nat,
                    )
                    &&& final(self).units() == old(self).units() + body_units(
                        body.deep_view(),
                        final(self).names(),
                        body.len() as nat,
                    )
                },
                Err(e) => e.reports(
                    body_outcome(body.deep_view(), old(self).defined(), body.len() as nat),
                ),
            },
        decreases body, 1nat,
    {
        let ghost b = body.deep_view();
        let ghost env0 = self.names();
        let ghost defs0 = self.defined();
        let ghost units0 = self.units();
        let ghost len0 = self.len();
        let mut program = String::new();
        let count = body.len();
        let mut i: usize = 0;
        assert(self.units() =~= units0 + body_units(b, self.names(), 0));
        while i < count
            invariant
                b == body.deep_view(),
                count == body.len(),
                i <= count,
                self.wf(),
                body_valid(b),
                env0 == old(self).names(),
                defs0 == old(self).defined(),
                units0 == old(self).units(),
                len0 == old(self).len(),
                len0 + body_definitions(b, count as nat) <= u32::MAX,
                env0.submap_of(self.names()),
                self.len() <= len0 + body_definitions(b, i as nat),
                body_outcome(b, defs0, i as nat) == Outcome::Done(self.defined()),
                program@ == body_text(b, self.names(), function_body, i as nat),
                self.units() == units0 + body_units(b, self.names(), i as nat),
            decreases count - i,
        {
            let ghost env1 = self.names();
            let ghost units1 = self.units();
            assert(b[i as int] == body[i as int].deep_view());
            proof {
                lemma_definitions_grow(b, (i + 1) as nat, count as nat);
            }
            let text = match self.compile_stmt(&body[i], function_body && i == count - 1) {
                Ok(text) => text,
                Err(e) => {
                    proof {
                        lemma_body_outcome_fails(b, defs0, (i + 1) as nat, count as nat);
                        vstd::map_lib::lemma_submap_of_trans(env0, env1, self.names());
                    }
                    return Err(e);
                },
            };
            program.append(text.as_str());
            proof {
                let env2 = self.names();
                vstd::map_lib::lemma_submap_of_trans(env0, env1, env2);
                lemma_body_frame(b, defs0, env1, env2, function_body, i as nat);
                assert(self.units() =~= units0 + body_units(b, env2, (i + 1) as nat));
            }
            i += 1;
        }
        Ok(program)
    }

    /// Generates a function that is defined under `fn_name` and given a
    /// generated name, whatever the name is. The functions defined in its
    /// body are finished and set aside; the text of the function itself is
    /// returned.
    ///
    /// A name that is defined already is an error, found before anything is
    /// changed; so is a call of a function that is not defined where the call
    /// stands. On an error the functions set aside before it stay. The table
    /// of names holds at most `u32::MAX` names: the functions defined so far
    /// and those that the program defines must not be more.
    pub fn compile_function(&mut self, prog: &Program, fn_name: &str, args: &Vec<String>) -> (result:
        Result<String, CompileError>)
        requires
            old(self).wf(),
            body_valid(prog.deep_view()),
            old(self).len() + 1 + body_definitions(prog.deep_view(), prog.len() as nat)
                <= u32::MAX,
        ensures
            final(self).wf(),
            old(self).names().submap_of(final(self).names()),
            old(self).units().is_prefix_of(final(self).units()),
            final(self).len() <= old(self).len() + 1 + body_definitions(
                prog.deep_view(),
                prog.len() as nat,
            ),
            old(self).defined().contains(fn_name@) ==> final(self).units() == old(self).units()
                && final(self).names() == old(self).names(),
            match result {
                Ok(text) => {
                    &&& function_outcome(fn_name@, prog.deep_view(), old(self).defined())
                        == Outcome::Done(final(self).defined())
                    &&& text@ == function_text(
                        fn_name@,
                        args.deep_view(),
                        prog.deep_view(),
                        final(self).names(),
                    )
                    &&& final(self).units() == old(self).units() + body_units(
                        prog.deep_view(),
                        final(self).names(),
                        prog.len() as nat,
                    )
                },
                Err(e) => e.reports(
                    function_outcome(fn_name@, prog.deep_view(), old(self).defined()),
                ),
            },
        decreases prog, 2nat,
    {
        let ghost env0 = self.names();
        if interner_contains(&self.rodeo, fn_name) {
            return Err(CompileError::AlreadyExists(String::from_str(fn_name)));
        }
        let generated = self.define(fn_name);
        let params = params_string(args);
        let mut program = String::from_str("double ");
        program.append(generated.as_str());
        program.append("(");
        program.append(params.as_str());
        program.append("){\n");
        let ghost env1 = self.names();
        assert(env0.submap_of(env1));
        let body_text = match self.compile_body(prog, true) {
            Ok(text) => text,
            Err(e) => {
                proof {
                    vstd::map_lib::lemma_submap_of_trans(env0, env1, self.names());
                }
                return Err(e);
            },
        };
        program.append(body_text.as_str());
        program.append("}\n");
        proof {
            vstd::map_lib::lemma_submap_of_trans(env0, env1, self.names());
            assert(env1.dom().contains(fn_name@));
            lemma_lookup(env1, self.names(), fn_name@);
        }
        Ok(program)
    }

    /// Generates the unit that the caller asks for: the entry point where
    /// `fn_name` is `main`, which is not defined by that, else a function
    /// that is defined under `fn_name` and given a generated name. The
    /// functions defined in its body are finished and set aside; the text of
    /// the unit itself is returned.
    ///
    /// A name that is defined already is an error, found before anything is
    /// changed; so is a call of a function that is not defined where the call
    /// stands. On an error the functions set aside before it stay. The table
    /// of names holds at most `u32::MAX` names: the functions defined so far
    /// and those that the program defines must not be more.
    pub fn compile_program(&mut self, prog: &Program, fn_name: &str, args: &Vec<String>) -> (result:
        Result<String, CompileError>)
        requires
            old(self).wf(),
            body_valid(prog.deep_view()),
            old(self).len() + 1 + body_definitions(prog.deep_view(), prog.len() as nat)
                <= u32::MAX,
        ensures
            final(self).wf(),
            old(self).names().submap_of(final(self).names()),
            old(self).units().is_prefix_of(final(self).units()),
            final(self).len() <= old(self).len() + 1 + body_definitions(
                prog.deep_view(),
                prog.len() as nat,
            ),
            old(self).defined().contains(fn_name@) ==> final(self).units() == old(self).units()
                && final(self).names() == old(self).names(),
            match result {
                Ok(text) => {
                    &&& unit_outcome(fn_name@, prog.deep_view(), old(self).defined())
                        == Outcome::Done(final(self).defined())
                    &&& text@ == unit_text(
                        fn_name@,
                        args.deep_view(),
                        prog.deep_view(),
                        final(self).names(),
                    )
                    &&& final(self).units() == old(self).units() + body_units(
                        prog.deep_view(),
                        final(self).names(),
                        prog.len() as nat,
                    )
                },
                Err(e) => e.reports(unit_outcome(fn_name@, prog.deep_view(), old(self).defined())),
            },
    {
        if !is_entry(fn_name) {
            return self.compile_function(prog, fn_name, args);
        }
        if interner_contains(&self.rodeo, fn_name) {
            return Err(CompileError::AlreadyExists(String::from_str(fn_name)));
        }
        let mut program = String::from_str("int main(){\n");
        let body_text = match self.compile_body(prog, false) {
            Ok(text) => text,
            Err(e) => {
                return Err(e);
            },
        };
        program.append(body_text.as_str());
        program.append("\treturn 0;\n");
        program.append("}\n");
        Ok(program)
    }

    /// Generates a whole program: the header, every function hoisted out of
    /// it, and the entry point made of its top-level statements. The
    /// generated names are drawn at random, so the text is that of the
    /// program under some table of generated names.
    pub fn compile(prog: &Program) -> (result: Result<String, CompileError>)
        requires
            body_valid(prog.deep_view()),
            body_definitions(prog.deep_view(), prog.len() as nat) < u32::MAX,
        ensures
            match result {
                Ok(text) => exists|env: Env|
                    {
                        &&& #[trigger] names_generated(env)
                        &&& body_outcome(prog.deep_view(), Set::empty(), prog.len() as nat)
                            == Outcome::Done(env.dom())
                        &&& text@ == program_text(prog.deep_view(), env)
                    },
                Err(e) => e.reports(
                    body_outcome(prog.deep_view(), Set::empty(), prog.len() as nat),
                ),
            },
    {
        let mut c = Compiler::new();
        let no_params: Vec<String> = Vec::new();
        assert(c.defined() =~= Set::<Seq<char>>::empty());
        assert(no_params.deep_view() =~= Seq::<Seq<char>>::empty());
        let code = match c.compile_program(prog, "main", &no_params) {
            Ok(text) => text,
            Err(e) => {
                return Err(e);
            },
        };
        let functions = join_lines(&c.functions);
        let mut program = String::from_str(C_HEADER);
        program.append("\n");
        program.append(functions.as_str());
        program.append("\n");
        program.append(code.as_str());
        proof {
            let env = c.names();
            assert forall|name: Seq<char>| #[trigger]
                env.dom().contains(name) implies is_generated_name(env[name], name) by {
                c.lemma_names_generated(name);
            }
            assert(names_generated(env));
            assert(c.units() =~= body_units(prog.deep_view(), env, prog.len() as nat));
        }
        Ok(program)
    }
}

} // verus!
