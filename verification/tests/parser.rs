use cx_compiler::codegen::C_HEADER;
use cx_compiler::compiler::{count_definitions, is_valid_program, Compiler};
use cx_compiler::parser::{
    match_tag, match_ws_tag, parse, parse_declaration, parse_expr, parse_for, parse_function_def,
    parse_ident, parse_if, parse_number_end, parse_operator, parse_stmt, parse_term, parse_unary,
    program, skip_blanks,
};
use cx_compiler::types::ExprToken;
use cx_compiler::types::{Expr, Program, Stmt};

fn var(name: &str) -> Box<Expr> {
    Box::new(Expr::Ident(name.to_string()))
}

fn lit(text: &str) -> Box<Expr> {
    Box::new(Expr::Number(text.to_string()))
}

fn call(name: &str, args: Vec<Box<Expr>>) -> Box<Expr> {
    Box::new(Expr::Call { name: name.to_string(), args })
}

fn print(e: Box<Expr>) -> Stmt {
    Stmt::Expression(e)
}

#[test]
fn empty_text_is_an_empty_program() {
    assert_eq!(program(""), (vec![], 0));
    assert_eq!(program("   \n\t "), (vec![], 0));
}

#[test]
fn declaration_assignment_and_expression() {
    let source = "local x = 3\nx = x + 2\nx";
    let (statements, taken) = program(source);
    assert_eq!(taken, source.len());
    assert_eq!(
        statements,
        vec![
            Stmt::Declaration { name: "x".to_string(), value: lit("3") },
            Stmt::Assignment {
                name: "x".to_string(),
                value: Box::new(Expr::Add(var("x"), lit("2"))),
            },
            print(var("x")),
        ]
    );
}

#[test]
fn source_text_to_generated_program() {
    let statements = parse("local x = 3  x = x + 2  x");
    assert!(is_valid_program(&statements));
    let text = Compiler::compile(&statements).unwrap();
    assert_eq!(
        text,
        format!(
            "{}\n\nint main(){{\n\tdouble x=3;\n\tx=(x+2);\n\tprint_number(x);\n\treturn 0;\n}}\n",
            C_HEADER
        )
    );
}

#[test]
fn declaration_without_a_value_is_zero() {
    assert_eq!(
        parse("local x"),
        vec![Stmt::Declaration { name: "x".to_string(), value: lit("0") }]
    );
    assert_eq!(
        parse("local x local y = 1"),
        vec![
            Stmt::Declaration { name: "x".to_string(), value: lit("0") },
            Stmt::Declaration { name: "y".to_string(), value: lit("1") },
        ]
    );
}

#[test]
fn numbers_keep_their_digits() {
    assert_eq!(parse("12"), vec![print(lit("12"))]);
    assert_eq!(parse("1.50"), vec![print(lit("1.50"))]);
    assert_eq!(parse(".5"), vec![print(lit(".5"))]);
    assert_eq!(parse("007"), vec![print(lit("007"))]);
}

#[test]
fn point_without_digits_behind_it_ends_the_number() {
    let (statements, taken) = program("1. + 2");
    assert_eq!(statements, vec![print(lit("1"))]);
    assert_eq!(taken, 1);
}

#[test]
fn identifiers_are_read() {
    assert_eq!(parse("_a1"), vec![print(var("_a1"))]);
    assert_eq!(parse("a_b_2 "), vec![print(var("a_b_2"))]);
    assert_eq!(parse("A9z"), vec![print(var("A9z"))]);
}

#[test]
fn keyword_is_no_identifier() {
    assert_eq!(program("do"), (vec![], 0));
    assert_eq!(program("end"), (vec![], 0));
    assert_eq!(program("else"), (vec![], 0));
    assert_eq!(program("x + while"), (vec![print(var("x"))], 2));
}

#[test]
fn identifier_may_begin_like_a_keyword() {
    assert_eq!(
        parse("format = 1"),
        vec![Stmt::Assignment { name: "format".to_string(), value: lit("1") }]
    );
    assert_eq!(parse("iffy"), vec![print(var("iffy"))]);
    assert_eq!(parse("donut + ending"), vec![print(Box::new(Expr::Add(var("donut"), var("ending"))))]);
}

#[test]
fn operators_by_precedence() {
    assert_eq!(
        parse("a + b * c"),
        vec![print(Box::new(Expr::Add(var("a"), Box::new(Expr::Mul(var("b"), var("c"))))))]
    );
    assert_eq!(
        parse("(a + b) * c"),
        vec![print(Box::new(Expr::Mul(Box::new(Expr::Add(var("a"), var("b"))), var("c"))))]
    );
    assert_eq!(
        parse("a ^ b ^ c"),
        vec![print(Box::new(Expr::Pow(var("a"), Box::new(Expr::Pow(var("b"), var("c"))))))]
    );
    assert_eq!(
        parse("a-b-c"),
        vec![print(Box::new(Expr::Sub(var("a"), Box::new(Expr::Sub(var("b"), var("c"))))))]
    );
}

#[test]
fn every_operator_is_read() {
    let cases: Vec<(&str, Expr)> = vec![
        ("a + b", Expr::Add(var("a"), var("b"))),
        ("a - b", Expr::Sub(var("a"), var("b"))),
        ("a * b", Expr::Mul(var("a"), var("b"))),
        ("a / b", Expr::Div(var("a"), var("b"))),
        ("a ^ b", Expr::Pow(var("a"), var("b"))),
        ("a % b", Expr::Mod(var("a"), var("b"))),
        ("a <= b", Expr::Leq(var("a"), var("b"))),
        ("a >= b", Expr::Geq(var("a"), var("b"))),
        ("a < b", Expr::Lt(var("a"), var("b"))),
        ("a > b", Expr::Gt(var("a"), var("b"))),
        ("a == b", Expr::Eq(var("a"), var("b"))),
        ("a != b", Expr::Neq(var("a"), var("b"))),
    ];
    for (source, expected) in cases {
        assert_eq!(parse(source), vec![print(Box::new(expected))]);
    }
}

#[test]
fn comparison_is_not_an_assignment() {
    assert_eq!(parse("x == 1"), vec![print(Box::new(Expr::Eq(var("x"), lit("1"))))]);
    assert_eq!(
        parse("x = y == 1"),
        vec![Stmt::Assignment {
            name: "x".to_string(),
            value: Box::new(Expr::Eq(var("y"), lit("1"))),
        }]
    );
}

#[test]
fn calls_and_their_arguments() {
    assert_eq!(parse("f()"), vec![print(call("f", vec![]))]);
    assert_eq!(parse("f ( )"), vec![print(call("f", vec![]))]);
    assert_eq!(
        parse("f(x*2, y+(5/3))"),
        vec![print(call(
            "f",
            vec![
                Box::new(Expr::Mul(var("x"), lit("2"))),
                Box::new(Expr::Add(var("y"), Box::new(Expr::Div(lit("5"), lit("3"))))),
            ]
        ))]
    );
    assert_eq!(
        parse("f(g(1), h())"),
        vec![print(call("f", vec![call("g", vec![lit("1")]), call("h", vec![])]))]
    );
}

#[test]
fn call_that_is_not_closed_is_an_identifier() {
    let (statements, taken) = program("f(1");
    assert_eq!(statements, vec![print(var("f"))]);
    assert_eq!(taken, 1);
}

#[test]
fn group_that_is_not_closed_is_nothing() {
    assert_eq!(program("(a + b"), (vec![], 0));
    assert_eq!(program("a + (b"), (vec![print(var("a"))], 2));
}

#[test]
fn operator_without_a_term_is_left_behind() {
    assert_eq!(program("a + "), (vec![print(var("a"))], 2));
    assert_eq!(program("a +* b"), (vec![print(var("a"))], 2));
}

#[test]
fn for_loops_are_read() {
    assert_eq!(
        parse("for i, 10 do i end"),
        vec![Stmt::For {
            body: vec![print(var("i"))],
            ident: "i".to_string(),
            exprs: vec![lit("10")],
        }]
    );
    assert_eq!(
        parse("for i, 5, 0 do end"),
        vec![Stmt::For { body: vec![], ident: "i".to_string(), exprs: vec![lit("5"), lit("0")] }]
    );
    assert_eq!(
        parse("for k,a,b+1,2 do k k end"),
        vec![Stmt::For {
            body: vec![print(var("k")), print(var("k"))],
            ident: "k".to_string(),
            exprs: vec![var("a"), Box::new(Expr::Add(var("b"), lit("1"))), lit("2")],
        }]
    );
}

#[test]
fn for_loop_needs_one_to_three_bounds() {
    assert_eq!(program("for i do end"), (vec![], 0));
    assert_eq!(program("for i, 1, 2, 3, 4 do end"), (vec![], 0));
}

#[test]
fn while_loop_is_read() {
    assert_eq!(
        parse("while n > 0 do n = n - 1 end"),
        vec![Stmt::While {
            body: vec![Stmt::Assignment {
                name: "n".to_string(),
                value: Box::new(Expr::Sub(var("n"), lit("1"))),
            }],
            expr: Box::new(Expr::Gt(var("n"), lit("0"))),
        }]
    );
}

#[test]
fn conditionals_are_read() {
    assert_eq!(
        parse("if a do b end"),
        vec![Stmt::IfStatement { cond: var("a"), body: vec![print(var("b"))], branch: None }]
    );
    assert_eq!(
        parse("if a do b else c end"),
        vec![Stmt::IfStatement {
            cond: var("a"),
            body: vec![print(var("b"))],
            branch: Some(vec![print(var("c"))]),
        }]
    );
    assert_eq!(
        parse("if a do else end"),
        vec![Stmt::IfStatement { cond: var("a"), body: vec![], branch: Some(vec![]) }]
    );
}

#[test]
fn else_if_shares_the_end() {
    assert_eq!(
        parse("if a do 1 else if b do 2 else 3 end"),
        vec![Stmt::IfStatement {
            cond: var("a"),
            body: vec![print(lit("1"))],
            branch: Some(vec![Stmt::IfStatement {
                cond: var("b"),
                body: vec![print(lit("2"))],
                branch: Some(vec![print(lit("3"))]),
            }]),
        }]
    );
}

#[test]
fn conditional_without_end_is_nothing() {
    assert_eq!(program("if a do b"), (vec![], 0));
}

#[test]
fn function_definitions_are_read() {
    assert_eq!(
        parse("sq(x) = x * x"),
        vec![Stmt::FunctionDefinition {
            name: "sq".to_string(),
            args: vec!["x".to_string()],
            body: vec![print(Box::new(Expr::Mul(var("x"), var("x"))))],
        }]
    );
    assert_eq!(
        parse("one() = 1"),
        vec![Stmt::FunctionDefinition {
            name: "one".to_string(),
            args: vec![],
            body: vec![print(lit("1"))],
        }]
    );
    assert_eq!(
        parse("area(w, h) do local a = w * h a end"),
        vec![Stmt::FunctionDefinition {
            name: "area".to_string(),
            args: vec!["w".to_string(), "h".to_string()],
            body: vec![
                Stmt::Declaration {
                    name: "a".to_string(),
                    value: Box::new(Expr::Mul(var("w"), var("h"))),
                },
                print(var("a")),
            ],
        }]
    );
}

#[test]
fn nested_function_definitions() {
    let statements = parse("outer(x) do inner(y) = y inner(x) end outer(1)");
    assert_eq!(
        statements,
        vec![
            Stmt::FunctionDefinition {
                name: "outer".to_string(),
                args: vec!["x".to_string()],
                body: vec![
                    Stmt::FunctionDefinition {
                        name: "inner".to_string(),
                        args: vec!["y".to_string()],
                        body: vec![print(var("y"))],
                    },
                    print(call("inner", vec![var("x")])),
                ],
            },
            print(call("outer", vec![lit("1")])),
        ]
    );
    assert_eq!(count_definitions(&statements), 2);
    let text = Compiler::compile(&statements).unwrap();
    let generated = text.strip_prefix(C_HEADER).unwrap();
    assert_eq!(generated.matches("double ").count(), 4);
    assert!(text.ends_with("(1));\n\treturn 0;\n}\n"));
}

#[test]
fn call_is_not_taken_for_a_definition() {
    assert_eq!(
        parse("f(x) g(y)"),
        vec![print(call("f", vec![var("x")])), print(call("g", vec![var("y")]))]
    );
}

#[test]
fn blanks_in_front_of_an_assignment_hide_it() {
    let (statements, taken) = program(" x = 1");
    assert_eq!(statements, vec![print(var("x"))]);
    assert_eq!(taken, 3);
}

#[test]
fn what_follows_the_last_statement_is_left_aside() {
    let source = "x = 1 ) y = 2";
    let (statements, taken) = program(source);
    assert_eq!(
        statements,
        vec![Stmt::Assignment { name: "x".to_string(), value: lit("1") }]
    );
    assert_eq!(taken, 6);
    assert_eq!(parse(source), statements);
}

#[test]
fn text_that_is_not_ascii_ends_the_program() {
    let (statements, taken) = program("a\u{e9}b");
    assert_eq!(statements, vec![print(var("a"))]);
    assert_eq!(taken, 1);
}

#[test]
fn parsed_programs_can_be_generated() {
    let statements: Program = parse(
        "fact(n) do\n  if n <= 1 do\n    1\n  else\n    n * fact(n - 1)\n  end\nend\nfor i, 1, 6 do\n  fact(i)\nend\n",
    );
    assert_eq!(statements.len(), 2);
    assert!(is_valid_program(&statements));
    assert_eq!(count_definitions(&statements), 1);
    let text = Compiler::compile(&statements).unwrap();
    assert!(text.starts_with(C_HEADER));
    assert!(text.contains("\tif ((n<=1)){\n\tprint_number(1);\n\t} else {\n\tprint_number((n*"));
    assert!(text.contains("\tfor (int i=(int)1;1>6?(int)i>(int)6:(int)i<(int)6;1>6?i--:i++){\n"));
}

#[test]
fn operator_of_two_characters_is_read_whole() {
    assert_eq!(parse_operator(b"<= 1", 0), Some((ExprToken::Leq, 2)));
    assert_eq!(parse_operator(b">=1", 0), Some((ExprToken::Geq, 2)));
    assert_eq!(parse_operator(b"< 1", 0), Some((ExprToken::Lt, 1)));
    assert_eq!(parse_operator(b"> 1", 0), Some((ExprToken::Gt, 1)));
    assert_eq!(parse_operator(b"==", 0), Some((ExprToken::Eq, 2)));
    assert_eq!(parse_operator(b"!=", 0), Some((ExprToken::Neq, 2)));
    assert_eq!(parse_operator(b"a + b", 2), Some((ExprToken::Add, 3)));
    assert_eq!(parse_operator(b"= 1", 0), None);
    assert_eq!(parse_operator(b"!", 0), None);
    assert_eq!(parse_operator(b" +", 0), None);
    assert_eq!(parse_operator(b"+", 1), None);
}

#[test]
fn declaration_rule_gives_zero_without_a_value() {
    assert_eq!(
        parse_declaration(b"local x", 0),
        Some((Stmt::Declaration { name: "x".to_string(), value: lit("0") }, 7))
    );
    assert_eq!(
        parse_declaration(b"  local  x  =  2  ", 0),
        Some((Stmt::Declaration { name: "x".to_string(), value: lit("2") }, 18))
    );
    assert_eq!(
        parse_declaration(b"local x = ", 0),
        Some((Stmt::Declaration { name: "x".to_string(), value: lit("0") }, 7))
    );
    assert_eq!(parse_declaration(b"local 1", 0), None);
    assert_eq!(parse_declaration(b"x = 1", 0), None);
}

#[test]
fn words_and_blanks() {
    assert_eq!(skip_blanks(b" \t\r\n x", 0), 5);
    assert_eq!(skip_blanks(b"x  ", 0), 0);
    assert_eq!(skip_blanks(b"x  ", 1), 3);
    assert_eq!(match_tag(b"for i", 0, "for"), Some(3));
    assert_eq!(match_tag(b" for", 0, "for"), None);
    assert_eq!(match_tag(b"fo", 0, "for"), None);
    assert_eq!(match_tag(b"for", 0, ""), None);
    assert_eq!(match_ws_tag(b"  do  x", 0, "do"), Some(6));
    assert_eq!(match_ws_tag(b"do", 0, "do"), Some(2));
    assert_eq!(match_ws_tag(b"  d o", 0, "do"), None);
}

#[test]
fn identifier_and_number_rules() {
    assert_eq!(parse_ident(b"ab_1+c", 0), Some(("ab_1".to_string(), 4)));
    assert_eq!(parse_ident(b"ab_1+c", 5), Some(("c".to_string(), 6)));
    assert_eq!(parse_ident(b"_", 0), Some(("_".to_string(), 1)));
    assert_eq!(parse_ident(b"1a", 0), None);
    assert_eq!(parse_ident(b" a", 0), None);
    assert_eq!(parse_ident(b"local", 0), None);
    assert_eq!(parse_ident(b"locals", 0), Some(("locals".to_string(), 6)));
    assert_eq!(parse_ident(b"a", 1), None);
    assert_eq!(parse_number_end(b"12.5x", 0), Some(4));
    assert_eq!(parse_number_end(b".5", 0), Some(2));
    assert_eq!(parse_number_end(b"12.", 0), Some(2));
    assert_eq!(parse_number_end(b"12", 0), Some(2));
    assert_eq!(parse_number_end(b".", 0), None);
    assert_eq!(parse_number_end(b"x1", 0), None);
    assert_eq!(parse_number_end(b"x1", 1), Some(2));
}

#[test]
fn term_and_expression_rules() {
    assert_eq!(
        parse_unary(b"f(1)", 0),
        Some((
            ExprToken::Call {
                name: "f".to_string(),
                args: vec![vec![ExprToken::Number("1".to_string())]],
            },
            4
        ))
    );
    assert_eq!(parse_unary(b"(1)", 0), None);
    assert_eq!(
        parse_term(b"(a)", 0),
        Some((
            vec![ExprToken::LParen, ExprToken::Ident("a".to_string()), ExprToken::RParen],
            3
        ))
    );
    assert_eq!(
        parse_expr(b" a * ( b - 1 ) end", 0),
        Some((
            vec![
                ExprToken::Ident("a".to_string()),
                ExprToken::Mul,
                ExprToken::LParen,
                ExprToken::Ident("b".to_string()),
                ExprToken::Sub,
                ExprToken::Number("1".to_string()),
                ExprToken::RParen,
            ],
            15
        ))
    );
    assert_eq!(parse_expr(b"a b", 0), Some((vec![ExprToken::Ident("a".to_string())], 2)));
    assert_eq!(parse_expr(b"+ a", 0), None);
    assert_eq!(parse_expr(b"", 0), None);
}

#[test]
fn statement_rules() {
    assert_eq!(parse_for(b"for i, 1, 2, 3, 4 do end", 0), None);
    assert_eq!(
        parse_for(b"for i, 1 do end x", 0),
        Some((Stmt::For { body: vec![], ident: "i".to_string(), exprs: vec![lit("1")] }, 16))
    );
    assert_eq!(parse_if(b"if a do b", 0), None);
    assert_eq!(
        parse_if(b"if a do end", 0),
        Some((Stmt::IfStatement { cond: var("a"), body: vec![], branch: None }, 11))
    );
    assert_eq!(parse_function_def(b"f(x)", 0), None);
    assert_eq!(
        parse_function_def(b"f(x) = x", 0),
        Some((
            Stmt::FunctionDefinition {
                name: "f".to_string(),
                args: vec!["x".to_string()],
                body: vec![print(var("x"))],
            },
            8
        ))
    );
    assert_eq!(parse_stmt(b"f(x)", 0), Some((print(call("f", vec![var("x")])), 4)));
    assert_eq!(parse_stmt(b"end", 0), None);
}
