use cx_compiler::codegen::C_HEADER;
use cx_compiler::compiler::{
    count_definitions, count_stmt_definitions, is_valid_program, is_valid_stmt, CompileError,
    Compiler,
};
use cx_compiler::grammar::is_well_formed;
use cx_compiler::shunting_yard::shunting_yard;
use cx_compiler::types::{Expr, ExprToken, Program, Stmt};
use cx_compiler::utils::{generate_function_name, random_suffix, suffixed_name, SUFFIX_LEN};

fn var(name: &str) -> Box<Expr> {
    Box::new(Expr::Ident(name.to_string()))
}

fn lit(text: &str) -> Box<Expr> {
    Box::new(Expr::Number(text.to_string()))
}

fn call(name: &str, args: Vec<Box<Expr>>) -> Box<Expr> {
    Box::new(Expr::Call { name: name.to_string(), args })
}

fn define(name: &str, params: &[&str], body: Program) -> Stmt {
    Stmt::FunctionDefinition {
        name: name.to_string(),
        args: params.iter().map(|p| p.to_string()).collect(),
        body,
    }
}

fn is_generated(generated: &str, name: &str) -> bool {
    let bytes = generated.as_bytes();
    let n = name.len();
    bytes.len() == n + 17
        && &generated[..n] == name
        && bytes[n] == b'_'
        && bytes[n + 1..].iter().all(|b| b.is_ascii_alphanumeric())
}

fn expr_text(e: Box<Expr>) -> String {
    Compiler::new().compile_expr(&e).unwrap()
}

#[test]
fn generated_name_is_the_source_name_with_a_unique_part_behind_it() {
    let a = generate_function_name("area");
    assert!(is_generated(&a, "area"));
    assert!(a.starts_with("area_"));
    assert_eq!(a.len(), 4 + 1 + 16);
    let b = generate_function_name("");
    assert!(is_generated(&b, ""));
    assert_eq!(b.len(), 17);
    let c = generate_function_name("f");
    assert!(c.starts_with('f'));
    assert_ne!(c, "f");
}

#[test]
fn unique_part_is_attached_behind_the_name() {
    assert_eq!(suffixed_name("area", "0123456789abcdef"), "area_0123456789abcdef");
    assert_eq!(suffixed_name("f", "0123456789abcdef"), "f_0123456789abcdef");
    assert_eq!(suffixed_name("", ""), "_");
    assert_eq!(suffixed_name("a_b", "u"), "a_b_u");
}

#[test]
fn unique_part_is_sixteen_letters_and_digits() {
    assert_eq!(SUFFIX_LEN, 16);
    for _ in 0..50 {
        let suffix = random_suffix();
        assert_eq!(suffix.len(), 16);
        assert!(suffix.bytes().all(|b| b.is_ascii_alphanumeric()));
    }
}

#[test]
fn generated_names_differ_from_call_to_call() {
    let a = generate_function_name("f");
    let b = generate_function_name("f");
    assert_ne!(a, b);
}

#[test]
fn leaves_stand_for_themselves() {
    assert_eq!(expr_text(lit("3")), "3");
    assert_eq!(expr_text(lit("0.5")), "0.5");
    assert_eq!(expr_text(var("x")), "x");
}

#[test]
fn binary_nodes_are_parenthesised() {
    assert_eq!(expr_text(Box::new(Expr::Add(var("a"), var("b")))), "(a+b)");
    assert_eq!(expr_text(Box::new(Expr::Sub(var("a"), var("b")))), "(a-b)");
    assert_eq!(expr_text(Box::new(Expr::Mul(var("a"), var("b")))), "(a*b)");
    assert_eq!(expr_text(Box::new(Expr::Div(var("a"), var("b")))), "(a/b)");
    assert_eq!(expr_text(Box::new(Expr::Leq(var("a"), var("b")))), "(a<=b)");
    assert_eq!(expr_text(Box::new(Expr::Geq(var("a"), var("b")))), "(a>=b)");
    assert_eq!(expr_text(Box::new(Expr::Lt(var("a"), var("b")))), "(a<b)");
    assert_eq!(expr_text(Box::new(Expr::Gt(var("a"), var("b")))), "(a>b)");
    assert_eq!(expr_text(Box::new(Expr::Eq(var("a"), var("b")))), "(a==b)");
    assert_eq!(expr_text(Box::new(Expr::Neq(var("a"), var("b")))), "(a!=b)");
}

#[test]
fn power_becomes_a_call_of_pow() {
    assert_eq!(expr_text(Box::new(Expr::Pow(var("a"), lit("2")))), "pow(a,2)");
}

#[test]
fn remainder_casts_its_operands() {
    assert_eq!(expr_text(Box::new(Expr::Mod(var("a"), lit("2")))), "((int)a%(int)2)");
}

#[test]
fn nested_expression_text() {
    let e = Box::new(Expr::Add(
        var("a"),
        Box::new(Expr::Mul(
            Box::new(Expr::Pow(var("b"), lit("2"))),
            Box::new(Expr::Mod(var("c"), var("d"))),
        )),
    ));
    assert_eq!(expr_text(e), "(a+(pow(b,2)*((int)c%(int)d)))");
}

#[test]
fn call_of_an_undefined_function_fails() {
    let c = Compiler::new();
    let result = c.compile_expr(&call("f", vec![]));
    assert_eq!(result, Err(CompileError::NotDefined));
    let nested = Box::new(Expr::Add(lit("1"), call("f", vec![var("x")])));
    assert_eq!(c.compile_expr(&nested), Err(CompileError::NotDefined));
}

#[test]
fn error_messages() {
    assert_eq!(CompileError::NotDefined.message(), "function must be defined");
    assert_eq!(
        CompileError::AlreadyExists("area".to_string()).message(),
        "function area already exists"
    );
}

#[test]
fn new_compiler_is_empty() {
    let c = Compiler::new();
    assert!(c.functions().is_empty());
    assert_eq!(c.generated_name("f"), None);
    assert_eq!(c.generated_name("main"), None);
}

#[test]
fn function_is_defined_under_a_generated_name() {
    let mut c = Compiler::new();
    let body: Program = vec![Stmt::Expression(Box::new(Expr::Mul(var("x"), var("y"))))];
    let params = vec!["x".to_string(), "y".to_string()];
    let text = c.compile_program(&body, "area", &params).unwrap();
    let generated = c.generated_name("area").unwrap();
    assert!(is_generated(&generated, "area"));
    assert_eq!(
        text,
        format!("double {}(double x,double y){{\n\treturn (x*y);\n}}\n", generated)
    );
    assert!(c.functions().is_empty());
}

#[test]
fn function_without_parameters() {
    let mut c = Compiler::new();
    let body: Program = vec![Stmt::Expression(lit("1"))];
    let text = c.compile_program(&body, "one", &vec![]).unwrap();
    let generated = c.generated_name("one").unwrap();
    assert_eq!(text, format!("double {}(){{\n\treturn 1;\n}}\n", generated));
}

#[test]
fn function_with_one_parameter() {
    let mut c = Compiler::new();
    let body: Program = vec![Stmt::Expression(var("x"))];
    let text = c.compile_program(&body, "same", &vec!["x".to_string()]).unwrap();
    let generated = c.generated_name("same").unwrap();
    assert_eq!(text, format!("double {}(double x){{\n\treturn x;\n}}\n", generated));
}

#[test]
fn entry_point_prints_and_returns_zero() {
    let mut c = Compiler::new();
    let body: Program = vec![Stmt::Expression(var("x"))];
    let text = c.compile_program(&body, "main", &vec![]).unwrap();
    assert_eq!(text, "int main(){\n\tprint_number(x);\n\treturn 0;\n}\n");
    assert_eq!(c.generated_name("main"), None);
}

#[test]
fn last_expression_is_returned_in_a_function_and_printed_at_top_level() {
    let body = || -> Program {
        vec![
            Stmt::Declaration { name: "x".to_string(), value: lit("1") },
            Stmt::Expression(var("x")),
        ]
    };
    let mut c = Compiler::new();
    let function = c.compile_program(&body(), "f", &vec![]).unwrap();
    assert!(function.ends_with("{\n\tdouble x=1;\n\treturn x;\n}\n"));
    assert!(!function.contains("print_number"));
    let top = c.compile_program(&body(), "main", &vec![]).unwrap();
    assert_eq!(top, "int main(){\n\tdouble x=1;\n\tprint_number(x);\n\treturn 0;\n}\n");
}

#[test]
fn only_the_last_expression_of_a_function_is_returned() {
    let mut c = Compiler::new();
    let body: Program = vec![
        Stmt::Expression(var("a")),
        Stmt::Expression(var("b")),
        Stmt::Assignment { name: "a".to_string(), value: var("b") },
    ];
    let text = c.compile_body(&body, true).unwrap();
    assert_eq!(text, "\tprint_number(a);\n\tprint_number(b);\n\ta=b;\n");
    let body: Program = vec![Stmt::Expression(var("a")), Stmt::Expression(var("b"))];
    let text = c.compile_body(&body, true).unwrap();
    assert_eq!(text, "\tprint_number(a);\n\treturn b;\n");
    let text = c.compile_body(&body, false).unwrap();
    assert_eq!(text, "\tprint_number(a);\n\tprint_number(b);\n");
}

#[test]
fn expression_inside_a_block_of_a_function_is_printed() {
    let mut c = Compiler::new();
    let body: Program = vec![Stmt::While {
        body: vec![Stmt::Expression(var("x"))],
        expr: var("c"),
    }];
    let text = c.compile_body(&body, true).unwrap();
    assert_eq!(text, "\twhile (c){\n\tprint_number(x);\n\t}\n");
}

#[test]
fn empty_block_is_empty_text() {
    let mut c = Compiler::new();
    assert_eq!(c.compile_body(&vec![], true).unwrap(), "");
    assert_eq!(c.compile_body(&vec![], false).unwrap(), "");
}

#[test]
fn declaration_and_assignment() {
    let mut c = Compiler::new();
    let declare = Stmt::Declaration {
        name: "x".to_string(),
        value: Box::new(Expr::Add(lit("1"), lit("2"))),
    };
    assert_eq!(c.compile_stmt(&declare, false).unwrap(), "\tdouble x=(1+2);\n");
    let assign = Stmt::Assignment { name: "x".to_string(), value: lit("0") };
    assert_eq!(c.compile_stmt(&assign, true).unwrap(), "\tx=0;\n");
}

#[test]
fn conditional_without_and_with_else() {
    let mut c = Compiler::new();
    let plain = Stmt::IfStatement {
        cond: Box::new(Expr::Lt(var("a"), var("b"))),
        body: vec![Stmt::Expression(var("a"))],
        branch: None,
    };
    assert_eq!(
        c.compile_stmt(&plain, false).unwrap(),
        "\tif ((a<b)){\n\tprint_number(a);\n\t}\n"
    );
    let both = Stmt::IfStatement {
        cond: var("c"),
        body: vec![Stmt::Expression(var("a"))],
        branch: Some(vec![Stmt::Assignment { name: "a".to_string(), value: lit("1") }]),
    };
    assert_eq!(
        c.compile_stmt(&both, false).unwrap(),
        "\tif (c){\n\tprint_number(a);\n\t} else {\n\ta=1;\n\t}\n"
    );
}

#[test]
fn for_loop_with_one_bound_counts_up_from_zero() {
    let mut c = Compiler::new();
    let stmt = Stmt::For {
        body: vec![Stmt::Expression(var("i"))],
        ident: "i".to_string(),
        exprs: vec![lit("10")],
    };
    assert_eq!(
        c.compile_stmt(&stmt, false).unwrap(),
        "\tfor (int i=0;i<10;i++){\n\tprint_number(i);\n\t}\n"
    );
}

#[test]
fn for_loop_from_five_down_to_zero() {
    let mut c = Compiler::new();
    let stmt = Stmt::For {
        body: vec![Stmt::Expression(var("i"))],
        ident: "i".to_string(),
        exprs: vec![lit("5"), lit("0")],
    };
    assert_eq!(
        c.compile_stmt(&stmt, false).unwrap(),
        "\tfor (int i=(int)5;5>0?(int)i>(int)0:(int)i<(int)0;5>0?i--:i++){\n\tprint_number(i);\n\t}\n"
    );
}

#[test]
fn for_loop_from_zero_up_to_five() {
    let mut c = Compiler::new();
    let stmt = Stmt::For {
        body: vec![],
        ident: "i".to_string(),
        exprs: vec![lit("0"), lit("5")],
    };
    assert_eq!(
        c.compile_stmt(&stmt, false).unwrap(),
        "\tfor (int i=(int)0;0>5?(int)i>(int)5:(int)i<(int)5;0>5?i--:i++){\n\t}\n"
    );
}

#[test]
fn for_loop_with_a_step() {
    let mut c = Compiler::new();
    let stmt = Stmt::For {
        body: vec![Stmt::Expression(var("k"))],
        ident: "k".to_string(),
        exprs: vec![var("a"), var("b"), lit("2")],
    };
    assert_eq!(
        c.compile_stmt(&stmt, false).unwrap(),
        "\tfor (int k=(int)a;a>b?(int)k>(int)b:(int)k<(int)b;k+=(int)2){\n\tprint_number(k);\n\t}\n"
    );
}

#[test]
fn while_loop() {
    let mut c = Compiler::new();
    let stmt = Stmt::While {
        body: vec![Stmt::Assignment {
            name: "n".to_string(),
            value: Box::new(Expr::Sub(var("n"), lit("1"))),
        }],
        expr: Box::new(Expr::Gt(var("n"), lit("0"))),
    };
    assert_eq!(
        c.compile_stmt(&stmt, false).unwrap(),
        "\twhile ((n>0)){\n\tn=(n-1);\n\t}\n"
    );
}

#[test]
fn definition_leaves_nothing_where_it_stood() {
    let mut c = Compiler::new();
    let stmt = define("f", &["x"], vec![Stmt::Expression(var("x"))]);
    assert_eq!(c.compile_stmt(&stmt, false).unwrap(), "");
    let generated = c.generated_name("f").unwrap();
    assert_eq!(
        c.functions(),
        &vec![format!("double {}(double x){{\n\treturn x;\n}}\n", generated)]
    );
}

#[test]
fn call_names_the_generated_function() {
    let mut c = Compiler::new();
    let program: Program = vec![
        define("twice", &["x"], vec![Stmt::Expression(Box::new(Expr::Mul(var("x"), lit("2"))))]),
        Stmt::Expression(call("twice", vec![lit("4"), Box::new(Expr::Add(var("a"), lit("1")))])),
        Stmt::Expression(call("twice", vec![])),
        Stmt::Expression(call("twice", vec![var("z")])),
    ];
    let text = c.compile_body(&program, false).unwrap();
    let generated = c.generated_name("twice").unwrap();
    assert_eq!(
        text,
        format!(
            "\tprint_number({0}(4,(a+1)));\n\tprint_number({0}());\n\tprint_number({0}(z));\n",
            generated
        )
    );
}

#[test]
fn function_may_call_itself() {
    let mut c = Compiler::new();
    let body: Program = vec![Stmt::Expression(call("f", vec![var("x")]))];
    let text = c.compile_program(&body, "f", &vec!["x".to_string()]).unwrap();
    let generated = c.generated_name("f").unwrap();
    assert_eq!(
        text,
        format!("double {0}(double x){{\n\treturn {0}(x);\n}}\n", generated)
    );
}

#[test]
fn call_before_the_definition_fails() {
    let mut c = Compiler::new();
    let program: Program = vec![
        Stmt::Expression(call("later", vec![])),
        define("later", &[], vec![Stmt::Expression(lit("1"))]),
    ];
    assert_eq!(c.compile_body(&program, false), Err(CompileError::NotDefined));
}

#[test]
fn nested_definition_is_hoisted_beside_the_outer_one() {
    let mut c = Compiler::new();
    let inner = define("inner", &["y"], vec![Stmt::Expression(var("y"))]);
    let outer = define(
        "outer",
        &["x"],
        vec![inner, Stmt::Expression(call("inner", vec![var("x")]))],
    );
    let program: Program = vec![outer, Stmt::Expression(call("outer", vec![lit("1")]))];
    let text = c.compile_program(&program, "main", &vec![]).unwrap();
    let inner_name = c.generated_name("inner").unwrap();
    let outer_name = c.generated_name("outer").unwrap();
    assert_ne!(inner_name, outer_name);
    assert_eq!(
        c.functions(),
        &vec![
            format!("double {}(double y){{\n\treturn y;\n}}\n", inner_name),
            format!("double {}(double x){{\n\treturn {}(x);\n}}\n", outer_name, inner_name),
        ]
    );
    assert_eq!(
        text,
        format!("int main(){{\n\tprint_number({}(1));\n\treturn 0;\n}}\n", outer_name)
    );
    assert!(!text.contains("double"));
}

#[test]
fn definitions_inside_blocks_are_hoisted_in_order() {
    let mut c = Compiler::new();
    let program: Program = vec![
        Stmt::IfStatement {
            cond: var("c"),
            body: vec![define("a", &[], vec![])],
            branch: Some(vec![define("b", &[], vec![])]),
        },
        Stmt::While { body: vec![define("d", &[], vec![])], expr: var("c") },
        Stmt::For { body: vec![define("e", &[], vec![])], ident: "i".to_string(), exprs: vec![lit("1")] },
    ];
    let text = c.compile_body(&program, false).unwrap();
    assert_eq!(
        text,
        "\tif (c){\n\t} else {\n\t}\n\twhile (c){\n\t}\n\tfor (int i=0;i<1;i++){\n\t}\n"
    );
    let names: Vec<String> =
        ["a", "b", "d", "e"].iter().map(|n| c.generated_name(n).unwrap()).collect();
    let expected: Vec<String> =
        names.iter().map(|n| format!("double {}(){{\n}}\n", n)).collect();
    assert_eq!(c.functions(), &expected);
}

#[test]
fn sibling_definitions_with_one_name_fail() {
    let mut c = Compiler::new();
    let program: Program = vec![
        define("f", &[], vec![Stmt::Expression(lit("1"))]),
        define("f", &["x"], vec![Stmt::Expression(var("x"))]),
    ];
    assert_eq!(
        c.compile_program(&program, "main", &vec![]),
        Err(CompileError::AlreadyExists("f".to_string()))
    );
    assert_eq!(
        Compiler::compile(&program),
        Err(CompileError::AlreadyExists("f".to_string()))
    );
}

#[test]
fn nested_definition_with_the_name_of_its_parent_fails() {
    let mut c = Compiler::new();
    let program: Program = vec![define("f", &[], vec![define("f", &[], vec![])])];
    assert_eq!(
        c.compile_body(&program, false),
        Err(CompileError::AlreadyExists("f".to_string()))
    );
}

#[test]
fn defining_a_name_twice_by_hand_fails() {
    let mut c = Compiler::new();
    assert!(c.compile_program(&vec![], "f", &vec![]).is_ok());
    assert_eq!(
        c.compile_program(&vec![], "f", &vec![]),
        Err(CompileError::AlreadyExists("f".to_string()))
    );
}

#[test]
fn first_error_wins() {
    let mut c = Compiler::new();
    let program: Program = vec![
        define("f", &[], vec![]),
        Stmt::Expression(call("g", vec![])),
        define("f", &[], vec![]),
    ];
    assert_eq!(c.compile_body(&program, false), Err(CompileError::NotDefined));
}

#[test]
fn entry_point_is_never_defined() {
    let mut c = Compiler::new();
    assert!(c.compile_program(&vec![], "main", &vec![]).is_ok());
    assert!(c.compile_program(&vec![], "main", &vec![]).is_ok());
    assert_eq!(
        c.compile_expr(&call("main", vec![])),
        Err(CompileError::NotDefined)
    );
}

#[test]
fn whole_program_has_header_functions_and_entry_point() {
    let program: Program = vec![
        define("one", &[], vec![Stmt::Expression(lit("1"))]),
        define("two", &[], vec![Stmt::Expression(lit("2"))]),
        Stmt::Expression(Box::new(Expr::Add(call("one", vec![]), call("two", vec![])))),
    ];
    let text = Compiler::compile(&program).unwrap();
    let rest = text.strip_prefix(C_HEADER).unwrap();
    let rest = rest.strip_prefix("\ndouble ").unwrap();
    let one = rest[..20].to_string();
    assert!(is_generated(&one, "one"));
    let rest = rest[20..].strip_prefix("(){\n\treturn 1;\n}\n\ndouble ").unwrap();
    let two = rest[..20].to_string();
    assert!(is_generated(&two, "two"));
    let rest = rest[20..].strip_prefix("(){\n\treturn 2;\n}\n\n").unwrap();
    assert_eq!(
        rest,
        format!("int main(){{\n\tprint_number(({}()+{}()));\n\treturn 0;\n}}\n", one, two)
    );
}

#[test]
fn whole_program_without_functions() {
    let text = Compiler::compile(&vec![]).unwrap();
    assert_eq!(text, format!("{}\n\nint main(){{\n\treturn 0;\n}}\n", C_HEADER));
}

#[test]
fn header_prints_numbers() {
    assert!(C_HEADER.starts_with("#include <stdio.h>\n#include <math.h>\n\nvoid print_number(double n){\n"));
    assert!(C_HEADER.contains("\tif (n==(long long)n) {\n\t\tprintf(\"%lld\\n\", (long long)n);\n"));
    assert!(C_HEADER.ends_with("\t} else {\n\t\tprintf(\"%lf\\n\", (double)n);\n\t}\n}"));
}

#[test]
fn declare_assign_and_print_from_tokens() {
    // local x = 3   x = x + 2   x
    let resolve = |mut tokens: Vec<ExprToken>| -> Box<Expr> {
        assert!(is_well_formed(&tokens));
        shunting_yard(&mut tokens)
    };
    let program: Program = vec![
        Stmt::Declaration {
            name: "x".to_string(),
            value: resolve(vec![ExprToken::Number("3".to_string())]),
        },
        Stmt::Assignment {
            name: "x".to_string(),
            value: resolve(vec![
                ExprToken::Ident("x".to_string()),
                ExprToken::Add,
                ExprToken::Number("2".to_string()),
            ]),
        },
        Stmt::Expression(resolve(vec![ExprToken::Ident("x".to_string())])),
    ];
    let text = Compiler::compile(&program).unwrap();
    assert_eq!(
        text,
        format!(
            "{}\n\nint main(){{\n\tdouble x=3;\n\tx=(x+2);\n\tprint_number(x);\n\treturn 0;\n}}\n",
            C_HEADER
        )
    );
}

#[test]
fn programs_with_valid_loops_are_valid() {
    let good = Stmt::For { body: vec![], ident: "i".to_string(), exprs: vec![lit("1")] };
    let none = Stmt::For { body: vec![], ident: "i".to_string(), exprs: vec![] };
    let four = Stmt::For {
        body: vec![],
        ident: "i".to_string(),
        exprs: vec![lit("1"), lit("2"), lit("3"), lit("4")],
    };
    assert!(is_valid_stmt(&good));
    assert!(!is_valid_stmt(&none));
    assert!(!is_valid_stmt(&four));
    assert!(is_valid_program(&vec![]));
    let nested: Program = vec![
        Stmt::Expression(var("x")),
        define("f", &[], vec![Stmt::While { body: vec![four], expr: var("c") }]),
    ];
    assert!(!is_valid_program(&nested));
    let branch: Program = vec![Stmt::IfStatement {
        cond: var("c"),
        body: vec![good],
        branch: Some(vec![none]),
    }];
    assert!(!is_valid_program(&branch));
    let counted: Program = vec![
        define("a", &[], vec![define("b", &[], vec![])]),
        Stmt::IfStatement {
            cond: var("c"),
            body: vec![define("d", &[], vec![])],
            branch: Some(vec![define("e", &[], vec![])]),
        },
        Stmt::Expression(var("x")),
    ];
    assert_eq!(count_definitions(&counted), 4);
    assert_eq!(count_stmt_definitions(&counted[0]), 2);
    assert_eq!(count_stmt_definitions(&counted[2]), 0);
}

#[test]
fn defined_functions_are_counted() {
    let mut c = Compiler::new();
    assert_eq!(c.defined_count(), 0);
    c.compile_program(&vec![define("g", &[], vec![])], "f", &vec![]).unwrap();
    assert_eq!(c.defined_count(), 2);
    c.compile_program(&vec![], "main", &vec![]).unwrap();
    assert_eq!(c.defined_count(), 2);
}

#[test]
fn generated_names_begin_like_identifiers() {
    let mut c = Compiler::new();
    for name in ["f", "_tmp", "area2", "Main"] {
        c.compile_function(&vec![], name, &vec![]).unwrap();
        let generated = c.generated_name(name).unwrap();
        let first = generated.as_bytes()[0];
        assert!(first.is_ascii_alphabetic() || first == b'_');
        assert!(generated.bytes().all(|b| b.is_ascii_alphanumeric() || b == b'_'));
    }
}

#[test]
fn definition_named_main_is_a_function_like_any_other() {
    let mut c = Compiler::new();
    let program: Program = vec![
        define("main", &["x"], vec![Stmt::Expression(var("x"))]),
        Stmt::Expression(call("main", vec![lit("1")])),
    ];
    let text = c.compile_program(&program, "main", &vec![]).unwrap();
    let generated = c.generated_name("main").unwrap();
    assert!(is_generated(&generated, "main"));
    assert_eq!(
        c.functions(),
        &vec![format!("double {}(double x){{\n\treturn x;\n}}\n", generated)]
    );
    assert_eq!(
        text,
        format!("int main(){{\n\tprint_number({}(1));\n\treturn 0;\n}}\n", generated)
    );
    assert_eq!(c.defined_count(), 1);
}

#[test]
fn two_definitions_named_main_fail() {
    let program: Program = vec![
        define("main", &[], vec![Stmt::Expression(lit("1"))]),
        define("main", &[], vec![Stmt::Expression(lit("2"))]),
    ];
    assert_eq!(
        Compiler::compile(&program),
        Err(CompileError::AlreadyExists("main".to_string()))
    );
    let mut c = Compiler::new();
    assert_eq!(
        c.compile_body(&program, false),
        Err(CompileError::AlreadyExists("main".to_string()))
    );
}

#[test]
fn entry_point_cannot_be_asked_for_once_main_is_defined() {
    let mut c = Compiler::new();
    c.compile_function(&vec![], "main", &vec![]).unwrap();
    assert_eq!(
        c.compile_program(&vec![], "main", &vec![]),
        Err(CompileError::AlreadyExists("main".to_string()))
    );
}

#[test]
fn redefinition_changes_nothing() {
    let mut c = Compiler::new();
    let inner: Program = vec![define("g", &[], vec![Stmt::Expression(lit("1"))])];
    c.compile_function(&inner, "f", &vec![]).unwrap();
    let name_before = c.generated_name("f").unwrap();
    let functions_before: Vec<String> = c.functions().iter().map(|f| f.to_string()).collect();
    assert_eq!(functions_before.len(), 1);
    let again: Program = vec![define("h", &[], vec![]), Stmt::Expression(lit("2"))];
    assert_eq!(
        c.compile_program(&again, "f", &vec!["x".to_string()]),
        Err(CompileError::AlreadyExists("f".to_string()))
    );
    assert_eq!(c.functions(), &functions_before);
    assert_eq!(c.generated_name("f"), Some(name_before.clone()));
    assert_eq!(c.generated_name("h"), None);
    assert_eq!(c.defined_count(), 2);
    let stmt = define("f", &[], vec![define("h", &[], vec![])]);
    assert_eq!(
        c.compile_stmt(&stmt, false),
        Err(CompileError::AlreadyExists("f".to_string()))
    );
    assert_eq!(c.functions(), &functions_before);
    assert_eq!(c.generated_name("f"), Some(name_before));
    assert_eq!(c.generated_name("h"), None);
}

#[test]
fn error_keeps_the_functions_finished_before_it() {
    let mut c = Compiler::new();
    let program: Program = vec![
        define("a", &[], vec![Stmt::Expression(lit("1"))]),
        Stmt::Expression(call("missing", vec![])),
        define("b", &[], vec![]),
    ];
    assert_eq!(c.compile_body(&program, false), Err(CompileError::NotDefined));
    let a = c.generated_name("a").unwrap();
    assert_eq!(c.functions(), &vec![format!("double {}(){{\n\treturn 1;\n}}\n", a)]);
    assert_eq!(c.generated_name("b"), None);
}
