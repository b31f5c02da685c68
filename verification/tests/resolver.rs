use cx_compiler::grammar::is_well_formed;
use cx_compiler::shunting_yard::{is_op, precedence, shunting_yard};
use cx_compiler::types::{Expr, ExprToken};

fn id(name: &str) -> ExprToken {
    ExprToken::Ident(name.to_string())
}

fn num(text: &str) -> ExprToken {
    ExprToken::Number(text.to_string())
}

fn var(name: &str) -> Box<Expr> {
    Box::new(Expr::Ident(name.to_string()))
}

fn lit(text: &str) -> Box<Expr> {
    Box::new(Expr::Number(text.to_string()))
}

fn resolve(mut tokens: Vec<ExprToken>) -> Box<Expr> {
    assert!(is_well_formed(&tokens));
    shunting_yard(&mut tokens)
}

fn leaves(e: &Expr, out: &mut Vec<String>) {
    match e {
        Expr::Add(l, r)
        | Expr::Sub(l, r)
        | Expr::Mul(l, r)
        | Expr::Div(l, r)
        | Expr::Pow(l, r)
        | Expr::Mod(l, r)
        | Expr::Leq(l, r)
        | Expr::Geq(l, r)
        | Expr::Lt(l, r)
        | Expr::Gt(l, r)
        | Expr::Eq(l, r)
        | Expr::Neq(l, r) => {
            leaves(l, out);
            leaves(r, out);
        }
        Expr::Number(n) => out.push(n.clone()),
        Expr::Ident(s) => out.push(s.clone()),
        Expr::Call { name, .. } => out.push(format!("{}()", name)),
    }
}

#[test]
fn single_operand_is_a_leaf() {
    assert_eq!(resolve(vec![id("a")]), var("a"));
    assert_eq!(resolve(vec![num("1.5")]), lit("1.5"));
}

#[test]
fn multiplication_binds_tighter_on_the_right() {
    let tree = resolve(vec![id("a"), ExprToken::Add, id("b"), ExprToken::Mul, id("c")]);
    assert_eq!(
        tree,
        Box::new(Expr::Add(var("a"), Box::new(Expr::Mul(var("b"), var("c")))))
    );
}

#[test]
fn multiplication_binds_tighter_on_the_left() {
    let tree = resolve(vec![id("a"), ExprToken::Mul, id("b"), ExprToken::Add, id("c")]);
    assert_eq!(
        tree,
        Box::new(Expr::Add(Box::new(Expr::Mul(var("a"), var("b"))), var("c")))
    );
}

#[test]
fn group_is_resolved_first() {
    let tree = resolve(vec![
        ExprToken::LParen,
        id("a"),
        ExprToken::Add,
        id("b"),
        ExprToken::RParen,
        ExprToken::Mul,
        id("c"),
    ]);
    assert_eq!(
        tree,
        Box::new(Expr::Mul(Box::new(Expr::Add(var("a"), var("b"))), var("c")))
    );
}

#[test]
fn group_on_the_right_is_resolved_first() {
    let tree = resolve(vec![
        id("c"),
        ExprToken::Mul,
        ExprToken::LParen,
        id("a"),
        ExprToken::Add,
        id("b"),
        ExprToken::RParen,
    ]);
    assert_eq!(
        tree,
        Box::new(Expr::Mul(var("c"), Box::new(Expr::Add(var("a"), var("b")))))
    );
}

#[test]
fn nested_groups_leave_the_operand() {
    let tree = resolve(vec![
        ExprToken::LParen,
        ExprToken::LParen,
        id("a"),
        ExprToken::RParen,
        ExprToken::RParen,
    ]);
    assert_eq!(tree, var("a"));
}

#[test]
fn power_groups_from_the_right() {
    let tree = resolve(vec![id("a"), ExprToken::Pow, id("b"), ExprToken::Pow, id("c")]);
    assert_eq!(
        tree,
        Box::new(Expr::Pow(var("a"), Box::new(Expr::Pow(var("b"), var("c")))))
    );
}

#[test]
fn subtraction_chain_groups_from_the_right() {
    let tree = resolve(vec![id("a"), ExprToken::Sub, id("b"), ExprToken::Sub, id("c")]);
    assert_eq!(
        tree,
        Box::new(Expr::Sub(var("a"), Box::new(Expr::Sub(var("b"), var("c")))))
    );
}

#[test]
fn division_chain_groups_from_the_right() {
    let tree = resolve(vec![num("8"), ExprToken::Div, num("4"), ExprToken::Div, num("2")]);
    assert_eq!(
        tree,
        Box::new(Expr::Div(lit("8"), Box::new(Expr::Div(lit("4"), lit("2")))))
    );
}

#[test]
fn remainder_binds_like_multiplication() {
    let tree = resolve(vec![id("a"), ExprToken::Add, id("b"), ExprToken::Mod, id("c")]);
    assert_eq!(
        tree,
        Box::new(Expr::Add(var("a"), Box::new(Expr::Mod(var("b"), var("c")))))
    );
    let tree = resolve(vec![id("a"), ExprToken::Mod, id("b"), ExprToken::Mul, id("c")]);
    assert_eq!(
        tree,
        Box::new(Expr::Mod(var("a"), Box::new(Expr::Mul(var("b"), var("c")))))
    );
}

#[test]
fn mixed_chain_splits_at_the_leftmost_loosest_operator() {
    // a - b * c - d
    let tree = resolve(vec![
        id("a"),
        ExprToken::Sub,
        id("b"),
        ExprToken::Mul,
        id("c"),
        ExprToken::Sub,
        id("d"),
    ]);
    assert_eq!(
        tree,
        Box::new(Expr::Sub(
            var("a"),
            Box::new(Expr::Sub(Box::new(Expr::Mul(var("b"), var("c"))), var("d")))
        ))
    );
}

#[test]
fn comparisons_bind_looser_than_arithmetic() {
    // a == b < c + d
    let tree = resolve(vec![
        id("a"),
        ExprToken::Eq,
        id("b"),
        ExprToken::Lt,
        id("c"),
        ExprToken::Add,
        id("d"),
    ]);
    assert_eq!(
        tree,
        Box::new(Expr::Eq(
            var("a"),
            Box::new(Expr::Lt(var("b"), Box::new(Expr::Add(var("c"), var("d")))))
        ))
    );
    // a + b >= c != d
    let tree = resolve(vec![
        id("a"),
        ExprToken::Add,
        id("b"),
        ExprToken::Geq,
        id("c"),
        ExprToken::Neq,
        id("d"),
    ]);
    assert_eq!(
        tree,
        Box::new(Expr::Neq(
            Box::new(Expr::Geq(Box::new(Expr::Add(var("a"), var("b"))), var("c"))),
            var("d")
        ))
    );
}

#[test]
fn every_operator_makes_its_own_node() {
    let cases: Vec<(ExprToken, Expr)> = vec![
        (ExprToken::Add, Expr::Add(var("a"), var("b"))),
        (ExprToken::Sub, Expr::Sub(var("a"), var("b"))),
        (ExprToken::Mul, Expr::Mul(var("a"), var("b"))),
        (ExprToken::Div, Expr::Div(var("a"), var("b"))),
        (ExprToken::Pow, Expr::Pow(var("a"), var("b"))),
        (ExprToken::Mod, Expr::Mod(var("a"), var("b"))),
        (ExprToken::Leq, Expr::Leq(var("a"), var("b"))),
        (ExprToken::Geq, Expr::Geq(var("a"), var("b"))),
        (ExprToken::Lt, Expr::Lt(var("a"), var("b"))),
        (ExprToken::Gt, Expr::Gt(var("a"), var("b"))),
        (ExprToken::Eq, Expr::Eq(var("a"), var("b"))),
        (ExprToken::Neq, Expr::Neq(var("a"), var("b"))),
    ];
    for (op, expected) in cases {
        assert_eq!(resolve(vec![id("a"), op, id("b")]), Box::new(expected));
    }
}

#[test]
fn call_arguments_are_resolved_each_on_its_own() {
    // f(x * 2, y + (5 / 3)) - 1
    let call = ExprToken::Call {
        name: "f".to_string(),
        args: vec![
            vec![id("x"), ExprToken::Mul, num("2")],
            vec![
                id("y"),
                ExprToken::Add,
                ExprToken::LParen,
                num("5"),
                ExprToken::Div,
                num("3"),
                ExprToken::RParen,
            ],
        ],
    };
    let tree = resolve(vec![call, ExprToken::Sub, num("1")]);
    let expected = Expr::Sub(
        Box::new(Expr::Call {
            name: "f".to_string(),
            args: vec![
                Box::new(Expr::Mul(var("x"), lit("2"))),
                Box::new(Expr::Add(var("y"), Box::new(Expr::Div(lit("5"), lit("3"))))),
            ],
        }),
        lit("1"),
    );
    assert_eq!(tree, Box::new(expected));
}

#[test]
fn call_without_arguments() {
    let call = ExprToken::Call { name: "f".to_string(), args: vec![] };
    assert_eq!(
        resolve(vec![call]),
        Box::new(Expr::Call { name: "f".to_string(), args: vec![] })
    );
}

#[test]
fn operands_keep_their_order() {
    // a + b * (c - d) ^ e == g(h)
    let tokens = vec![
        id("a"),
        ExprToken::Add,
        id("b"),
        ExprToken::Mul,
        ExprToken::LParen,
        id("c"),
        ExprToken::Sub,
        id("d"),
        ExprToken::RParen,
        ExprToken::Pow,
        id("e"),
        ExprToken::Eq,
        ExprToken::Call { name: "g".to_string(), args: vec![vec![id("h")]] },
    ];
    let tree = resolve(tokens);
    let mut seen = Vec::new();
    leaves(&tree, &mut seen);
    assert_eq!(seen, vec!["a", "b", "c", "d", "e", "g()"]);
}

#[test]
fn tokens_are_left_as_they_were() {
    let mut tokens = vec![id("a"), ExprToken::Add, id("b")];
    let _ = shunting_yard(&mut tokens);
    assert_eq!(tokens, vec![id("a"), ExprToken::Add, id("b")]);
}

#[test]
fn well_formed_expressions_are_accepted() {
    assert!(is_well_formed(&vec![id("a")]));
    assert!(is_well_formed(&vec![id("a"), ExprToken::Add, num("1")]));
    assert!(is_well_formed(&vec![
        ExprToken::LParen,
        id("a"),
        ExprToken::RParen,
        ExprToken::Mul,
        ExprToken::LParen,
        id("b"),
        ExprToken::Sub,
        id("c"),
        ExprToken::RParen,
    ]));
    assert!(is_well_formed(&vec![ExprToken::Call {
        name: "f".to_string(),
        args: vec![vec![id("a"), ExprToken::Add, id("b")], vec![num("2")]],
    }]));
}

#[test]
fn malformed_expressions_are_rejected() {
    assert!(!is_well_formed(&vec![]));
    assert!(!is_well_formed(&vec![ExprToken::Add]));
    assert!(!is_well_formed(&vec![id("a"), ExprToken::Add]));
    assert!(!is_well_formed(&vec![ExprToken::Add, id("a")]));
    assert!(!is_well_formed(&vec![id("a"), id("b")]));
    assert!(!is_well_formed(&vec![id("a"), ExprToken::Add, ExprToken::Mul, id("b")]));
    assert!(!is_well_formed(&vec![ExprToken::LParen, id("a")]));
    assert!(!is_well_formed(&vec![id("a"), ExprToken::RParen]));
    assert!(!is_well_formed(&vec![ExprToken::LParen, ExprToken::RParen]));
    assert!(!is_well_formed(&vec![
        ExprToken::RParen,
        id("a"),
        ExprToken::LParen
    ]));
    assert!(!is_well_formed(&vec![
        ExprToken::LParen,
        id("a"),
        ExprToken::RParen,
        id("b")
    ]));
    assert!(!is_well_formed(&vec![id("a"), ExprToken::LParen, id("b"), ExprToken::RParen]));
    assert!(!is_well_formed(&vec![ExprToken::Call {
        name: "f".to_string(),
        args: vec![vec![id("a"), ExprToken::Add]],
    }]));
    assert!(!is_well_formed(&vec![ExprToken::Call {
        name: "f".to_string(),
        args: vec![vec![]],
    }]));
}

#[test]
fn operators_and_parentheses_are_not_operands() {
    assert!(is_op(&ExprToken::Add));
    assert!(is_op(&ExprToken::Mod));
    assert!(is_op(&ExprToken::Neq));
    assert!(is_op(&ExprToken::LParen));
    assert!(is_op(&ExprToken::RParen));
    assert!(!is_op(&num("1")));
    assert!(!is_op(&id("a")));
    assert!(!is_op(&ExprToken::Call { name: "f".to_string(), args: vec![] }));
}

#[test]
fn precedence_table() {
    assert_eq!(precedence(&ExprToken::Eq), 2);
    assert_eq!(precedence(&ExprToken::Neq), 2);
    assert_eq!(precedence(&ExprToken::Leq), 3);
    assert_eq!(precedence(&ExprToken::Geq), 3);
    assert_eq!(precedence(&ExprToken::Lt), 3);
    assert_eq!(precedence(&ExprToken::Gt), 3);
    assert_eq!(precedence(&ExprToken::Add), 4);
    assert_eq!(precedence(&ExprToken::Sub), 4);
    assert_eq!(precedence(&ExprToken::Mul), 5);
    assert_eq!(precedence(&ExprToken::Div), 5);
    assert_eq!(precedence(&ExprToken::Mod), 5);
    assert_eq!(precedence(&ExprToken::Pow), 6);
    assert_eq!(precedence(&ExprToken::LParen), 0);
    assert_eq!(precedence(&ExprToken::RParen), -1);
}

#[test]
fn tokens_and_trees_can_be_copied() {
    let tokens = vec![
        id("a"),
        ExprToken::Add,
        ExprToken::Call {
            name: "f".to_string(),
            args: vec![vec![num("1"), ExprToken::Mul, id("b")], vec![id("c")]],
        },
        ExprToken::Neq,
        ExprToken::LParen,
        num("2.5"),
        ExprToken::RParen,
    ];
    let copies: Vec<ExprToken> = tokens.iter().map(|t| t.clone()).collect();
    assert_eq!(copies, tokens);
    let tree = resolve(tokens);
    let copy = tree.clone();
    assert_eq!(copy, tree);
    assert_eq!(
        *copy,
        Expr::Neq(
            Box::new(Expr::Add(
                var("a"),
                Box::new(Expr::Call {
                    name: "f".to_string(),
                    args: vec![Box::new(Expr::Mul(lit("1"), var("b"))), var("c")],
                })
            )),
            lit("2.5")
        )
    );
}
