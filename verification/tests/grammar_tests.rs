use tip::ast::{BinOp, Expression, Function, Ident, Program, Statement, UnOp};
use tip::tip_parser::grammar::{comment, expression, function, ident, program, statement};

#[test]
fn grammar_test_parse_exprs() {
    assert_eq!(
        expression("1 + 2 * 3"),
        Ok(Expression::BinaryExpression(
            BinOp::Plus,
            Box::new(Expression::Number(1)),
            Box::new(Expression::BinaryExpression(
                BinOp::Times,
                Box::new(Expression::Number(2)),
                Box::new(Expression::Number(3))
            ))
        ))
    );
    assert_eq!(
        expression("(1 + 2) * 3"),
        Ok(Expression::BinaryExpression(
            BinOp::Times,
            Box::new(Expression::BinaryExpression(
                BinOp::Plus,
                Box::new(Expression::Number(1)),
                Box::new(Expression::Number(2))
            )),
            Box::new(Expression::Number(3)),
        ))
    );
    assert_eq!(
        expression("1 - 2 / 3"),
        Ok(Expression::BinaryExpression(
            BinOp::Minus,
            Box::new(Expression::Number(1)),
            Box::new(Expression::BinaryExpression(
                BinOp::Divide,
                Box::new(Expression::Number(2)),
                Box::new(Expression::Number(3))
            ))
        ))
    );
    assert_eq!(
        expression("(1 - 2) / 3"),
        Ok(Expression::BinaryExpression(
            BinOp::Divide,
            Box::new(Expression::BinaryExpression(
                BinOp::Minus,
                Box::new(Expression::Number(1)),
                Box::new(Expression::Number(2))
            )),
            Box::new(Expression::Number(3)),
        ))
    );

    assert_eq!(
        expression("1 * 2 * 3"),
        Ok(Expression::BinaryExpression(
            BinOp::Times,
            Box::new(Expression::Number(1)),
            Box::new(Expression::BinaryExpression(
                BinOp::Times,
                Box::new(Expression::Number(2)),
                Box::new(Expression::Number(3)),
            )),
        ))
    );
}

#[test]
fn grammar_test_parse_ident() {
    assert_eq!(ident("x"), Ok(Ident("x".to_string())));
    assert_eq!(ident("y"), Ok(Ident("y".to_string())));
    assert_eq!(ident("z"), Ok(Ident("z".to_string())));
    assert_eq!(ident("xyz"), Ok(Ident("xyz".to_string())));
    assert_eq!(ident("abc123"), Ok(Ident("abc123".to_string())));
    assert_eq!(ident("abc_123"), Ok(Ident("abc_123".to_string())));
}

#[test]
fn grammar_test_parse_var_decl() {
    assert_eq!(
        statement("var x;"),
        Ok(Statement::VarDecl(vec![Ident("x".to_string())]))
    );
    assert_eq!(
        statement("var x, y, z;"),
        Ok(Statement::VarDecl(
            vec!["x", "y", "z"]
                .into_iter()
                .map(|s| Ident(s.to_string()))
                .collect()
        ))
    );
    assert_eq!(
        statement("var x,y,z;"),
        Ok(Statement::VarDecl(
            vec!["x", "y", "z"]
                .into_iter()
                .map(|s| Ident(s.to_string()))
                .collect()
        ))
    );
    assert_eq!(
        statement("var a_complex_name,y, result123;"),
        Ok(Statement::VarDecl(
            vec!["a_complex_name", "y", "result123"]
                .into_iter()
                .map(|s| Ident(s.to_string()))
                .collect()
        ))
    );
}

#[test]
fn grammar_test_break() {
    assert_eq!(statement("break;"), Ok(Statement::Break));
}

#[test]
fn grammar_test_return() {
    assert_eq!(statement("return;"), Ok(Statement::Return(None)));
    assert_eq!(
        statement("return 123;"),
        Ok(Statement::Return(Some(Expression::Number(123))))
    );
}

#[test]
fn test_if() {
    // An explicit empty braced branch is present-but-empty on both sides.
    assert_eq!(
        statement("if (1) { } else { }"),
        Ok(Statement::If {
            cond: Expression::Number(1),
            then: Some(vec![]),
            otherwise: Some(vec![])
        })
    );
    assert_eq!(
        statement("if (1) { var x; } else { var y; }"),
        Ok(Statement::If {
            cond: Expression::Number(1),
            then: Some(vec![Statement::VarDecl(vec![Ident("x".to_string())])]),
            otherwise: Some(vec![Statement::VarDecl(vec![Ident("y".to_string())])]),
        })
    );
    assert_eq!(
        statement("if (1) { var x; var y; } else { var a; var b; }"),
        Ok(Statement::If {
            cond: Expression::Number(1),
            then: Some(vec![
                Statement::VarDecl(vec![Ident("x".to_string())]),
                Statement::VarDecl(vec![Ident("y".to_string())])
            ]),
            otherwise: Some(vec![
                Statement::VarDecl(vec![Ident("a".to_string())]),
                Statement::VarDecl(vec![Ident("b".to_string())])
            ]),
        })
    );
    assert!(statement("if (1) var x; else var y;").is_ok());
    assert_eq!(
        statement("if (1) if (2) var x; else var y; else var z;"),
        Ok(Statement::If {
            cond: Expression::Number(1),
            then: Some(vec![Statement::If {
                cond: Expression::Number(2),
                then: Some(vec![Statement::VarDecl(vec![Ident("x".to_string())])]),
                otherwise: Some(vec![Statement::VarDecl(vec![Ident("y".to_string())])]),
            }]),
            otherwise: Some(vec![Statement::VarDecl(vec![Ident("z".to_string())])]),
        })
    );
}

#[test]
fn test_while() {
    assert_eq!(
        statement("while (1) { var x; }"),
        Ok(Statement::While {
            cond: Expression::Number(1),
            then: Some(vec![Statement::VarDecl(vec![Ident("x".to_string())])])
        })
    );
    assert_eq!(
        statement("while (1) { var x; var y; }"),
        Ok(Statement::While {
            cond: Expression::Number(1),
            then: Some(vec![
                Statement::VarDecl(vec![Ident("x".to_string())]),
                Statement::VarDecl(vec![Ident("y".to_string())])
            ],)
        })
    );
    assert_eq!(
        statement("while (1) var x;"),
        Ok(Statement::While {
            cond: Expression::Number(1),
            then: Some(vec![Statement::VarDecl(vec![Ident("x".to_string())])])
        })
    );
}

#[test]
fn test_output() {
    assert_eq!(
        statement("output x;"),
        Ok(Statement::Output(Expression::IdentReference(Ident(
            "x".to_string()
        ))))
    );
}

#[test]
fn test_function() {
    assert_eq!(
        function("f() { return 0; }"),
        Ok(Function {
            name: Ident("f".to_string()),
            params: vec![],
            body: vec![Statement::Return(Some(Expression::Number(0)))],
        })
    );
    assert_eq!(
        function("g(x, y, z) { return 1; }"),
        Ok(Function {
            name: Ident("g".to_string()),
            params: vec![
                Ident("x".to_string()),
                Ident("y".to_string()),
                Ident("z".to_string())
            ],
            body: vec![Statement::Return(Some(Expression::Number(1)))],
        })
    );
}

#[test]
fn test_program() {
    assert_eq!(
        program("f() { return 0; } g(x, y, z) { return 1; }"),
        Ok(Program {
            functions: vec![
                Function {
                    params: vec![],
                    name: Ident("f".to_string()),
                    body: vec![Statement::Return(Some(Expression::Number(0)))],
                },
                Function {
                    name: Ident("g".to_string()),
                    params: vec![
                        Ident("x".to_string()),
                        Ident("y".to_string()),
                        Ident("z".to_string())
                    ],
                    body: vec![Statement::Return(Some(Expression::Number(1)))],
                }
            ]
        })
    );
}

#[test]
fn test_call() {
    assert_eq!(
        expression("f()"),
        Ok(Expression::Call(
            Box::new(Expression::IdentReference(Ident("f".to_string()))),
            vec![],
        ))
    );
    assert_eq!(
        expression("f(a, b, c)"),
        Ok(Expression::Call(
            Box::new(Expression::IdentReference(Ident("f".to_string()))),
            ["a", "b", "c"]
                .iter()
                .map(|x| Box::new(Expression::IdentReference(Ident(x.to_string()))))
                .collect()
        ))
    );
    assert_eq!(
        expression("(f)()"),
        Ok(Expression::Call(
            Box::new(Expression::IdentReference(Ident("f".to_string()))),
            vec![],
        ))
    );

    assert_eq!(
        expression("f()()"),
        Ok(Expression::Call(
            Box::new(Expression::Call(
                Box::new(Expression::IdentReference(Ident("f".to_string()))),
                vec![],
            )),
            vec![]
        ),)
    );
}

#[test]
fn test_assign() {
    assert_eq!(
        statement("n = 42;"),
        Ok(Statement::Assign(
            Expression::IdentReference(Ident("n".to_string())),
            Expression::Number(42)
        ))
    );
}

#[test]
fn test_pointers() {
    assert_eq!(
        expression("f(*x)"),
        Ok(Expression::Call(
            Box::new(Expression::IdentReference(Ident("f".to_string()))),
            vec![Box::new(Expression::UnaryExpression(
                UnOp::Dereference,
                Box::new(Expression::IdentReference(Ident("x".to_string())))
            ))]
        ))
    );
}

#[test]
fn test_comment() {
    assert!(comment("// This is a comment").is_ok());
    assert!(comment("/* This is a block comment */").is_ok());
}

#[test]
fn test_comment_in_program() {
    let src = "\
g() { }
f() {
    g();
    // This is a line comment
    g();
}
/* This is a block comment */
h() /* This is a block comment in an awkward place */ { }\
        ";
    let result = program(src);
    assert!(result.is_ok());
}

#[test]
fn parse_error() {
    assert_eq!(
        statement("error 1;"),
        Ok(Statement::Error(Expression::Number(1)))
    );
}
