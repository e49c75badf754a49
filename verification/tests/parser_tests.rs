use tip::ast::{BinOp, Expression, Ident, Statement, UnOp};
use tip::tip_parser::grammar::{comment, expression, statement};
use tip::tip_parser::{parse, ParseError};

/// Parsing is deterministic: the same input always gives the same tree.
#[test]
fn repeated_parses_agree() {
    let src = "f() { if (1) if (2) var x; else var y; else var z; while (x > 0) x = x - 1; }";
    let first = parse(src.to_string());
    let second = parse(src.to_string());
    assert_eq!(first, second);
    assert!(first.is_ok());
}

/// An empty input is rejected: at least one function is required.
#[test]
fn empty_input_is_rejected() {
    assert_eq!(
        parse(String::new()),
        Err(ParseError { offset: 0, line: 1, col: 1 })
    );
    assert!(parse("   // only a comment\n".to_string()).is_err());
}

/// The error points at the first construct that could not be parsed.
#[test]
fn error_positions() {
    let err = parse("f() { }\n)".to_string()).unwrap_err();
    assert_eq!(err, ParseError { offset: 8, line: 2, col: 1 });
    let err = parse("f() {".to_string()).unwrap_err();
    assert_eq!(err.offset, 0);
    assert_eq!((err.line, err.col), (1, 1));
}

/// A number literal must fit in a signed 64-bit integer.
#[test]
fn number_bounds() {
    assert_eq!(
        expression("9223372036854775807"),
        Ok(Expression::Number(i64::MAX))
    );
    assert!(expression("9223372036854775808").is_err());
    assert_eq!(expression("0"), Ok(Expression::Number(0)));
    assert_eq!(expression("007"), Ok(Expression::Number(7)));
}

/// Negation is a unary operator, not part of the literal.
#[test]
fn unary_operators() {
    assert_eq!(
        expression("-5"),
        Ok(Expression::UnaryExpression(
            UnOp::Negate,
            Box::new(Expression::Number(5))
        ))
    );
    assert_eq!(
        expression("&x"),
        Ok(Expression::UnaryExpression(
            UnOp::AddressOf,
            Box::new(Expression::IdentReference(Ident("x".to_string())))
        ))
    );
    assert_eq!(
        expression("**p"),
        Ok(Expression::UnaryExpression(
            UnOp::Dereference,
            Box::new(Expression::UnaryExpression(
                UnOp::Dereference,
                Box::new(Expression::IdentReference(Ident("p".to_string())))
            ))
        ))
    );
}

#[test]
fn comparisons() {
    assert_eq!(
        expression("x == 1"),
        Ok(Expression::BinaryExpression(
            BinOp::CompareEq,
            Box::new(Expression::IdentReference(Ident("x".to_string()))),
            Box::new(Expression::Number(1))
        ))
    );
    assert_eq!(
        expression("x > 1"),
        Ok(Expression::BinaryExpression(
            BinOp::CompareGt,
            Box::new(Expression::IdentReference(Ident("x".to_string()))),
            Box::new(Expression::Number(1))
        ))
    );
}

/// Record literals: a possibly-empty list of `name: expr` fields; field order
/// is kept.
#[test]
fn record_literals() {
    assert_eq!(expression("{}"), Ok(Expression::Record(vec![])));
    assert_eq!(
        expression("{a: 1, b: 2}"),
        Ok(Expression::Record(vec![
            (Ident("a".to_string()), Expression::Number(1)),
            (Ident("b".to_string()), Expression::Number(2)),
        ]))
    );
}

/// Field projection chains fold into one path, in order.
#[test]
fn projection_chains() {
    assert_eq!(
        expression("x.a.b"),
        Ok(Expression::Projection(
            Box::new(Expression::IdentReference(Ident("x".to_string()))),
            vec![Ident("a".to_string()), Ident("b".to_string())]
        ))
    );
}

/// `alloc` takes its operand after mandatory whitespace; without it the word
/// is an ordinary identifier.
#[test]
fn alloc_expressions() {
    assert_eq!(
        expression("alloc 5"),
        Ok(Expression::Alloc(Box::new(Expression::Number(5))))
    );
    assert_eq!(
        expression("alloc"),
        Ok(Expression::IdentReference(Ident("alloc".to_string())))
    );
}

/// Keyword statements commit once their keyword matches: a malformed rest is
/// an error, not an identifier.
#[test]
fn committed_keywords() {
    assert!(statement("breakx;").is_err());
    assert!(statement("breaker = 1;").is_err());
    assert!(statement("var 1;").is_err());
    // `while` is not a simple-statement keyword, so a word starting with it
    // still parses as an ordinary identifier
    assert_eq!(
        statement("whilex = 1;"),
        Ok(Statement::Assign(
            Expression::IdentReference(Ident("whilex".to_string())),
            Expression::Number(1)
        ))
    );
}

/// Rules parse the whole input or fail.
#[test]
fn trailing_input_fails() {
    assert!(expression("1 + ").is_err());
    assert!(comment("/* unterminated").is_err());
    assert!(statement("var x; var y;").is_err());
}

/// Both branch forms of `if` and `while` may mix braces and single
/// statements, and an absent branch is `None`, distinct from an explicit
/// empty `{ }`.
#[test]
fn branch_forms() {
    assert_eq!(
        statement("if (1) { var x; } else var y;"),
        Ok(Statement::If {
            cond: Expression::Number(1),
            then: Some(vec![Statement::VarDecl(vec![Ident("x".to_string())])]),
            otherwise: Some(vec![Statement::VarDecl(vec![Ident("y".to_string())])]),
        })
    );
    assert_eq!(
        statement("if (1) var x;"),
        Ok(Statement::If {
            cond: Expression::Number(1),
            then: Some(vec![Statement::VarDecl(vec![Ident("x".to_string())])]),
            otherwise: None,
        })
    );
    assert_eq!(
        statement("while (1) { }"),
        Ok(Statement::While { cond: Expression::Number(1), then: Some(vec![]) })
    );
}
