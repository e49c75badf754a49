use tip::ast::{BinOp, Expression, Ident, Statement};
use tip::tip_parser::grammar::{expression, ident, statement};

#[test]
fn peg_test_parse_exprs() {
    assert_eq!(
        expression("1 + 2 * 3"),
        Ok(Expression::BinaryExpression(
            BinOp::Plus,
            Box::new(Expression::Number(1)),
            Box::new(Expression::BinaryExpression(
                BinOp::Times,
                Box::new(Expression::Number(2)),
                Box::new(Expression::Number(3))
            ))
        ))
    );
    assert_eq!(
        expression("(1 + 2) * 3"),
        Ok(Expression::BinaryExpression(
            BinOp::Times,
            Box::new(Expression::BinaryExpression(
                BinOp::Plus,
                Box::new(Expression::Number(1)),
                Box::new(Expression::Number(2))
            )),
            Box::new(Expression::Number(3)),
        ))
    );
    assert_eq!(
        expression("1 - 2 / 3"),
        Ok(Expression::BinaryExpression(
            BinOp::Minus,
            Box::new(Expression::Number(1)),
            Box::new(Expression::BinaryExpression(
                BinOp::Divide,
                Box::new(Expression::Number(2)),
                Box::new(Expression::Number(3))
            ))
        ))
    );
    assert_eq!(
        expression("(1 - 2) / 3"),
        Ok(Expression::BinaryExpression(
            BinOp::Divide,
            Box::new(Expression::BinaryExpression(
                BinOp::Minus,
                Box::new(Expression::Number(1)),
                Box::new(Expression::Number(2))
            )),
            Box::new(Expression::Number(3)),
        ))
    );

    assert_eq!(
        expression("1 * 2 * 3"),
        Ok(Expression::BinaryExpression(
            BinOp::Times,
            Box::new(Expression::Number(1)),
            Box::new(Expression::BinaryExpression(
                BinOp::Times,
                Box::new(Expression::Number(2)),
                Box::new(Expression::Number(3)),
            )),
        ))
    );
}

#[test]
fn peg_test_parse_ident() {
    assert_eq!(ident("x"), Ok(Ident("x".to_string())));
    assert_eq!(ident("y"), Ok(Ident("y".to_string())));
    assert_eq!(ident("z"), Ok(Ident("z".to_string())));
    assert_eq!(ident("xyz"), Ok(Ident("xyz".to_string())));
    assert_eq!(ident("abc123"), Ok(Ident("abc123".to_string())));
    assert_eq!(ident("abc_123"), Ok(Ident("abc_123".to_string())));
}

#[test]
fn peg_test_parse_var_decl() {
    assert_eq!(
        statement("var x;"),
        Ok(Statement::VarDecl(vec![Ident("x".to_string())]))
    );
    assert_eq!(
        statement("var x, y, z;"),
        Ok(Statement::VarDecl(
            vec!["x", "y", "z"]
                .into_iter()
                .map(|s| Ident(s.to_string()))
                .collect()
        ))
    );
    assert_eq!(
        statement("var x,y,z;"),
        Ok(Statement::VarDecl(
            vec!["x", "y", "z"]
                .into_iter()
                .map(|s| Ident(s.to_string()))
                .collect()
        ))
    );
    assert_eq!(
        statement("var a_complex_name,y, result123;"),
        Ok(Statement::VarDecl(
            vec!["a_complex_name", "y", "result123"]
                .into_iter()
                .map(|s| Ident(s.to_string()))
                .collect()
        ))
    );
}

#[test]
fn peg_test_break() {
    assert_eq!(statement("break;"), Ok(Statement::Break));
}

#[test]
fn peg_test_return() {
    assert_eq!(statement("return;"), Ok(Statement::Return(None)));
    assert_eq!(
        statement("return 123;"),
        Ok(Statement::Return(Some(Expression::Number(123))))
    );
}
