use interpeter::ast::{Expresion, Operator, Statement};
use interpeter::parser::Parser;

#[test]
fn test_let_statement_parse_program() {
    let input = "
        let x = 5;
        let y = 10;
        let foobar = 838383;
        "
    .to_string();

    let mut parser = Parser::new(input);
    let program = parser.parse_program().unwrap();

    assert_eq!(3, program.statements.len());

    let expected_identifiers = vec![
        Statement::Let(
            Expresion::Identifer(String::from("x")),
            Expresion::Interger(5),
        ),
        Statement::Let(
            Expresion::Identifer(String::from("y")),
            Expresion::Interger(10),
        ),
        Statement::Let(
            Expresion::Identifer(String::from("foobar")),
            Expresion::Interger(838383),
        ),
    ];

    for i in 0..=expected_identifiers.len() - 1 {
        assert_eq!(program.statements[i], expected_identifiers[i]);
    }
}

#[test]
fn test_return_statement_parse_program() {
    let input = "
        return 5;
        return 10;
        return 993322;
        return 2 + 5;
        "
    .to_string();

    let mut parser = Parser::new(input);
    let program = parser.parse_program().unwrap();

    assert_eq!(4, program.statements.len());

    let expected_statements = vec![
        Statement::Return(Expresion::Interger(5)),
        Statement::Return(Expresion::Interger(10)),
        Statement::Return(Expresion::Interger(993322)),
        Statement::Return(Expresion::Infix(
            Box::from(Expresion::Interger(2)),
            Operator::Plus,
            Box::from(Expresion::Interger(5)),
        )),
    ];

    for i in 0..=expected_statements.len() - 1 {
        assert_eq!(program.statements[i], expected_statements[i]);
    }
}

#[test]
fn test_expression_statement_parse_program() {
    let input = "foobar;
        5;"
    .to_string();

    let program = Parser::new(input).parse_program().unwrap();

    let expected_statements = vec![
        Statement::Expression(Expresion::Identifer(String::from("foobar"))),
        Statement::Expression(Expresion::Interger(5)),
    ];

    assert_eq!(expected_statements.len(), program.statements.len());

    for i in 0..=expected_statements.len() - 1 {
        assert_eq!(program.statements[i], expected_statements[i]);
    }
}

#[test]
fn test_prefix_expression_parse_program() {
    let input = "-5;
        !foobar;"
        .to_string();

    let program = Parser::new(input).parse_program().unwrap();

    let expected_statements = vec![
        Statement::Expression(Expresion::Prefix(
            Operator::Minus,
            Box::new(Expresion::Interger(5)),
        )),
        Statement::Expression(Expresion::Prefix(
            Operator::Not,
            Box::new(Expresion::Identifer(String::from("foobar"))),
        )),
    ];

    assert_eq!(expected_statements.len(), program.statements.len());

    for i in 0..=expected_statements.len() - 1 {
        assert_eq!(program.statements[i], expected_statements[i]);
    }
}

#[test]
fn test_infix_expression_parse_program() {
    let input = "5 + 5;
        5 - 5;
        5 * 5;
        5 / 5;
        5 > 5;
        5 < 5;
        5 != 5;
        5 == 5;"
        .to_string();

    let program = Parser::new(input).parse_program().unwrap();

    let expected_statements = vec![
        Statement::Expression(Expresion::Infix(
            Box::new(Expresion::Interger(5)),
            Operator::Plus,
            Box::new(Expresion::Interger(5)),
        )),
        Statement::Expression(Expresion::Infix(
            Box::new(Expresion::Interger(5)),
            Operator::Minus,
            Box::new(Expresion::Interger(5)),
        )),
        Statement::Expression(Expresion::Infix(
            Box::new(Expresion::Interger(5)),
            Operator::Multiply,
            Box::new(Expresion::Interger(5)),
        )),
        Statement::Expression(Expresion::Infix(
            Box::new(Expresion::Interger(5)),
            Operator::Divide,
            Box::new(Expresion::Interger(5)),
        )),
        Statement::Expression(Expresion::Infix(
            Box::new(Expresion::Interger(5)),
            Operator::Gt,
            Box::new(Expresion::Interger(5)),
        )),
        Statement::Expression(Expresion::Infix(
            Box::new(Expresion::Interger(5)),
            Operator::Lt,
            Box::new(Expresion::Interger(5)),
        )),
        Statement::Expression(Expresion::Infix(
            Box::new(Expresion::Interger(5)),
            Operator::NotEquals,
            Box::new(Expresion::Interger(5)),
        )),
        Statement::Expression(Expresion::Infix(
            Box::new(Expresion::Interger(5)),
            Operator::Equals,
            Box::new(Expresion::Interger(5)),
        )),
    ];

    assert_eq!(expected_statements.len(), program.statements.len());

    for i in 0..=expected_statements.len() - 1 {
        assert_eq!(program.statements[i], expected_statements[i]);
    }
}

#[test]
fn test_parse_boolean() {
    let input = "true;
        false;
        let foobar = true;
        let barfoo = false;"
        .to_string();
    let program = Parser::new(input).parse_program().unwrap();

    let expected_statements = vec![
        Statement::Expression(Expresion::Bool { value: true }),
        Statement::Expression(Expresion::Bool { value: false }),
        Statement::Let(
            Expresion::Identifer(String::from("foobar")),
            Expresion::Bool { value: true },
        ),
        Statement::Let(
            Expresion::Identifer(String::from("barfoo")),
            Expresion::Bool { value: false },
        ),
    ];

    assert_eq!(expected_statements.len(), program.statements.len());

    for i in 0..=expected_statements.len() - 1 {
        assert_eq!(program.statements[i], expected_statements[i]);
    }
}
