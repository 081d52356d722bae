use interpeter::ast::{Expresion, Operator, Program, Statement};
use interpeter::error::{ParseError, ParseErrorKind};
use interpeter::parser::Parser;
use interpeter::token::Token;

fn parse(text: &str) -> Result<Program, ParseError> {
    Parser::new(text.to_string()).parse_program()
}

fn statements(text: &str) -> Vec<Statement> {
    parse(text).unwrap().statements
}

fn failure(text: &str) -> ParseError {
    parse(text).unwrap_err()
}

fn name(text: &str) -> Expresion {
    Expresion::Identifer(text.to_string())
}

fn number(value: u64) -> Expresion {
    Expresion::Interger(value)
}

fn boolean(value: bool) -> Expresion {
    Expresion::Bool { value }
}

fn prefix(operator: Operator, operand: Expresion) -> Expresion {
    Expresion::Prefix(operator, Box::new(operand))
}

fn infix(left: Expresion, operator: Operator, right: Expresion) -> Expresion {
    Expresion::Infix(Box::new(left), operator, Box::new(right))
}

fn one_expression(text: &str) -> Expresion {
    let mut all = statements(text);
    assert_eq!(all.len(), 1);
    match all.remove(0) {
        Statement::Expression(value) => value,
        other => panic!("not an expression statement: {:?}", other),
    }
}

#[test]
fn let_and_return_statements() {
    assert_eq!(
        parse("let x = 5; return x;"),
        Ok(Program {
            statements: vec![
                Statement::Let(name("x"), number(5)),
                Statement::Return(name("x")),
            ],
        })
    );
}

#[test]
fn multiplication_binds_tighter_than_addition() {
    assert_eq!(
        statements("1 + 2 * 3;"),
        vec![Statement::Expression(infix(
            number(1),
            Operator::Plus,
            infix(number(2), Operator::Multiply, number(3)),
        ))]
    );
    assert_eq!(
        one_expression("1 * 2 + 3;"),
        infix(infix(number(1), Operator::Multiply, number(2)), Operator::Plus, number(3))
    );
}

#[test]
fn operators_of_one_rank_bind_from_the_left() {
    assert_eq!(
        statements("10 - 5 - 2;"),
        vec![Statement::Expression(infix(
            infix(number(10), Operator::Minus, number(5)),
            Operator::Minus,
            number(2),
        ))]
    );
    assert_eq!(
        one_expression("8 / 4 * 2;"),
        infix(infix(number(8), Operator::Divide, number(4)), Operator::Multiply, number(2))
    );
    assert_eq!(
        one_expression("a + b - c + d"),
        infix(
            infix(infix(name("a"), Operator::Plus, name("b")), Operator::Minus, name("c")),
            Operator::Plus,
            name("d"),
        )
    );
}

#[test]
fn prefix_operators() {
    assert_eq!(
        statements("-5; !true;"),
        vec![
            Statement::Expression(prefix(Operator::Minus, number(5))),
            Statement::Expression(prefix(Operator::Not, boolean(true))),
        ]
    );
}

#[test]
fn missing_identifier_fails_the_parse() {
    assert_eq!(
        parse("let = 5;"),
        Err(ParseError { kind: ParseErrorKind::MissingIdentifier, found: Token::ASSIGN })
    );
    assert_eq!(
        failure("let 5 = 5;"),
        ParseError { kind: ParseErrorKind::MissingIdentifier, found: Token::INT(5) }
    );
    assert_eq!(
        failure("let"),
        ParseError { kind: ParseErrorKind::MissingIdentifier, found: Token::EOF }
    );
    assert_eq!(
        failure("let let = 1;"),
        ParseError { kind: ParseErrorKind::MissingIdentifier, found: Token::LET }
    );
}

#[test]
fn missing_assign_fails_the_parse() {
    assert_eq!(
        failure("let x 5;"),
        ParseError { kind: ParseErrorKind::MissingAssign, found: Token::INT(5) }
    );
    assert_eq!(
        failure("let x == 5;"),
        ParseError { kind: ParseErrorKind::MissingAssign, found: Token::EQ }
    );
    assert_eq!(
        failure("let x"),
        ParseError { kind: ParseErrorKind::MissingAssign, found: Token::EOF }
    );
    assert_eq!(
        failure("let x;"),
        ParseError { kind: ParseErrorKind::MissingAssign, found: Token::SEMICOLON }
    );
}

#[test]
fn token_that_begins_no_expression_fails_the_parse() {
    assert_eq!(
        failure("+ 5;"),
        ParseError { kind: ParseErrorKind::NoPrefixRule, found: Token::PLUS }
    );
    assert_eq!(
        failure("let x = ;"),
        ParseError { kind: ParseErrorKind::NoPrefixRule, found: Token::SEMICOLON }
    );
    assert_eq!(
        failure("let x ="),
        ParseError { kind: ParseErrorKind::NoPrefixRule, found: Token::EOF }
    );
    assert_eq!(
        failure("return"),
        ParseError { kind: ParseErrorKind::NoPrefixRule, found: Token::EOF }
    );
    assert_eq!(
        failure("5 +"),
        ParseError { kind: ParseErrorKind::NoPrefixRule, found: Token::EOF }
    );
    assert_eq!(
        failure("5 + * 2"),
        ParseError { kind: ParseErrorKind::NoPrefixRule, found: Token::ASTERISK }
    );
    assert_eq!(
        failure("!;"),
        ParseError { kind: ParseErrorKind::NoPrefixRule, found: Token::SEMICOLON }
    );
    assert_eq!(
        failure("(1 + 2)"),
        ParseError { kind: ParseErrorKind::NoPrefixRule, found: Token::LPAREN }
    );
    assert_eq!(
        failure("fn"),
        ParseError { kind: ParseErrorKind::NoPrefixRule, found: Token::FUNCTION }
    );
    assert_eq!(
        failure("if"),
        ParseError { kind: ParseErrorKind::NoPrefixRule, found: Token::IF }
    );
}

#[test]
fn illegal_token_fails_the_parse() {
    assert_eq!(
        failure("@"),
        ParseError { kind: ParseErrorKind::NoPrefixRule, found: Token::ILLEGAL }
    );
    assert_eq!(
        failure("1 + 340282366920938463463374607431768211456"),
        ParseError { kind: ParseErrorKind::NoPrefixRule, found: Token::ILLEGAL }
    );
}

#[test]
fn integer_beyond_64_bits_fails_the_parse() {
    assert_eq!(
        statements("18446744073709551615;"),
        vec![Statement::Expression(number(u64::MAX))]
    );
    assert_eq!(
        failure("18446744073709551616;"),
        ParseError {
            kind: ParseErrorKind::IntegerTooLarge,
            found: Token::INT(18446744073709551616),
        }
    );
    assert_eq!(
        failure("let big = 340282366920938463463374607431768211455;"),
        ParseError { kind: ParseErrorKind::IntegerTooLarge, found: Token::INT(u128::MAX) }
    );
    assert_eq!(
        failure("1 + -99999999999999999999"),
        ParseError {
            kind: ParseErrorKind::IntegerTooLarge,
            found: Token::INT(99999999999999999999),
        }
    );
}

#[test]
fn first_error_fails_the_whole_text() {
    assert_eq!(
        failure("let a = 1; let b = 2; let = 3; let d = 4;"),
        ParseError { kind: ParseErrorKind::MissingIdentifier, found: Token::ASSIGN }
    );
    assert_eq!(
        failure("1; 2; ) 3;"),
        ParseError { kind: ParseErrorKind::NoPrefixRule, found: Token::RPAREN }
    );
}

#[test]
fn empty_text_is_an_empty_program() {
    assert_eq!(parse(""), Ok(Program { statements: vec![] }));
    assert_eq!(parse("  \n\t "), Ok(Program { statements: vec![] }));
}

#[test]
fn parser_at_the_end_gives_an_empty_program() {
    let mut parser = Parser::new("let x = 1; x;".to_string());
    assert_eq!(parser.parse_program().unwrap().statements.len(), 2);
    assert_eq!(parser.parse_program(), Ok(Program { statements: vec![] }));
    assert_eq!(parser.parse_program(), Ok(Program { statements: vec![] }));
}

#[test]
fn closing_semicolon_may_be_left_out() {
    assert_eq!(statements("5"), vec![Statement::Expression(number(5))]);
    assert_eq!(
        statements("5 + 5"),
        vec![Statement::Expression(infix(number(5), Operator::Plus, number(5)))]
    );
    assert_eq!(
        statements("let x = 5 let y = x return y"),
        vec![
            Statement::Let(name("x"), number(5)),
            Statement::Let(name("y"), name("x")),
            Statement::Return(name("y")),
        ]
    );
    assert_eq!(
        statements("a b"),
        vec![Statement::Expression(name("a")), Statement::Expression(name("b"))]
    );
}

#[test]
fn semicolon_ends_an_expression() {
    assert_eq!(
        failure("1; + 2"),
        ParseError { kind: ParseErrorKind::NoPrefixRule, found: Token::PLUS }
    );
    assert_eq!(
        failure("1 + 2; * 3"),
        ParseError { kind: ParseErrorKind::NoPrefixRule, found: Token::ASTERISK }
    );
    assert_eq!(
        failure("5;;"),
        ParseError { kind: ParseErrorKind::NoPrefixRule, found: Token::SEMICOLON }
    );
}

#[test]
fn prefix_operator_takes_the_nearest_operand_only() {
    assert_eq!(
        one_expression("-5 * 3;"),
        infix(prefix(Operator::Minus, number(5)), Operator::Multiply, number(3))
    );
    assert_eq!(
        one_expression("!a == b"),
        infix(prefix(Operator::Not, name("a")), Operator::Equals, name("b"))
    );
    assert_eq!(
        one_expression("-1 + 2;"),
        infix(prefix(Operator::Minus, number(1)), Operator::Plus, number(2))
    );
    assert_eq!(
        one_expression("a * -b"),
        infix(name("a"), Operator::Multiply, prefix(Operator::Minus, name("b")))
    );
    assert_eq!(
        one_expression("a - -b - c"),
        infix(
            infix(name("a"), Operator::Minus, prefix(Operator::Minus, name("b"))),
            Operator::Minus,
            name("c"),
        )
    );
}

#[test]
fn prefix_operators_nest() {
    assert_eq!(
        one_expression("!-a"),
        prefix(Operator::Not, prefix(Operator::Minus, name("a")))
    );
    assert_eq!(
        one_expression("--5;"),
        prefix(Operator::Minus, prefix(Operator::Minus, number(5)))
    );
    assert_eq!(
        one_expression("!!false"),
        prefix(Operator::Not, prefix(Operator::Not, boolean(false)))
    );
}

#[test]
fn value_of_let_and_return_is_a_whole_expression() {
    assert_eq!(
        statements("let x = -a * b + 1;"),
        vec![Statement::Let(
            name("x"),
            infix(
                infix(prefix(Operator::Minus, name("a")), Operator::Multiply, name("b")),
                Operator::Plus,
                number(1),
            ),
        )]
    );
    assert_eq!(
        statements("return -1 + 2;"),
        vec![Statement::Return(infix(
            prefix(Operator::Minus, number(1)),
            Operator::Plus,
            number(2),
        ))]
    );
    assert_eq!(
        statements("return !true == false;"),
        vec![Statement::Return(infix(
            prefix(Operator::Not, boolean(true)),
            Operator::Equals,
            boolean(false),
        ))]
    );
}

#[test]
fn four_ranks_of_infix_operators_nest_by_rank() {
    assert_eq!(
        one_expression("a == b < c + d * e;"),
        infix(
            name("a"),
            Operator::Equals,
            infix(
                name("b"),
                Operator::Lt,
                infix(
                    name("c"),
                    Operator::Plus,
                    infix(name("d"), Operator::Multiply, name("e")),
                ),
            ),
        )
    );
    assert_eq!(
        one_expression("a * b + c < d == e;"),
        infix(
            infix(
                infix(
                    infix(name("a"), Operator::Multiply, name("b")),
                    Operator::Plus,
                    name("c"),
                ),
                Operator::Lt,
                name("d"),
            ),
            Operator::Equals,
            name("e"),
        )
    );
    assert_eq!(
        one_expression("a + b * c == d - e / f"),
        infix(
            infix(
                name("a"),
                Operator::Plus,
                infix(name("b"), Operator::Multiply, name("c")),
            ),
            Operator::Equals,
            infix(
                name("d"),
                Operator::Minus,
                infix(name("e"), Operator::Divide, name("f")),
            ),
        )
    );
    assert_eq!(
        one_expression("1 < 2 != 3 > 4"),
        infix(
            infix(number(1), Operator::Lt, number(2)),
            Operator::NotEquals,
            infix(number(3), Operator::Gt, number(4)),
        )
    );
}

#[test]
fn statements_keep_source_order() {
    assert_eq!(
        statements("1; let a = 2; return 3; b; return c; let d = true;"),
        vec![
            Statement::Expression(number(1)),
            Statement::Let(name("a"), number(2)),
            Statement::Return(number(3)),
            Statement::Expression(name("b")),
            Statement::Return(name("c")),
            Statement::Let(name("d"), boolean(true)),
        ]
    );
}

#[test]
fn keyword_cannot_be_bound_or_used_as_a_name() {
    assert_eq!(
        failure("let if = 1;"),
        ParseError { kind: ParseErrorKind::MissingIdentifier, found: Token::IF }
    );
    assert_eq!(
        failure("let x = else;"),
        ParseError { kind: ParseErrorKind::NoPrefixRule, found: Token::ELSE }
    );
}
