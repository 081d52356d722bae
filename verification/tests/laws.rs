use interpeter::ast::{Expresion, Operator, Precedence, Statement};
use interpeter::lexer::Lexer;
use interpeter::parser::Parser;
use interpeter::token::Token;

const TEXTS: [&str; 16] = [
    "",
    "5",
    "x;",
    "let x = 5; return x;",
    "1 + 2 * 3;",
    "10 - 5 - 2;",
    "-5; !true;",
    "a == b < c + d * e;",
    "a * b + c < d == e",
    "a + b * c == d - e / f; !-g; let h = !i != j;",
    "--5;;;",
    "-a * -b - -c",
    "return 1 < 2 == true; return false != !x",
    "let total = first + second * third / fourth - fifth;",
    "1 > 2 > 3 < 4 < 5",
    "18446744073709551615 + 0",
];

fn scanned(text: &str) -> Vec<Token> {
    let mut lexer = Lexer::new(text.to_string());
    let mut tokens = Vec::new();
    loop {
        let token = lexer.next_token();
        if token == Token::EOF {
            return tokens;
        }
        tokens.push(token);
    }
}

fn operator_token(operator: Operator) -> Token {
    match operator {
        Operator::Minus => Token::MINUS,
        Operator::Plus => Token::PLUS,
        Operator::Multiply => Token::ASTERISK,
        Operator::Divide => Token::SLASH,
        Operator::Gt => Token::GT,
        Operator::Lt => Token::LT,
        Operator::Equals => Token::EQ,
        Operator::NotEquals => Token::NOTEQ,
        Operator::Not => Token::BANG,
    }
}

fn write_expression(tree: &Expresion, out: &mut Vec<Token>) {
    match tree {
        Expresion::Identifer(name) => out.push(Token::IDENT(name.clone())),
        Expresion::Interger(value) => out.push(Token::INT(u128::from(*value))),
        Expresion::Bool { value: true } => out.push(Token::TRUE),
        Expresion::Bool { value: false } => out.push(Token::FALSE),
        Expresion::Prefix(operator, operand) => {
            out.push(operator_token(*operator));
            write_expression(operand, out);
        }
        Expresion::Infix(left, operator, right) => {
            write_expression(left, out);
            out.push(operator_token(*operator));
            write_expression(right, out);
        }
    }
}

fn write_statement(tree: &Statement, out: &mut Vec<Token>) {
    match tree {
        Statement::Let(name, value) => {
            out.push(Token::LET);
            write_expression(name, out);
            out.push(Token::ASSIGN);
            write_expression(value, out);
        }
        Statement::Return(value) => {
            out.push(Token::RETURN);
            write_expression(value, out);
        }
        Statement::Expression(value) => write_expression(value, out),
    }
}

fn infix_rank(operator: Operator) -> u8 {
    Precedence::from(operator_token(operator)).rank()
}

fn nested_by_rank(tree: &Expresion) -> bool {
    match tree {
        Expresion::Prefix(operator, operand) => {
            matches!(operator, Operator::Not | Operator::Minus)
                && !matches!(**operand, Expresion::Infix(..))
                && nested_by_rank(operand)
        }
        Expresion::Infix(left, operator, right) => {
            let left_fits = match &**left {
                Expresion::Infix(_, inner, _) => infix_rank(*inner) >= infix_rank(*operator),
                _ => true,
            };
            let right_fits = match &**right {
                Expresion::Infix(_, inner, _) => infix_rank(*inner) > infix_rank(*operator),
                _ => true,
            };
            *operator != Operator::Not
                && left_fits
                && right_fits
                && nested_by_rank(left)
                && nested_by_rank(right)
        }
        _ => true,
    }
}

fn expressions(tree: &Statement) -> Vec<&Expresion> {
    match tree {
        Statement::Let(name, value) => vec![name, value],
        Statement::Return(value) => vec![value],
        Statement::Expression(value) => vec![value],
    }
}

#[test]
fn tree_keeps_every_token_but_the_semicolons() {
    for text in TEXTS {
        let program = Parser::new(text.to_string()).parse_program().unwrap();
        let mut written = Vec::new();
        for statement in &program.statements {
            write_statement(statement, &mut written);
        }
        let mut tokens = scanned(text);
        tokens.retain(|token| *token != Token::SEMICOLON);
        assert_eq!(written, tokens);
    }
}

#[test]
fn trees_are_nested_by_rank() {
    for text in TEXTS {
        let program = Parser::new(text.to_string()).parse_program().unwrap();
        for statement in &program.statements {
            for tree in expressions(statement) {
                assert!(nested_by_rank(tree));
            }
        }
    }
}

#[test]
fn name_of_a_let_is_an_identifier() {
    for text in TEXTS {
        let program = Parser::new(text.to_string()).parse_program().unwrap();
        for statement in &program.statements {
            if let Statement::Let(name, _) = statement {
                assert!(matches!(name, Expresion::Identifer(_)));
            }
        }
    }
}

#[test]
fn parser_sees_the_tokens_that_the_scanner_gives() {
    assert_eq!(
        scanned("let x = 5;"),
        vec![
            Token::LET,
            Token::IDENT("x".to_string()),
            Token::ASSIGN,
            Token::INT(5),
            Token::SEMICOLON,
        ]
    );
    assert_eq!(
        Parser::new("let x = 5;".to_string()).parse_program().unwrap().statements,
        vec![Statement::Let(Expresion::Identifer("x".to_string()), Expresion::Interger(5))]
    );
}

#[test]
fn scanned_identifiers_are_runs_of_letters_and_no_keywords() {
    let text = "let five = 5; fn_ _x returning iffy a1b2 é truex";
    for token in scanned(text) {
        if let Token::IDENT(name) = token {
            assert!(!name.is_empty());
            assert!(name.chars().all(|c| c.is_ascii_alphabetic() || c == '_'));
            assert_eq!(Token::from_identifier(name.clone()), Token::IDENT(name));
        }
    }
}

#[test]
fn operators_and_their_tokens_match() {
    for operator in [
        Operator::Minus,
        Operator::Plus,
        Operator::Multiply,
        Operator::Divide,
        Operator::Gt,
        Operator::Lt,
        Operator::Equals,
        Operator::NotEquals,
        Operator::Not,
    ] {
        assert_eq!(Operator::from(operator_token(operator)), operator);
        let infix = operator != Operator::Not;
        assert_eq!(Precedence::from(operator_token(operator)) != Precedence::Lowest, infix);
    }
}
