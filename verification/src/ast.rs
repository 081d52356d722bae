//! The syntax tree: statements, expressions, operators and the ranks by
//! which operators bind.

use crate::token::{Token, TokenView};
use vstd::prelude::*;

verus! {

/// An operator of a prefix or an infix expression.
#[derive(PartialEq, Eq, Structural, Clone, Copy, Debug)]
pub enum Operator {
    Minus,
    Plus,
    Multiply,
    Divide,
    Gt,
    Lt,
    Equals,
    NotEquals,
    Not,
}

/// How tightly an operator binds, from the loosest rank to the tightest.
#[derive(PartialEq, Eq, PartialOrd, Ord, Structural, Clone, Copy, Debug)]
pub enum Precedence {
    Lowest,
    Equals,
    Lessgreater,
    Sum,
    Product,
    Prefix,
    Call,
}

/// An expression. Each node owns its operands.
#[derive(PartialEq, Debug)]
pub enum Expresion {
    Identifer(String),
    Interger(u64),
    Bool { value: bool },
    Prefix(Operator, Box<Expresion>),
    Infix(Box<Expresion>, Operator, Box<Expresion>),
}

/// A statement. The first part of a `Let` is the name that is bound.
#[derive(PartialEq, Debug)]
pub enum Statement {
    Let(Expresion, Expresion),
    Return(Expresion),
    Expression(Expresion),
}

/// A parsed text: its statements in source order.
#[derive(PartialEq, Debug)]
pub struct Program {
    pub statements: Vec<Statement>,
}

/// What an [`Expresion`] stands for: the same tree, with names as sequences
/// of characters.
pub ghost enum ExpresionView {
    Identifer(Seq<char>),
    Interger(u64),
    Bool { value: bool },
    Prefix(Operator, Box<ExpresionView>),
    Infix(Box<ExpresionView>, Operator, Box<ExpresionView>),
}

/// What a [`Statement`] stands for.
pub ghost enum StatementView {
    Let(ExpresionView, ExpresionView),
    Return(ExpresionView),
    Expression(ExpresionView),
}

impl Expresion {
    /// The tree that the expression stands for.
    pub open spec fn tree(self) -> ExpresionView
        decreases self,
    {
        match self {
            Expresion::Identifer(name) => ExpresionView::Identifer(name@),
            Expresion::Interger(value) => ExpresionView::Interger(value),
            Expresion::Bool { value } => ExpresionView::Bool { value },
            Expresion::Prefix(operator, operand) => ExpresionView::Prefix(
                operator,
                Box::new((*operand).tree()),
            ),
            Expresion::Infix(left, operator, right) => ExpresionView::Infix(
                Box::new((*left).tree()),
                operator,
                Box::new((*right).tree()),
            ),
        }
    }
}

impl View for Expresion {
    type V = ExpresionView;

    open spec fn view(&self) -> ExpresionView {
        self.tree()
    }
}

impl View for Statement {
    type V = StatementView;

    open spec fn view(&self) -> StatementView {
        match self {
            Statement::Let(name, value) => StatementView::Let(name@, value@),
            Statement::Return(value) => StatementView::Return(value@),
            Statement::Expression(value) => StatementView::Expression(value@),
        }
    }
}

/// What a run of statements stands for, one by one.
pub open spec fn statements_view(statements: Seq<Statement>) -> Seq<StatementView> {
    statements.map_values(|statement: Statement| statement@)
}

impl View for Program {
    type V = Seq<StatementView>;

    open spec fn view(&self) -> Seq<StatementView> {
        statements_view(self.statements@)
    }
}

/// The operator that a token writes, for the nine tokens that write one.
pub open spec fn operator_of(token: TokenView) -> Option<Operator> {
    match token {
        TokenView::MINUS => Some(Operator::Minus),
        TokenView::PLUS => Some(Operator::Plus),
        TokenView::ASTERISK => Some(Operator::Multiply),
        TokenView::SLASH => Some(Operator::Divide),
        TokenView::GT => Some(Operator::Gt),
        TokenView::LT => Some(Operator::Lt),
        TokenView::EQ => Some(Operator::Equals),
        TokenView::NOTEQ => Some(Operator::NotEquals),
        TokenView::BANG => Some(Operator::Not),
        _ => None,
    }
}

/// The token that writes an operator.
pub open spec fn operator_token(operator: Operator) -> TokenView {
    match operator {
        Operator::Minus => TokenView::MINUS,
        Operator::Plus => TokenView::PLUS,
        Operator::Multiply => TokenView::ASTERISK,
        Operator::Divide => TokenView::SLASH,
        Operator::Gt => TokenView::GT,
        Operator::Lt => TokenView::LT,
        Operator::Equals => TokenView::EQ,
        Operator::NotEquals => TokenView::NOTEQ,
        Operator::Not => TokenView::BANG,
    }
}

/// The rank at which a token binds as an infix operator; `Lowest` for a
/// token that is none.
pub open spec fn precedence_of(token: TokenView) -> Precedence {
    match token {
        TokenView::LT | TokenView::GT => Precedence::Lessgreater,
        TokenView::EQ | TokenView::NOTEQ => Precedence::Equals,
        TokenView::PLUS | TokenView::MINUS => Precedence::Sum,
        TokenView::SLASH | TokenView::ASTERISK => Precedence::Product,
        _ => Precedence::Lowest,
    }
}

/// Whether a token stands between the two operands of an infix expression.
pub open spec fn is_infix_operator(token: TokenView) -> bool {
    match token {
        TokenView::LT
        | TokenView::GT
        | TokenView::EQ
        | TokenView::NOTEQ
        | TokenView::MINUS
        | TokenView::PLUS
        | TokenView::SLASH
        | TokenView::ASTERISK => true,
        _ => false,
    }
}

/// The infix operators are the tokens that bind above the lowest rank, and
/// each of them writes an operator.
pub proof fn lemma_infix_operators_bind(token: TokenView)
    ensures
        is_infix_operator(token) <==> precedence_of(token) != Precedence::Lowest,
        is_infix_operator(token) ==> operator_of(token) is Some,
{
}

/// Each operator is written by one token, and by no other.
pub proof fn lemma_operator_token(operator: Operator, token: TokenView)
    ensures
        operator_of(operator_token(operator)) == Some(operator),
        operator_of(token) == Some(operator) <==> token == operator_token(operator),
{
}

impl Operator {
    /// The rank at which the operator binds between two operands; `Lowest`
    /// for `Not`, which stands before its one operand only.
    pub open spec fn infix_rank(self) -> Precedence {
        precedence_of(operator_token(self))
    }

    /// The operator that `value` writes. Only the tokens that write an
    /// operator may be handed in.
    pub fn from(value: Token) -> (operator: Operator)
        requires
            operator_of(value@) is Some,
        ensures
            operator_of(value@) == Some(operator),
    {
        match value {
            Token::MINUS => Operator::Minus,
            Token::PLUS => Operator::Plus,
            Token::ASTERISK => Operator::Multiply,
            Token::SLASH => Operator::Divide,
            Token::GT => Operator::Gt,
            Token::LT => Operator::Lt,
            Token::EQ => Operator::Equals,
            Token::NOTEQ => Operator::NotEquals,
            _ => Operator::Not,
        }
    }
}

impl Precedence {
    /// The place of the rank in the order, counted from 1 for `Lowest`.
    pub open spec fn spec_rank(self) -> u8 {
        match self {
            Precedence::Lowest => 1,
            Precedence::Equals => 2,
            Precedence::Lessgreater => 3,
            Precedence::Sum => 4,
            Precedence::Product => 5,
            Precedence::Prefix => 6,
            Precedence::Call => 7,
        }
    }

    /// The place of the rank in the order, counted from 1 for `Lowest`.
    #[verifier::when_used_as_spec(spec_rank)]
    pub fn rank(self) -> (place: u8)
        ensures
            place == self.spec_rank(),
    {
        match self {
            Precedence::Lowest => 1,
            Precedence::Equals => 2,
            Precedence::Lessgreater => 3,
            Precedence::Sum => 4,
            Precedence::Product => 5,
            Precedence::Prefix => 6,
            Precedence::Call => 7,
        }
    }
}

impl From<Token> for Precedence {
    /// The rank at which `value` binds as an infix operator.
    fn from(value: Token) -> (rank: Precedence) {
        match value {
            Token::LT | Token::GT => Precedence::Lessgreater,
            Token::EQ | Token::NOTEQ => Precedence::Equals,
            Token::PLUS | Token::MINUS => Precedence::Sum,
            Token::SLASH | Token::ASTERISK => Precedence::Product,
            _ => Precedence::Lowest,
        }
    }
}

impl vstd::std_specs::convert::FromSpecImpl<Token> for Precedence {
    open spec fn obeys_from_spec() -> bool {
        true
    }

    open spec fn from_spec(value: Token) -> Precedence {
        precedence_of(value@)
    }
}

} // verus!
