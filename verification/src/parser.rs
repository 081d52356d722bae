//! The parser: from the tokens of a text to its syntax tree, by precedence
//! climbing over a window of two tokens.

use crate::ast::{
    is_infix_operator, lemma_infix_operators_bind, operator_of, precedence_of, statements_view,
    Expresion, ExpresionView, Operator, Precedence, Program, Statement, StatementView,
};
use crate::error::{ParseError, ParseErrorKind, ParseErrorView};
use crate::grammar;
use crate::grammar::{
    after_statements, after_steps, lemma_chain_step, lemma_expression_of_parts,
    lemma_token_at_after, token_at, tokens_after, Reading,
};
use crate::lexer::{tokenize, tokens_from, Lexer};
use crate::token::{Token, TokenView};
use vstd::prelude::*;

verus! {

/// A parser over one text. It owns the scanner of the text and the two
/// tokens it looks at: the one it rests on and the one behind it.
pub struct Parser {
    lexer: Lexer,
    cur_token: Token,
    next_token: Token,
}

impl View for Parser {
    type V = Seq<TokenView>;

    /// The tokens from the one the parser rests on up to the end of the
    /// text, `EOF` left out.
    closed spec fn view(&self) -> Seq<TokenView> {
        self.ahead()
    }
}

/// What the outcome of a parse stands for.
pub open spec fn outcome_view(outcome: Result<Program, ParseError>) -> Result<
    Seq<StatementView>,
    ParseErrorView,
> {
    match outcome {
        Ok(program) => Ok(program@),
        Err(error) => Err(error@),
    }
}

/// Whether `result`, given by a parser that had the tokens `before` to read
/// and has the tokens `after` left, is the reading `expected`. After an
/// error the parser rests on the token that it reports.
spec fn was_read<T: View>(
    result: Result<T, ParseError>,
    expected: Reading<T::V>,
    before: Seq<TokenView>,
    after: Seq<TokenView>,
) -> bool {
    match result {
        Ok(tree) => {
            &&& expected matches Ok((expected_tree, steps))
            &&& tree@ == expected_tree
            &&& steps < before.len()
            &&& after =~= before.skip(steps as int)
        },
        Err(error) => {
            &&& expected matches Err(expected_error)
            &&& error@ == expected_error
            &&& token_at(after, 0) == error@.found
        },
    }
}

impl Parser {
    /// The tokens in the window and those that the scanner has yet to give,
    /// up to the first `EOF`.
    #[verifier::opaque]
    spec fn ahead(&self) -> Seq<TokenView> {
        if self.cur_token@ is EOF {
            Seq::empty()
        } else if self.next_token@ is EOF {
            seq![self.cur_token@]
        } else {
            seq![self.cur_token@, self.next_token@] + self.lexer.pending()
        }
    }

    /// The window shows the first two of the tokens that are left.
    proof fn lemma_window(&self)
        ensures
            token_at(self@, 0) == self.cur_token@,
            self@.len() > 0 ==> token_at(self@, 1) == self.next_token@,
            self@.len() == 0 <==> self.cur_token@ is EOF,
    {
        reveal(Parser::ahead);
    }

    /// A parser at the beginning of `input`.
    pub fn new(input: String) -> (parser: Parser)
        ensures
            parser@ == tokenize(input@),
    {
        let mut lexer = Lexer::new(input);
        let cur_token = lexer.next_token();
        let ghost middle = lexer@.cursor;
        let next_token = lexer.next_token();
        let parser = Parser { lexer, cur_token, next_token };
        proof {
            reveal(Parser::ahead);
            assert(tokens_from(input@, middle) == if next_token@ is EOF {
                Seq::<TokenView>::empty()
            } else {
                seq![next_token@] + parser.lexer.pending()
            });
            assert(parser@ =~= tokenize(input@));
        }
        parser
    }

    /// Moves the window by one token.
    fn advance_token(&mut self)
        ensures
            old(self)@.len() > 0 ==> final(self)@ == old(self)@.skip(1),
    {
        let ghost pending = self.lexer.pending();
        let mut incoming = self.lexer.next_token();
        proof {
            reveal(Parser::ahead);
            assert(pending == if incoming@ is EOF {
                Seq::<TokenView>::empty()
            } else {
                seq![incoming@] + self.lexer.pending()
            });
        }
        std::mem::swap(&mut self.next_token, &mut incoming);
        self.cur_token = incoming;
    }

    /// Parses the whole text: its statements in source order. The first
    /// statement that cannot be read fails the parse, and no part of a
    /// program is given.
    pub fn parse_program(&mut self) -> (result: Result<Program, ParseError>)
        ensures
            outcome_view(result) == grammar::program(old(self)@),
            result is Ok ==> final(self)@.len() == 0,
            result matches Err(error) ==> token_at(final(self)@, 0) == error@.found,
    {
        let mut statements: Vec<Statement> = Vec::new();
        proof {
            assert(statements_view(statements@) =~= Seq::<StatementView>::empty());
            if grammar::program(self@) is Ok {
                assert(statements_view(statements@) + grammar::program(self@)->Ok_0
                    =~= grammar::program(self@)->Ok_0);
            }
        }
        while !self.cur_token_is(Token::EOF)
            invariant
                grammar::program(old(self)@) == after_statements(
                    statements_view(statements@),
                    grammar::program(self@),
                ),
            decreases self@.len(),
        {
            let ghost here = self@;
            let ghost read = statements_view(statements@);
            let statement = match self.parse_statement() {
                Ok(statement) => statement,
                Err(error) => {
                    return Err(error);
                },
            };
            let ghost steps = grammar::statement(here)->Ok_0.1;
            self.advance_token();
            statements.push(statement);
            proof {
                assert(self@ =~= tokens_after(here, steps + 1));
                assert(statements_view(statements@) =~= read.push(statement@));
                let rest = grammar::program(self@);
                assert(grammar::program(here) == after_statements(seq![statement@], rest));
                if rest is Ok {
                    assert(read + (seq![statement@] + rest->Ok_0) =~= read.push(statement@)
                        + rest->Ok_0);
                }
            }
        }
        proof {
            self.lemma_window();
            assert(statements_view(statements@) + Seq::<StatementView>::empty()
                =~= statements_view(statements@));
        }
        Ok(Program { statements })
    }

    /// Parses the statement that begins with the token on which the parser
    /// rests.
    fn parse_statement(&mut self) -> (result: Result<Statement, ParseError>)
        requires
            old(self)@.len() > 0,
        ensures
            was_read(result, grammar::statement(old(self)@), old(self)@, final(self)@),
    {
        proof {
            self.lemma_window();
        }
        match &self.cur_token {
            Token::LET => self.parse_let_statement(),
            Token::RETURN => self.parse_return_statement(),
            _ => match self.parse_expression(Precedence::Lowest) {
                Ok(value) => Ok(Statement::Expression(value)),
                Err(error) => Err(error),
            },
        }
    }

    /// Parses the statement that begins with the `let` on which the parser
    /// rests.
    fn parse_let_statement(&mut self) -> (result: Result<Statement, ParseError>)
        requires
            old(self)@.len() > 0,
        ensures
            was_read(result, grammar::let_statement(old(self)@), old(self)@, final(self)@),
    {
        let ghost before = self@;
        self.advance_token();
        proof {
            self.lemma_window();
        }
        let identifier = match &self.cur_token {
            Token::IDENT(name) => name.clone(),
            _ => {
                return Err(
                    ParseError {
                        kind: ParseErrorKind::MissingIdentifier,
                        found: self.cur_token.clone(),
                    },
                );
            },
        };
        self.advance_token();
        proof {
            self.lemma_window();
            assert(self@ =~= before.skip(2));
        }
        if !self.expect_peek(Token::ASSIGN) {
            proof {
                self.lemma_window();
            }
            return Err(
                ParseError { kind: ParseErrorKind::MissingAssign, found: self.cur_token.clone() },
            );
        }
        proof {
            assert(self@ =~= tokens_after(before, 3));
        }
        match self.parse_expression(Precedence::Lowest) {
            Ok(value) => Ok(Statement::Let(Expresion::Identifer(identifier), value)),
            Err(error) => Err(error),
        }
    }

    /// Parses the statement that begins with the `return` on which the
    /// parser rests.
    fn parse_return_statement(&mut self) -> (result: Result<Statement, ParseError>)
        requires
            old(self)@.len() > 0,
        ensures
            was_read(
                result,
                grammar::return_statement(old(self)@),
                old(self)@,
                final(self)@,
            ),
    {
        self.advance_token();
        match self.parse_expression(Precedence::Lowest) {
            Ok(value) => Ok(Statement::Return(value)),
            Err(error) => Err(error),
        }
    }

    /// Parses the expression that begins with the token on which the parser
    /// rests, taking in the infix operators that bind above `precedence`.
    fn parse_expression(&mut self, precedence: Precedence) -> (result: Result<
        Expresion,
        ParseError,
    >)
        ensures
            was_read(
                result,
                grammar::expression(old(self)@, precedence),
                old(self)@,
                final(self)@,
            ),
        decreases old(self)@.len(), 2nat,
    {
        let ghost before = self@;
        proof {
            self.lemma_window();
        }
        let first = match &self.cur_token {
            Token::BANG | Token::MINUS => self.parse_prefix(),
            Token::IDENT(_) => self.parse_identifier(),
            Token::INT(_) => self.parse_integer(),
            Token::TRUE | Token::FALSE => self.parse_boolean(),
            _ => Err(
                ParseError { kind: ParseErrorKind::NoPrefixRule, found: self.cur_token.clone() },
            ),
        };
        assert(was_read(first, grammar::prefix_expression(before), before, self@));
        let mut expression = match first {
            Ok(expression) => expression,
            Err(error) => {
                proof {
                    self.lemma_window();
                }
                return Err(error);
            },
        };
        let ghost first_steps = grammar::prefix_expression(before)->Ok_0.1;
        let ghost mut steps = first_steps;
        proof {
            lemma_token_at_after(before, first_steps, 1);
        }
        if self.next_token_is(Token::SEMICOLON) {
            self.advance_token();
            proof {
                steps = steps + 1;
            }
        }
        proof {
            assert(self@ =~= tokens_after(before, steps));
            lemma_expression_of_parts(before, precedence, expression@, first_steps, steps);
        }
        while !self.cur_token_is(Token::SEMICOLON) && precedence.rank()
            < self.precedence_of_next_token().rank()
            invariant
                before == old(self)@,
                steps < before.len(),
                self@ == before.skip(steps as int),
                grammar::expression(before, precedence) == after_steps(
                    steps,
                    grammar::infix_chain(self@, precedence, expression@),
                ),
            decreases self@.len(),
        {
            let ghost here = self@;
            let ghost left = expression@;
            let ghost operator = token_at(here, 1);
            self.advance_token();
            proof {
                self.lemma_window();
                lemma_infix_operators_bind(operator);
                assert(token_at(self@, 0) == operator);
                assert(tokens_after(self@, 1) =~= tokens_after(here, 2));
            }
            let joined = match &self.cur_token {
                Token::LT
                | Token::GT
                | Token::EQ
                | Token::NOTEQ
                | Token::MINUS
                | Token::PLUS
                | Token::SLASH
                | Token::ASTERISK => self.parse_infix(expression),
                // Never met: what binds above the lowest rank is an infix operator.
                _ => {
                    return Ok(expression);
                },
            };
            let ghost right = grammar::expression(tokens_after(here, 2), precedence_of(operator));
            expression = match joined {
                Ok(expression) => expression,
                Err(error) => {
                    return Err(error);
                },
            };
            proof {
                let (right_tree, right_steps) = right->Ok_0;
                lemma_chain_step(here, precedence, left, right_tree, right_steps);
                assert(self@ =~= tokens_after(here, right_steps + 2));
                assert(self@ =~= before.skip((steps + right_steps + 2) as int));
                steps = steps + right_steps + 2;
            }
        }
        Ok(expression)
    }

    /// The name on which the parser rests, as an expression.
    fn parse_identifier(&self) -> (result: Result<Expresion, ParseError>)
        ensures
            match result {
                Ok(tree) => token_at(self@, 0) == TokenView::IDENT(tree@->Identifer_0)
                    && tree@ is Identifer,
                Err(error) => !(token_at(self@, 0) is IDENT) && error@ == (ParseErrorView {
                    kind: ParseErrorKind::NoPrefixRule,
                    found: token_at(self@, 0),
                }),
            },
    {
        proof {
            self.lemma_window();
        }
        match &self.cur_token {
            Token::IDENT(name) => Ok(Expresion::Identifer(name.clone())),
            _ => Err(
                ParseError { kind: ParseErrorKind::NoPrefixRule, found: self.cur_token.clone() },
            ),
        }
    }

    /// The integer literal on which the parser rests, as an expression. A
    /// literal that does not fit in 64 bits is an error.
    fn parse_integer(&self) -> (result: Result<Expresion, ParseError>)
        ensures
            match result {
                Ok(tree) => token_at(self@, 0) == TokenView::INT(tree@->Interger_0 as u128)
                    && tree@ is Interger,
                Err(error) => error@.found == token_at(self@, 0) && (match token_at(self@, 0) {
                    TokenView::INT(value) => value > u64::MAX && error@.kind
                        == ParseErrorKind::IntegerTooLarge,
                    _ => error@.kind == ParseErrorKind::NoPrefixRule,
                }),
            },
    {
        proof {
            self.lemma_window();
        }
        match &self.cur_token {
            Token::INT(value) => {
                if *value <= u64::MAX as u128 {
                    Ok(Expresion::Interger(*value as u64))
                } else {
                    Err(
                        ParseError {
                            kind: ParseErrorKind::IntegerTooLarge,
                            found: self.cur_token.clone(),
                        },
                    )
                }
            },
            _ => Err(
                ParseError { kind: ParseErrorKind::NoPrefixRule, found: self.cur_token.clone() },
            ),
        }
    }

    /// The operator that the token on which the parser rests writes.
    fn parse_operator(&self) -> (operator: Operator)
        requires
            operator_of(token_at(self@, 0)) is Some,
        ensures
            operator_of(token_at(self@, 0)) == Some(operator),
    {
        proof {
            self.lemma_window();
        }
        Operator::from(self.cur_token.clone())
    }

    /// The truth value on which the parser rests, as an expression.
    fn parse_boolean(&self) -> (result: Result<Expresion, ParseError>)
        ensures
            match result {
                Ok(tree) => match token_at(self@, 0) {
                    TokenView::TRUE => tree@ == (ExpresionView::Bool { value: true }),
                    TokenView::FALSE => tree@ == (ExpresionView::Bool { value: false }),
                    _ => false,
                },
                Err(error) => !(token_at(self@, 0) is TRUE) && !(token_at(self@, 0) is FALSE)
                    && error@ == (ParseErrorView {
                    kind: ParseErrorKind::NoPrefixRule,
                    found: token_at(self@, 0),
                }),
            },
    {
        proof {
            self.lemma_window();
        }
        match &self.cur_token {
            Token::TRUE => Ok(Expresion::Bool { value: true }),
            Token::FALSE => Ok(Expresion::Bool { value: false }),
            _ => Err(
                ParseError { kind: ParseErrorKind::NoPrefixRule, found: self.cur_token.clone() },
            ),
        }
    }

    /// Parses the prefix operator on which the parser rests, with its
    /// operand.
    fn parse_prefix(&mut self) -> (result: Result<Expresion, ParseError>)
        requires
            token_at(old(self)@, 0) is BANG || token_at(old(self)@, 0) is MINUS,
        ensures
            was_read(
                result,
                grammar::prefix_expression(old(self)@),
                old(self)@,
                final(self)@,
            ),
        decreases old(self)@.len(), 1nat,
    {
        let operator = self.parse_operator();
        self.advance_token();
        match self.parse_expression(Precedence::Prefix) {
            Ok(operand) => Ok(Expresion::Prefix(operator, Box::new(operand))),
            Err(error) => Err(error),
        }
    }

    /// Parses the right operand of the infix operator on which the parser
    /// rests, and joins it to `left`.
    fn parse_infix(&mut self, left: Expresion) -> (result: Result<Expresion, ParseError>)
        requires
            is_infix_operator(token_at(old(self)@, 0)),
        ensures
            match result {
                Ok(tree) => {
                    &&& grammar::expression(
                        tokens_after(old(self)@, 1),
                        precedence_of(token_at(old(self)@, 0)),
                    ) matches Ok((right, steps))
                    &&& tree@ == ExpresionView::Infix(
                        Box::new(left@),
                        operator_of(token_at(old(self)@, 0))->0,
                        Box::new(right),
                    )
                    &&& steps + 1 < old(self)@.len()
                    &&& final(self)@ == old(self)@.skip(steps + 1 as int)
                },
                Err(error) => {
                    &&& grammar::expression(
                        tokens_after(old(self)@, 1),
                        precedence_of(token_at(old(self)@, 0)),
                    ) == Err::<(ExpresionView, nat), ParseErrorView>(error@)
                    &&& token_at(final(self)@, 0) == error@.found
                },
            },
        decreases old(self)@.len(), 0nat,
    {
        let operator = self.parse_operator();
        let precedence = self.precedence_of_cur_token();
        self.advance_token();
        match self.parse_expression(precedence) {
            Ok(right) => Ok(Expresion::Infix(Box::new(left), operator, Box::new(right))),
            Err(error) => Err(error),
        }
    }

    /// Whether the parser rests on `token`.
    fn cur_token_is(&self, token: Token) -> (same: bool)
        ensures
            same == (token_at(self@, 0) == token@),
    {
        proof {
            self.lemma_window();
        }
        self.cur_token == token
    }

    /// Whether `token` is behind the token on which the parser rests.
    fn next_token_is(&self, token: Token) -> (same: bool)
        ensures
            self@.len() > 0 ==> same == (token_at(self@, 1) == token@),
    {
        proof {
            self.lemma_window();
        }
        self.next_token == token
    }

    /// Steps over `token` where the parser rests on it, and says whether it
    /// did.
    fn expect_peek(&mut self, token: Token) -> (met: bool)
        ensures
            met == (token_at(old(self)@, 0) == token@),
            met && old(self)@.len() > 0 ==> final(self)@ == old(self)@.skip(1),
            !met ==> final(self)@ == old(self)@,
    {
        if self.cur_token_is(token) {
            self.advance_token();
            true
        } else {
            false
        }
    }

    /// The rank of the token on which the parser rests.
    fn precedence_of_cur_token(&self) -> (rank: Precedence)
        ensures
            rank == precedence_of(token_at(self@, 0)),
    {
        proof {
            self.lemma_window();
        }
        Precedence::from(self.cur_token.clone())
    }

    /// The rank of the token behind the one on which the parser rests.
    fn precedence_of_next_token(&self) -> (rank: Precedence)
        ensures
            self@.len() > 0 ==> rank == precedence_of(token_at(self@, 1)),
    {
        proof {
            self.lemma_window();
        }
        Precedence::from(self.next_token.clone())
    }
}

} // verus!
