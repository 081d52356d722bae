//! The grammar, as functions from a sequence of tokens to what the parser
//! makes of it.
//!
//! The parser looks at a sequence of tokens through a window of two: the
//! token it rests on and the one behind it. Each function here takes the
//! tokens from the one the parser rests on, and gives, beside the tree, the
//! number of steps by which the parser has moved when the tree is built. It
//! then rests on the last token of what it has read, which is the semicolon
//! where one closes an expression.

use crate::ast::{
    lemma_operator_token, operator_of, precedence_of, ExpresionView, Operator, Precedence,
    StatementView,
};
use crate::error::{ParseErrorKind, ParseErrorView};
use crate::token::TokenView;
use vstd::prelude::*;

verus! {

/// The token at `index`; behind the last token there is `EOF` for ever.
pub open spec fn token_at(tokens: Seq<TokenView>, index: nat) -> TokenView {
    if index < tokens.len() {
        tokens[index as int]
    } else {
        TokenView::EOF
    }
}

/// The tokens that are left when `steps` of them are left behind.
pub open spec fn tokens_after(tokens: Seq<TokenView>, steps: nat) -> Seq<TokenView> {
    if steps <= tokens.len() {
        tokens.skip(steps as int)
    } else {
        Seq::empty()
    }
}

/// What the parser makes of the tokens before it: a tree of the kind `T`
/// and the number of steps by which it has moved, or the error on which it
/// has stopped.
pub type Reading<T> = Result<(T, nat), ParseErrorView>;

/// The reading that gives `tree` with the parser moved by `steps`.
pub open spec fn read_in<T>(steps: nat, tree: T) -> Reading<T> {
    Ok((tree, steps))
}

/// The reading `reading`, made after the parser had moved by `steps`
/// already.
pub open spec fn after_steps<T>(steps: nat, reading: Reading<T>) -> Reading<T> {
    match reading {
        Ok((tree, more)) => Ok((tree, steps + more)),
        Err(error) => Err(error),
    }
}

/// The expression that begins with the first token and is complete without
/// an infix operator behind it: a name, a literal, or a prefix operator with
/// its operand.
pub open spec fn prefix_expression(tokens: Seq<TokenView>) -> Reading<ExpresionView>
    decreases tokens.len(), 1nat,
{
    match token_at(tokens, 0) {
        TokenView::BANG | TokenView::MINUS => match expression(
            tokens_after(tokens, 1),
            Precedence::Prefix,
        ) {
            Ok((operand, steps)) => Ok(
                (
                    ExpresionView::Prefix(operator_of(token_at(tokens, 0))->0, Box::new(operand)),
                    steps + 1,
                ),
            ),
            Err(error) => Err(error),
        },
        TokenView::IDENT(name) => Ok((ExpresionView::Identifer(name), 0)),
        TokenView::INT(value) => if value <= u64::MAX {
            Ok((ExpresionView::Interger(value as u64), 0))
        } else {
            Err(
                ParseErrorView {
                    kind: ParseErrorKind::IntegerTooLarge,
                    found: TokenView::INT(value),
                },
            )
        },
        TokenView::TRUE => Ok((ExpresionView::Bool { value: true }, 0)),
        TokenView::FALSE => Ok((ExpresionView::Bool { value: false }, 0)),
        other => Err(ParseErrorView { kind: ParseErrorKind::NoPrefixRule, found: other }),
    }
}

/// The expression that begins with the first token and takes in every infix
/// operator that binds above `floor`, with its right operand. A semicolon
/// right behind the first operand is stepped onto, and ends the expression.
pub open spec fn expression(tokens: Seq<TokenView>, floor: Precedence) -> Reading<ExpresionView>
    decreases tokens.len(), 2nat,
{
    match prefix_expression(tokens) {
        Ok((left, steps)) => {
            let rest = if token_at(tokens, steps + 1) is SEMICOLON {
                steps + 1
            } else {
                steps
            };
            after_steps(rest, infix_chain(tokens_after(tokens, rest), floor, left))
        },
        Err(error) => Err(error),
    }
}

/// What becomes of the expression `left`, on whose last token the parser
/// rests, as long as an infix operator that binds above `floor` follows: the
/// operator's right operand is read at the operator's own rank, so that of
/// two operators of one rank the left one binds first, and the two operands
/// become the left operand of what follows. A semicolon on which the parser
/// rests ends the chain.
pub open spec fn infix_chain(tokens: Seq<TokenView>, floor: Precedence, left: ExpresionView)
    -> Reading<ExpresionView>
    decreases tokens.len(), 0nat,
{
    let operator = token_at(tokens, 1);
    if token_at(tokens, 0) is SEMICOLON || floor.rank() >= precedence_of(operator).rank() {
        Ok((left, 0))
    } else {
        match expression(tokens_after(tokens, 2), precedence_of(operator)) {
            Ok((right, steps)) => after_steps(
                steps + 2,
                infix_chain(
                    tokens_after(tokens, steps + 2),
                    floor,
                    ExpresionView::Infix(
                        Box::new(left),
                        operator_of(operator)->0,
                        Box::new(right),
                    ),
                ),
            ),
            Err(error) => Err(error),
        }
    }
}

/// The statement that begins with `let`: the name, `=`, and the value.
pub open spec fn let_statement(tokens: Seq<TokenView>) -> Reading<StatementView> {
    match token_at(tokens, 1) {
        TokenView::IDENT(name) => if token_at(tokens, 2) is ASSIGN {
            match expression(tokens_after(tokens, 3), Precedence::Lowest) {
                Ok((value, steps)) => Ok(
                    (StatementView::Let(ExpresionView::Identifer(name), value), steps + 3),
                ),
                Err(error) => Err(error),
            }
        } else {
            Err(
                ParseErrorView {
                    kind: ParseErrorKind::MissingAssign,
                    found: token_at(tokens, 2),
                },
            )
        },
        other => Err(ParseErrorView { kind: ParseErrorKind::MissingIdentifier, found: other }),
    }
}

/// The statement that begins with `return`: the value that follows.
pub open spec fn return_statement(tokens: Seq<TokenView>) -> Reading<StatementView> {
    match expression(tokens_after(tokens, 1), Precedence::Lowest) {
        Ok((value, steps)) => Ok((StatementView::Return(value), steps + 1)),
        Err(error) => Err(error),
    }
}

/// The statement that begins with the first token: a `let`, a `return`, or
/// else an expression by itself.
pub open spec fn statement(tokens: Seq<TokenView>) -> Reading<StatementView> {
    match token_at(tokens, 0) {
        TokenView::LET => let_statement(tokens),
        TokenView::RETURN => return_statement(tokens),
        _ => match expression(tokens, Precedence::Lowest) {
            Ok((value, steps)) => Ok((StatementView::Expression(value), steps)),
            Err(error) => Err(error),
        },
    }
}

/// The statements `rest` with the statements `read` before them.
pub open spec fn after_statements(
    read: Seq<StatementView>,
    rest: Result<Seq<StatementView>, ParseErrorView>,
) -> Result<Seq<StatementView>, ParseErrorView> {
    match rest {
        Ok(rest) => Ok(read + rest),
        Err(error) => Err(error),
    }
}

/// The statements of a text, in source order: one after the other up to the
/// end of the tokens, the parser moving one step on behind each. The first
/// statement that cannot be read fails the whole text.
pub open spec fn program(tokens: Seq<TokenView>) -> Result<Seq<StatementView>, ParseErrorView>
    decreases tokens.len(),
{
    if token_at(tokens, 0) is EOF {
        Ok(Seq::empty())
    } else {
        match statement(tokens) {
            Ok((first, steps)) => after_statements(
                seq![first],
                program(tokens_after(tokens, steps + 1)),
            ),
            Err(error) => Err(error),
        }
    }
}

/// An expression is its first operand with the chain of infix operators
/// behind it; a semicolon right behind the operand is stepped onto first.
pub proof fn lemma_expression_of_parts(
    tokens: Seq<TokenView>,
    floor: Precedence,
    left: ExpresionView,
    steps: nat,
    rest: nat,
)
    requires
        prefix_expression(tokens) == read_in(steps, left),
        rest == if token_at(tokens, steps + 1) is SEMICOLON {
            steps + 1
        } else {
            steps
        },
    ensures
        expression(tokens, floor) == after_steps(
            rest,
            infix_chain(tokens_after(tokens, rest), floor, left),
        ),
{
}

/// One step of a chain: an infix operator that binds above the floor takes
/// in its right operand, and the chain goes on behind it.
pub proof fn lemma_chain_step(
    tokens: Seq<TokenView>,
    floor: Precedence,
    left: ExpresionView,
    right: ExpresionView,
    moved: nat,
)
    requires
        !(token_at(tokens, 0) is SEMICOLON),
        floor.rank() < precedence_of(token_at(tokens, 1)).rank(),
        expression(tokens_after(tokens, 2), precedence_of(token_at(tokens, 1))) == read_in(
            moved,
            right,
        ),
    ensures
        infix_chain(tokens, floor, left) == after_steps(
            moved + 2,
            infix_chain(
                tokens_after(tokens, moved + 2),
                floor,
                ExpresionView::Infix(
                    Box::new(left),
                    operator_of(token_at(tokens, 1))->0,
                    Box::new(right),
                ),
            ),
        ),
{
}

/// Leaving tokens behind only shifts where each of the others stands.
pub proof fn lemma_token_at_after(tokens: Seq<TokenView>, steps: nat, index: nat)
    ensures
        token_at(tokens_after(tokens, steps), index) == token_at(tokens, steps + index),
{
}

/// An expression that was read leaves the parser on one of the tokens: it
/// never runs past the end of the text.
pub proof fn lemma_expression_rests_inside(tokens: Seq<TokenView>, floor: Precedence)
    ensures
        expression(tokens, floor) matches Ok((_, steps)) ==> steps < tokens.len(),
    decreases tokens.len(), 2nat,
{
    lemma_prefix_expression_rests_inside(tokens);
    if let Ok((left, steps)) = prefix_expression(tokens) {
        let rest = if token_at(tokens, steps + 1) is SEMICOLON {
            steps + 1
        } else {
            steps
        };
        lemma_infix_chain_rests_inside(tokens_after(tokens, rest), floor, left);
    }
}

/// A first operand that was read leaves the parser on one of the tokens.
proof fn lemma_prefix_expression_rests_inside(tokens: Seq<TokenView>)
    ensures
        prefix_expression(tokens) matches Ok((_, steps)) ==> steps < tokens.len(),
    decreases tokens.len(), 1nat,
{
    if token_at(tokens, 0) is BANG || token_at(tokens, 0) is MINUS {
        lemma_expression_rests_inside(tokens_after(tokens, 1), Precedence::Prefix);
    }
}

/// A chain of infix operators that starts on one of the tokens ends on one
/// of them.
proof fn lemma_infix_chain_rests_inside(
    tokens: Seq<TokenView>,
    floor: Precedence,
    left: ExpresionView,
)
    requires
        tokens.len() > 0,
    ensures
        infix_chain(tokens, floor, left) matches Ok((_, steps)) ==> steps < tokens.len(),
    decreases tokens.len(), 0nat,
{
    let operator = token_at(tokens, 1);
    if !(token_at(tokens, 0) is SEMICOLON) && floor.rank() < precedence_of(operator).rank() {
        lemma_expression_rests_inside(tokens_after(tokens, 2), precedence_of(operator));
        if let Ok((right, steps)) = expression(tokens_after(tokens, 2), precedence_of(operator)) {
            lemma_infix_chain_rests_inside(
                tokens_after(tokens, steps + 2),
                floor,
                ExpresionView::Infix(Box::new(left), operator_of(operator)->0, Box::new(right)),
            );
        }
    }
}

/// A statement that was read leaves the parser on one of the tokens.
pub proof fn lemma_statement_rests_inside(tokens: Seq<TokenView>)
    ensures
        statement(tokens) matches Ok((_, steps)) ==> steps < tokens.len(),
{
    lemma_expression_rests_inside(tokens, Precedence::Lowest);
    lemma_expression_rests_inside(tokens_after(tokens, 1), Precedence::Lowest);
    lemma_expression_rests_inside(tokens_after(tokens, 3), Precedence::Lowest);
}

/// An expression takes in all that it can: where it ends, the parser rests
/// on a semicolon, or what follows is no infix operator that binds above
/// the floor.
pub proof fn lemma_expression_is_maximal(tokens: Seq<TokenView>, floor: Precedence)
    ensures
        expression(tokens, floor) matches Ok((_, steps)) ==> token_at(tokens, steps) is SEMICOLON
            || precedence_of(token_at(tokens, steps + 1)).rank() <= floor.rank(),
{
    if let Ok((left, steps)) = prefix_expression(tokens) {
        let rest = if token_at(tokens, steps + 1) is SEMICOLON {
            steps + 1
        } else {
            steps
        };
        lemma_infix_chain_is_maximal(tokens_after(tokens, rest), floor, left);
        if let Ok((_, more)) = infix_chain(tokens_after(tokens, rest), floor, left) {
            lemma_token_at_after(tokens, rest, more);
            lemma_token_at_after(tokens, rest, more + 1);
        }
    }
}

/// A chain of infix operators ends on a semicolon, or before a token that
/// is no infix operator binding above the floor.
proof fn lemma_infix_chain_is_maximal(
    tokens: Seq<TokenView>,
    floor: Precedence,
    left: ExpresionView,
)
    ensures
        infix_chain(tokens, floor, left) matches Ok((_, steps)) ==> token_at(tokens, steps)
            is SEMICOLON || precedence_of(token_at(tokens, steps + 1)).rank() <= floor.rank(),
    decreases tokens.len(),
{
    let operator = token_at(tokens, 1);
    if !(token_at(tokens, 0) is SEMICOLON) && floor.rank() < precedence_of(operator).rank() {
        if let Ok((right, steps)) = expression(tokens_after(tokens, 2), precedence_of(operator)) {
            let joined = ExpresionView::Infix(
                Box::new(left),
                operator_of(operator)->0,
                Box::new(right),
            );
            lemma_infix_chain_is_maximal(tokens_after(tokens, steps + 2), floor, joined);
            if let Ok((_, more)) = infix_chain(tokens_after(tokens, steps + 2), floor, joined) {
                lemma_token_at_after(tokens, steps + 2, more);
                lemma_token_at_after(tokens, steps + 2, more + 1);
            }
        }
    }
}

/// Whether an expression can begin with `token`: a name, a literal, or a
/// prefix operator.
pub open spec fn begins_expression(token: TokenView) -> bool {
    match token {
        TokenView::IDENT(_)
        | TokenView::INT(_)
        | TokenView::TRUE
        | TokenView::FALSE
        | TokenView::BANG
        | TokenView::MINUS => true,
        _ => false,
    }
}

/// Whether an error says what is the matter with the token that it
/// reports: the token is no identifier where one is missing, is not `=`
/// where that is missing, begins no expression where no rule is found for
/// it, and is an integer literal beyond 64 bits where one is too large.
pub open spec fn is_apt(error: ParseErrorView) -> bool {
    match error.kind {
        ParseErrorKind::MissingIdentifier => !(error.found is IDENT),
        ParseErrorKind::MissingAssign => !(error.found is ASSIGN),
        ParseErrorKind::NoPrefixRule => !begins_expression(error.found),
        ParseErrorKind::IntegerTooLarge => error.found matches TokenView::INT(value) && value
            > u64::MAX,
    }
}

/// An expression fails only for a token that begins no expression, or for
/// an integer literal that is too large, and reports that token.
pub proof fn lemma_expression_error_is_apt(tokens: Seq<TokenView>, floor: Precedence)
    ensures
        expression(tokens, floor) matches Err(error) ==> is_apt(error) && (error.kind
            == ParseErrorKind::NoPrefixRule || error.kind == ParseErrorKind::IntegerTooLarge),
    decreases tokens.len(), 2nat,
{
    lemma_prefix_expression_error_is_apt(tokens);
    if let Ok((left, steps)) = prefix_expression(tokens) {
        let rest = if token_at(tokens, steps + 1) is SEMICOLON {
            steps + 1
        } else {
            steps
        };
        lemma_infix_chain_error_is_apt(tokens_after(tokens, rest), floor, left);
    }
}

/// A first operand fails only with an apt error.
proof fn lemma_prefix_expression_error_is_apt(tokens: Seq<TokenView>)
    ensures
        prefix_expression(tokens) matches Err(error) ==> is_apt(error) && (error.kind
            == ParseErrorKind::NoPrefixRule || error.kind == ParseErrorKind::IntegerTooLarge),
    decreases tokens.len(), 1nat,
{
    if token_at(tokens, 0) is BANG || token_at(tokens, 0) is MINUS {
        lemma_expression_error_is_apt(tokens_after(tokens, 1), Precedence::Prefix);
    }
}

/// A chain of infix operators fails only with an apt error.
proof fn lemma_infix_chain_error_is_apt(
    tokens: Seq<TokenView>,
    floor: Precedence,
    left: ExpresionView,
)
    ensures
        infix_chain(tokens, floor, left) matches Err(error) ==> is_apt(error) && (error.kind
            == ParseErrorKind::NoPrefixRule || error.kind == ParseErrorKind::IntegerTooLarge),
    decreases tokens.len(), 0nat,
{
    let operator = token_at(tokens, 1);
    if !(token_at(tokens, 0) is SEMICOLON) && floor.rank() < precedence_of(operator).rank() {
        lemma_expression_error_is_apt(tokens_after(tokens, 2), precedence_of(operator));
        if let Ok((right, steps)) = expression(tokens_after(tokens, 2), precedence_of(operator)) {
            lemma_infix_chain_error_is_apt(
                tokens_after(tokens, steps + 2),
                floor,
                ExpresionView::Infix(Box::new(left), operator_of(operator)->0, Box::new(right)),
            );
        }
    }
}

/// A text fails to parse only with an error that says what is the matter
/// with the token that it reports.
pub proof fn lemma_program_error_is_apt(tokens: Seq<TokenView>)
    ensures
        program(tokens) matches Err(error) ==> is_apt(error),
    decreases tokens.len(),
{
    if !(token_at(tokens, 0) is EOF) {
        lemma_expression_error_is_apt(tokens, Precedence::Lowest);
        lemma_expression_error_is_apt(tokens_after(tokens, 1), Precedence::Lowest);
        lemma_expression_error_is_apt(tokens_after(tokens, 3), Precedence::Lowest);
        if let Ok((first, steps)) = statement(tokens) {
            lemma_program_error_is_apt(tokens_after(tokens, steps + 1));
        }
    }
}

/// Whether the operators of `tree` are nested as their ranks and their
/// places demand. A prefix operator, `!` or `-`, has for its operand a name,
/// a literal or another prefix expression. Of an infix expression, the right
/// operand is no infix expression unless its operator binds tighter, and the
/// left operand is none unless its operator binds at least as tightly.
pub open spec fn nested_by_rank(tree: ExpresionView) -> bool
    decreases tree,
{
    match tree {
        ExpresionView::Prefix(operator, operand) => {
            &&& operator == Operator::Not || operator == Operator::Minus
            &&& !(*operand is Infix)
            &&& nested_by_rank(*operand)
        },
        ExpresionView::Infix(left, operator, right) => {
            &&& operator != Operator::Not
            &&& nested_by_rank(*left)
            &&& nested_by_rank(*right)
            &&& binds_from(*left, operator.infix_rank())
            &&& binds_above(*right, operator.infix_rank())
        },
        _ => true,
    }
}

/// Whether `tree` is no infix expression whose operator binds at the rank
/// `floor` or more loosely.
pub open spec fn binds_above(tree: ExpresionView, floor: Precedence) -> bool {
    tree matches ExpresionView::Infix(_, operator, _) ==> floor.rank()
        < operator.infix_rank().rank()
}

/// Whether `tree` is no infix expression whose operator binds more loosely
/// than the rank `floor`.
pub open spec fn binds_from(tree: ExpresionView, floor: Precedence) -> bool {
    tree matches ExpresionView::Infix(_, operator, _) ==> floor.rank()
        <= operator.infix_rank().rank()
}

/// Precedence and associativity: an expression that was read is nested by
/// the ranks of its operators, a tighter operator within the operand of a
/// looser one and, of two operators of one rank, the left within the left
/// operand of the right; and no operator at the floor or below it is taken
/// in at the top.
pub proof fn lemma_expression_nests_by_rank(tokens: Seq<TokenView>, floor: Precedence)
    ensures
        expression(tokens, floor) matches Ok((tree, _)) ==> nested_by_rank(tree) && binds_above(
            tree,
            floor,
        ),
    decreases tokens.len(), 2nat,
{
    lemma_prefix_expression_nests_by_rank(tokens);
    if let Ok((left, steps)) = prefix_expression(tokens) {
        let rest = if token_at(tokens, steps + 1) is SEMICOLON {
            steps + 1
        } else {
            steps
        };
        lemma_infix_chain_nests_by_rank(tokens_after(tokens, rest), floor, left);
    }
}

/// A first operand that was read is nested by rank and no infix expression.
proof fn lemma_prefix_expression_nests_by_rank(tokens: Seq<TokenView>)
    ensures
        prefix_expression(tokens) matches Ok((tree, _)) ==> nested_by_rank(tree) && !(tree
            is Infix),
    decreases tokens.len(), 1nat,
{
    if token_at(tokens, 0) is BANG || token_at(tokens, 0) is MINUS {
        lemma_expression_nests_by_rank(tokens_after(tokens, 1), Precedence::Prefix);
    }
}

/// A chain of infix operators keeps the nesting by rank: started behind a
/// left operand that is nested by rank, and before an operator that binds no
/// tighter than the one at the top of that operand, it gives a tree that is
/// nested by rank.
proof fn lemma_infix_chain_nests_by_rank(
    tokens: Seq<TokenView>,
    floor: Precedence,
    left: ExpresionView,
)
    requires
        nested_by_rank(left),
        binds_above(left, floor),
        left matches ExpresionView::Infix(_, operator, _) ==> token_at(tokens, 0) is SEMICOLON
            || precedence_of(token_at(tokens, 1)).rank() <= operator.infix_rank().rank(),
    ensures
        infix_chain(tokens, floor, left) matches Ok((tree, _)) ==> nested_by_rank(tree)
            && binds_above(tree, floor),
    decreases tokens.len(), 0nat,
{
    let next = token_at(tokens, 1);
    if !(token_at(tokens, 0) is SEMICOLON) && floor.rank() < precedence_of(next).rank() {
        let rank = precedence_of(next);
        lemma_expression_nests_by_rank(tokens_after(tokens, 2), rank);
        lemma_expression_is_maximal(tokens_after(tokens, 2), rank);
        if let Ok((right, steps)) = expression(tokens_after(tokens, 2), rank) {
            let operator = operator_of(next)->0;
            let joined = ExpresionView::Infix(Box::new(left), operator, Box::new(right));
            lemma_operator_token(operator, next);
            lemma_token_at_after(tokens, 2, steps);
            lemma_token_at_after(tokens, 2, steps + 1);
            lemma_token_at_after(tokens, steps + 2, 0);
            lemma_token_at_after(tokens, steps + 2, 1);
            assert(nested_by_rank(joined));
            lemma_infix_chain_nests_by_rank(tokens_after(tokens, steps + 2), floor, joined);
        }
    }
}

} // verus!
