//! Reading back what was written. Every tree that is nested by rank is
//! read back from the tokens that write it, and every tree that the parser
//! gives is nested by rank: reading and writing undo each other.

use crate::ast::{
    lemma_operator_token, operator_of, operator_token, precedence_of, ExpresionView, Precedence,
    StatementView,
};
use crate::grammar::{
    after_statements, after_steps, begins_expression, binds_above, expression, infix_chain, lemma_chain_step,
    lemma_expression_nests_by_rank, lemma_expression_of_parts, let_statement, nested_by_rank,
    prefix_expression, program, read_in, return_statement, statement, token_at, tokens_after,
};
use crate::token::TokenView;
use crate::writing::{lemma_written_holds_no_semicolon, statement_written, written};
use vstd::prelude::*;

verus! {

/// The number of nodes of a tree.
spec fn size(tree: ExpresionView) -> nat
    decreases tree,
{
    match tree {
        ExpresionView::Prefix(_, operand) => 1 + size(*operand),
        ExpresionView::Infix(left, _, right) => 1 + size(*left) + size(*right),
        _ => 1,
    }
}

/// The operand with which a tree begins: the tree itself, or the first
/// operand of its leftmost infix expression.
spec fn first_operand(tree: ExpresionView) -> ExpresionView
    decreases tree,
{
    match tree {
        ExpresionView::Infix(left, _, _) => first_operand(*left),
        _ => tree,
    }
}

/// The tokens that write a tree, those of its first operand apart.
spec fn written_behind_first(tree: ExpresionView) -> Seq<TokenView>
    decreases tree,
{
    match tree {
        ExpresionView::Infix(left, operator, right) => written_behind_first(*left) + seq![
            operator_token(operator),
        ] + written(*right),
        _ => Seq::empty(),
    }
}

/// Whether an expression read above `floor` ends before the tokens
/// `following`: they begin with one semicolon, or with a token that is no
/// infix operator binding above `floor`.
pub open spec fn ends_before(following: Seq<TokenView>, floor: Precedence) -> bool {
    if token_at(following, 0) is SEMICOLON {
        !(token_at(following, 1) is SEMICOLON)
    } else {
        precedence_of(token_at(following, 0)).rank() <= floor.rank()
    }
}

/// The steps by which the parser moves over a text of `length` tokens
/// before the tokens `following`: onto its last token, and onto the
/// semicolon where one follows.
pub open spec fn steps_over(length: nat, following: Seq<TokenView>) -> nat {
    if token_at(following, 0) is SEMICOLON {
        length
    } else {
        (length - 1) as nat
    }
}

/// A tree is written by its first operand and what stands behind it; the
/// first operand is no infix expression, and what stands behind it begins
/// with an operator.
proof fn lemma_first_operand(tree: ExpresionView)
    ensures
        !(first_operand(tree) is Infix),
        size(first_operand(tree)) <= size(tree),
        written(tree) == written(first_operand(tree)) + written_behind_first(tree),
        nested_by_rank(tree) ==> nested_by_rank(first_operand(tree)),
        tree is Infix ==> written_behind_first(tree).len() > 0 && operator_of(
            written_behind_first(tree)[0],
        ) is Some && !(written_behind_first(tree)[0] is SEMICOLON),
        written(tree).len() > 0,
    decreases tree,
{
    match tree {
        ExpresionView::Infix(left, operator, right) => {
            lemma_first_operand(*left);
            lemma_first_operand(*right);
            lemma_operator_token(operator, operator_token(operator));
            assert(written(tree) =~= written(first_operand(tree)) + written_behind_first(tree));
        },
        ExpresionView::Prefix(_, operand) => {
            assert(written(tree) =~= written(first_operand(tree)) + written_behind_first(tree));
        },
        _ => {
            assert(written(tree) =~= written(first_operand(tree)) + written_behind_first(tree));
        },
    }
}

/// The rank of the operator at the top of an infix expression.
spec fn top_rank(tree: ExpresionView) -> Precedence {
    tree->Infix_1.infix_rank()
}

/// The tokens before the parser when it rests on the last token of `text`
/// and the tokens `following` come behind.
spec fn resting_on(text: Seq<TokenView>, following: Seq<TokenView>) -> Seq<TokenView> {
    seq![text.last()] + following
}

/// A tree is written by at least one token, and neither begins nor ends
/// with a semicolon.
proof fn lemma_written_ends_with_no_semicolon(tree: ExpresionView)
    ensures
        written(tree).len() > 0,
        !(written(tree).last() is SEMICOLON),
        !(written(tree)[0] is SEMICOLON),
{
    lemma_first_operand(tree);
    lemma_written_holds_no_semicolon(tree);
}

/// Where the parser stands after an operand written by `text`: on the
/// semicolon where one follows, and else on the last token of the operand.
spec fn standing_behind(text: Seq<TokenView>, following: Seq<TokenView>) -> Seq<TokenView> {
    if token_at(following, 0) is SEMICOLON {
        following
    } else {
        resting_on(text, following)
    }
}

/// The tokens before a parser that rests on `last`, with an operator, the
/// text of its right operand and more tokens behind.
proof fn lemma_tokens_of_a_step(
    last: TokenView,
    symbol: TokenView,
    text: Seq<TokenView>,
    following: Seq<TokenView>,
)
    requires
        text.len() > 0,
    ensures
        ({
            let tokens = seq![last] + (seq![symbol] + text + following);
            &&& token_at(tokens, 0) == last
            &&& token_at(tokens, 1) == symbol
            &&& tokens_after(tokens, 2) == text + following
            &&& tokens_after(tokens, steps_over(text.len(), following) + 2) == standing_behind(
                text,
                following,
            )
        }),
{
    let tokens = seq![last] + (seq![symbol] + text + following);
    assert(tokens_after(tokens, 2) =~= text + following);
    assert(tokens_after(tokens, text.len() + 2) =~= following);
    assert(tokens_after(tokens, (text.len() + 1) as nat) =~= resting_on(text, following));
}

/// The tokens before a parser that has moved over all but the last token
/// of `text`, or over all of it.
proof fn lemma_tokens_behind(text: Seq<TokenView>, following: Seq<TokenView>)
    requires
        text.len() > 0,
    ensures
        tokens_after(text + following, (text.len() - 1) as nat) == resting_on(text, following),
        tokens_after(text + following, text.len()) == following,
        tokens_after(text + following, steps_over(text.len(), following)) == standing_behind(
            text,
            following,
        ),
        token_at(text + following, text.len()) == token_at(following, 0),
        token_at(text + following, text.len() + 1) == token_at(following, 1),
        token_at(text + following, 0) == text[0],
{
    assert(tokens_after(text + following, (text.len() - 1) as nat) =~= resting_on(
        text,
        following,
    ));
    assert(tokens_after(text + following, text.len()) =~= following);
}

/// A chain ends where the parser stands behind the last operand and the
/// tokens that follow end the expression.
proof fn lemma_chain_ends(
    text: Seq<TokenView>,
    following: Seq<TokenView>,
    floor: Precedence,
    left: ExpresionView,
)
    requires
        text.len() > 0,
        !(text.last() is SEMICOLON),
        ends_before(following, floor),
    ensures
        infix_chain(standing_behind(text, following), floor, left) == read_in(0, left),
{
}

/// How the tokens of an infix expression are made of those of its parts.
proof fn lemma_written_infix(tree: ExpresionView, following: Seq<TokenView>)
    requires
        tree is Infix,
    ensures
        ({
            let left = *tree->Infix_0;
            let right = *tree->Infix_2;
            let onward = seq![operator_token(tree->Infix_1)] + written(right) + following;
            &&& first_operand(tree) == first_operand(left)
            &&& written_behind_first(tree) + following == written_behind_first(left) + onward
            &&& written_behind_first(tree).len() == written_behind_first(left).len() + 1
                + written(right).len()
            &&& resting_on(written(tree), following) == resting_on(written(right), following)
            &&& written(left).len() > 0
            &&& written(right).len() > 0
            &&& !(written(left).last() is SEMICOLON)
            &&& !(written(right).last() is SEMICOLON)
        }),
{
    let left = *tree->Infix_0;
    let right = *tree->Infix_2;
    let onward = seq![operator_token(tree->Infix_1)] + written(right) + following;
    lemma_written_ends_with_no_semicolon(left);
    lemma_written_ends_with_no_semicolon(right);
    assert(written_behind_first(tree) + following =~= written_behind_first(left) + onward);
    assert(written(tree).last() == written(right).last());
}

/// A chain of infix operators that starts behind the first operand of
/// `tree` comes to stand behind `tree` itself, whatever follows, as long as
/// what follows is no semicolon and binds no tighter than the operator at
/// the top of `tree`.
proof fn lemma_chain_reaches(tree: ExpresionView, floor: Precedence, following: Seq<TokenView>)
    requires
        nested_by_rank(tree),
        binds_above(tree, floor),
        !(token_at(following, 0) is SEMICOLON),
        tree is Infix ==> precedence_of(token_at(following, 0)).rank() <= top_rank(tree).rank(),
    ensures
        infix_chain(
            resting_on(written(first_operand(tree)), written_behind_first(tree) + following),
            floor,
            first_operand(tree),
        ) == after_steps(
            written_behind_first(tree).len(),
            infix_chain(resting_on(written(tree), following), floor, tree),
        ),
    decreases size(tree), 0nat,
{
    match tree {
        ExpresionView::Infix(left, operator, right) => {
            let first = first_operand(tree);
            let symbol = operator_token(operator);
            let onward = seq![symbol] + written(*right) + following;
            let at_left = resting_on(written(*left), onward);
            let moved = steps_over(written(*right).len(), following);
            lemma_operator_token(operator, symbol);
            lemma_written_infix(tree, following);
            lemma_chain_reaches(*left, floor, onward);
            lemma_tree_is_read(*right, operator.infix_rank(), following);
            lemma_tokens_of_a_step(written(*left).last(), symbol, written(*right), following);
            lemma_chain_step(at_left, floor, *left, *right, moved);
        },
        _ => {
            assert(written_behind_first(tree) + following =~= following);
        },
    }
}

/// A name, a literal or a prefix expression is read back from the tokens
/// that write it.
proof fn lemma_written_operand_is_read(tree: ExpresionView, following: Seq<TokenView>)
    requires
        !(tree is Infix),
        nested_by_rank(tree),
        token_at(following, 0) is SEMICOLON ==> !(token_at(following, 1) is SEMICOLON),
    ensures
        prefix_expression(written(tree) + following) == read_in(
            if tree is Prefix {
                steps_over(written(tree).len(), following)
            } else {
                0
            },
            tree,
        ),
    decreases size(tree), 1nat,
{
    let tokens = written(tree) + following;
    match tree {
        ExpresionView::Prefix(operator, operand) => {
            lemma_operator_token(operator, operator_token(operator));
            lemma_written_ends_with_no_semicolon(*operand);
            lemma_tree_is_read(*operand, Precedence::Prefix, following);
            assert(tokens_after(tokens, 1) =~= written(*operand) + following);
        },
        _ => {},
    }
}

/// An expression without an infix operator at its top is read back from
/// the tokens that write it.
proof fn lemma_written_single_is_read(
    tree: ExpresionView,
    floor: Precedence,
    following: Seq<TokenView>,
)
    requires
        !(tree is Infix),
        nested_by_rank(tree),
        ends_before(following, floor),
    ensures
        expression(written(tree) + following, floor) == read_in(
            steps_over(written(tree).len(), following),
            tree,
        ),
    decreases size(tree), 2nat,
{
    let tokens = written(tree) + following;
    let rest = steps_over(written(tree).len(), following);
    let steps = if tree is Prefix {
        rest
    } else {
        0
    };
    lemma_written_ends_with_no_semicolon(tree);
    lemma_written_operand_is_read(tree, following);
    lemma_tokens_behind(written(tree), following);
    lemma_chain_ends(written(tree), following, floor, tree);
    lemma_expression_of_parts(tokens, floor, tree, steps, rest);
}

/// A chain of infix operators that starts behind the first operand of an
/// infix expression nested by rank makes that expression, and ends behind
/// it.
proof fn lemma_chain_completes(tree: ExpresionView, floor: Precedence, following: Seq<TokenView>)
    requires
        tree is Infix,
        nested_by_rank(tree),
        binds_above(tree, floor),
        ends_before(following, floor),
    ensures
        infix_chain(
            resting_on(written(first_operand(tree)), written_behind_first(tree) + following),
            floor,
            first_operand(tree),
        ) == read_in(steps_over(written_behind_first(tree).len() + 1, following), tree),
    decreases size(tree), 1nat,
{
    let left = *tree->Infix_0;
    let operator = tree->Infix_1;
    let right = *tree->Infix_2;
    let symbol = operator_token(operator);
    let onward = seq![symbol] + written(right) + following;
    let at_left = resting_on(written(left), onward);
    let moved = steps_over(written(right).len(), following);
    lemma_operator_token(operator, symbol);
    lemma_written_infix(tree, following);
    lemma_chain_reaches(left, floor, onward);
    lemma_tree_is_read(right, operator.infix_rank(), following);
    lemma_tokens_of_a_step(written(left).last(), symbol, written(right), following);
    lemma_chain_step(at_left, floor, left, right, moved);
    lemma_chain_ends(written(right), following, floor, tree);
}

/// An infix expression that is nested by rank is read back from the tokens
/// that write it.
proof fn lemma_written_infix_is_read(
    tree: ExpresionView,
    floor: Precedence,
    following: Seq<TokenView>,
)
    requires
        tree is Infix,
        nested_by_rank(tree),
        binds_above(tree, floor),
        ends_before(following, floor),
    ensures
        expression(written(tree) + following, floor) == read_in(
            steps_over(written(tree).len(), following),
            tree,
        ),
    decreases size(tree), 2nat,
{
    let tokens = written(tree) + following;
    let first = first_operand(tree);
    let behind = written_behind_first(tree);
    let steps = (written(first).len() - 1) as nat;
    lemma_first_operand(tree);
    lemma_written_ends_with_no_semicolon(first);
    assert(tokens =~= written(first) + (behind + following));
    assert(token_at(behind + following, 0) == behind[0]);
    assert(written(tree).len() == written(first).len() + behind.len());
    lemma_written_operand_is_read(first, behind + following);
    lemma_tokens_behind(written(first), behind + following);
    lemma_expression_of_parts(tokens, floor, first, steps, steps);
    lemma_chain_completes(tree, floor, following);
}

/// The induction behind [`lemma_written_expression_is_read`], by the size of
/// the tree.
proof fn lemma_tree_is_read(tree: ExpresionView, floor: Precedence, following: Seq<TokenView>)
    requires
        nested_by_rank(tree),
        binds_above(tree, floor),
        ends_before(following, floor),
    ensures
        expression(written(tree) + following, floor) == read_in(
            steps_over(written(tree).len(), following),
            tree,
        ),
    decreases size(tree), 3nat,
{
    if tree is Infix {
        lemma_written_infix_is_read(tree, floor, following);
    } else {
        lemma_written_single_is_read(tree, floor, following);
    }
}

/// Every tree that is nested by rank is read back from the tokens that
/// write it: read above a floor below its top operator, and before tokens
/// that end it, the tokens give the tree again, and the parser comes to
/// rest on the last of them, or on the semicolon behind them.
pub proof fn lemma_written_expression_is_read(
    tree: ExpresionView,
    floor: Precedence,
    following: Seq<TokenView>,
)
    requires
        nested_by_rank(tree),
        binds_above(tree, floor),
        ends_before(following, floor),
    ensures
        expression(written(tree) + following, floor) == read_in(
            steps_over(written(tree).len(), following),
            tree,
        ),
{
    lemma_tree_is_read(tree, floor, following);
}

/// Whether a statement is one that the parser gives: the name that a `let`
/// binds is an identifier, and the expression is nested by rank.
pub open spec fn well_formed(tree: StatementView) -> bool {
    match tree {
        StatementView::Let(name, value) => name is Identifer && nested_by_rank(value),
        StatementView::Return(value) => nested_by_rank(value),
        StatementView::Expression(value) => nested_by_rank(value),
    }
}

/// The tokens that write a run of statements, each closed by one semicolon.
pub open spec fn program_text(statements: Seq<StatementView>) -> Seq<TokenView>
    decreases statements.len(),
{
    if statements.len() == 0 {
        Seq::empty()
    } else {
        statement_written(statements.first()) + seq![TokenView::SEMICOLON] + program_text(
            statements.drop_first(),
        )
    }
}

/// The statements that the parser gives are well formed.
pub proof fn lemma_statement_is_well_formed(tokens: Seq<TokenView>)
    ensures
        statement(tokens) matches Ok((tree, _)) ==> well_formed(tree),
{
    lemma_expression_nests_by_rank(tokens, Precedence::Lowest);
    lemma_expression_nests_by_rank(tokens_after(tokens, 1), Precedence::Lowest);
    lemma_expression_nests_by_rank(tokens_after(tokens, 3), Precedence::Lowest);
}

/// All the statements of a text that parses are well formed.
pub proof fn lemma_program_is_well_formed(tokens: Seq<TokenView>)
    ensures
        program(tokens) matches Ok(statements) ==> forall|i: int|
            0 <= i < statements.len() ==> well_formed(#[trigger] statements[i]),
    decreases tokens.len(),
{
    if !(token_at(tokens, 0) is EOF) {
        if let Ok((first, steps)) = statement(tokens) {
            lemma_statement_is_well_formed(tokens);
            lemma_program_is_well_formed(tokens_after(tokens, steps + 1));
        }
    }
}

/// An expression begins with a name, a literal or a prefix operator.
proof fn lemma_written_begins(tree: ExpresionView)
    requires
        nested_by_rank(tree),
    ensures
        written(tree).len() > 0,
        begins_expression(written(tree)[0]),
    decreases tree,
{
    match tree {
        ExpresionView::Infix(left, _, _) => {
            lemma_written_begins(*left);
        },
        _ => {},
    }
}

/// The text of a program begins with no semicolon.
proof fn lemma_program_text_begins(statements: Seq<StatementView>)
    requires
        forall|i: int| 0 <= i < statements.len() ==> well_formed(#[trigger] statements[i]),
    ensures
        !(token_at(program_text(statements), 0) is SEMICOLON),
{
    if statements.len() > 0 {
        match statements.first() {
            StatementView::Let(_, _) => {},
            StatementView::Return(_) => {},
            StatementView::Expression(value) => {
                lemma_written_begins(value);
            },
        }
    }
}

/// The tokens of a statement: those before its expression, those of the
/// expression, and the semicolon that closes it.
proof fn lemma_tokens_of_a_statement(
    head: Seq<TokenView>,
    text: Seq<TokenView>,
    following: Seq<TokenView>,
)
    ensures
        ({
            let tokens = head + text + seq![TokenView::SEMICOLON] + following;
            &&& tokens_after(tokens, head.len()) == text + (seq![TokenView::SEMICOLON] + following)
            &&& forall|i: nat| i < head.len() ==> token_at(tokens, i) == head[i as int]
            &&& text.len() > 0 ==> token_at(tokens, head.len()) == text[0]
        }),
{
    let tokens = head + text + seq![TokenView::SEMICOLON] + following;
    assert(tokens_after(tokens, head.len()) =~= text + (seq![TokenView::SEMICOLON] + following));
}

/// A well-formed statement is read back from the tokens that write it and
/// the semicolon that closes it.
proof fn lemma_written_statement_is_read(tree: StatementView, following: Seq<TokenView>)
    requires
        well_formed(tree),
        !(token_at(following, 0) is SEMICOLON),
    ensures
        statement(statement_written(tree) + seq![TokenView::SEMICOLON] + following) == read_in(
            statement_written(tree).len(),
            tree,
        ),
{
    let closing = seq![TokenView::SEMICOLON] + following;
    match tree {
        StatementView::Let(name, value) => {
            let head = seq![TokenView::LET] + written(name) + seq![TokenView::ASSIGN];
            let tokens = head + written(value) + seq![TokenView::SEMICOLON] + following;
            lemma_written_begins(value);
            lemma_written_expression_is_read(value, Precedence::Lowest, closing);
            lemma_tokens_of_a_statement(head, written(value), following);
            assert(statement_written(tree).len() == written(value).len() + 3);
            assert(token_at(tokens, 0) == head[0]);
            assert(token_at(tokens, 1) == head[1]);
            assert(token_at(tokens, 2) == head[2]);
            assert(let_statement(tokens) == read_in(written(value).len() + 3, tree));
        },
        StatementView::Return(value) => {
            let head = seq![TokenView::RETURN];
            let tokens = head + written(value) + seq![TokenView::SEMICOLON] + following;
            lemma_written_begins(value);
            lemma_written_expression_is_read(value, Precedence::Lowest, closing);
            lemma_tokens_of_a_statement(head, written(value), following);
            assert(statement_written(tree).len() == written(value).len() + 1);
            assert(token_at(tokens, 0) == head[0]);
            assert(return_statement(tokens) == read_in(written(value).len() + 1, tree));
        },
        StatementView::Expression(value) => {
            let head = Seq::<TokenView>::empty();
            let tokens = head + written(value) + seq![TokenView::SEMICOLON] + following;
            lemma_written_begins(value);
            lemma_written_expression_is_read(value, Precedence::Lowest, closing);
            lemma_tokens_of_a_statement(head, written(value), following);
            assert(head + written(value) =~= written(value));
            assert(token_at(tokens, 0) == written(value)[0]);
            assert(tokens_after(tokens, 0) =~= tokens);
            assert(expression(tokens, Precedence::Lowest) == read_in(
                written(value).len(),
                value,
            ));
        },
    }
}

/// Every program of well-formed statements is read back from the tokens
/// that write it, each statement closed by one semicolon.
pub proof fn lemma_written_program_is_read(statements: Seq<StatementView>)
    requires
        forall|i: int| 0 <= i < statements.len() ==> well_formed(#[trigger] statements[i]),
    ensures
        program(program_text(statements)) == after_statements(statements, Ok(Seq::empty())),
    decreases statements.len(),
{
    if statements.len() > 0 {
        let first = statements.first();
        let rest = statements.drop_first();
        let following = program_text(rest);
        let tokens = program_text(statements);
        assert forall|i: int| 0 <= i < rest.len() implies well_formed(#[trigger] rest[i]) by {
            assert(rest[i] == statements[i + 1]);
        }
        lemma_program_text_begins(rest);
        lemma_written_statement_is_read(first, following);
        lemma_written_program_is_read(rest);
        match first {
            StatementView::Expression(value) => {
                lemma_written_begins(value);
            },
            _ => {},
        }
        assert(tokens_after(tokens, statement_written(first).len() + 1) =~= following);
        assert(seq![first] + (rest + Seq::empty()) =~= statements + Seq::empty());
    }
}

} // verus!
