//! Trees and the tokens that write them. What the parser has read is what
//! writes the tree that it gives: nothing of a text is lost in its tree, and
//! nothing is made up.

use crate::ast::{
    lemma_operator_token, operator_of, operator_token, precedence_of, ExpresionView, Precedence,
    StatementView,
};
use crate::grammar::{
    expression, infix_chain, prefix_expression, program, statement, token_at, tokens_after,
};
use crate::lexer::{lemma_tokens_hold_no_eof, tokenize};
use crate::token::TokenView;
use vstd::prelude::*;

verus! {

/// The tokens that write `tree`, in order.
pub open spec fn written(tree: ExpresionView) -> Seq<TokenView>
    decreases tree,
{
    match tree {
        ExpresionView::Identifer(name) => seq![TokenView::IDENT(name)],
        ExpresionView::Interger(value) => seq![TokenView::INT(value as u128)],
        ExpresionView::Bool { value } => seq![
            if value {
                TokenView::TRUE
            } else {
                TokenView::FALSE
            },
        ],
        ExpresionView::Prefix(operator, operand) => seq![operator_token(operator)] + written(
            *operand,
        ),
        ExpresionView::Infix(left, operator, right) => written(*left) + seq![
            operator_token(operator),
        ] + written(*right),
    }
}

/// Whether the token at `index` is a semicolon.
pub open spec fn semicolon_at(tokens: Seq<TokenView>, index: int) -> bool {
    0 <= index < tokens.len() && tokens[index] is SEMICOLON
}

/// Whether the first `steps + 1` of `tokens` are the tokens `text` with
/// nothing but semicolons behind them.
pub open spec fn reads_as(tokens: Seq<TokenView>, steps: nat, text: Seq<TokenView>) -> bool {
    &&& 0 < text.len() <= steps + 1 <= tokens.len()
    &&& tokens.subrange(0, text.len() as int) == text
    &&& forall|i: int| text.len() <= i <= steps ==> #[trigger] semicolon_at(tokens, i)
}

/// Nothing is lost and nothing is made up: the tokens over which the parser
/// has moved for an expression are the tokens that write its tree, in their
/// order, with nothing but semicolons behind them.
pub proof fn lemma_expression_is_written(tokens: Seq<TokenView>, floor: Precedence)
    ensures
        expression(tokens, floor) matches Ok((tree, steps)) ==> reads_as(
            tokens,
            steps,
            written(tree),
        ),
    decreases tokens.len(), 2nat,
{
    lemma_prefix_expression_is_written(tokens);
    if let Ok((left, steps)) = prefix_expression(tokens) {
        let rest = if token_at(tokens, steps + 1) is SEMICOLON {
            steps + 1
        } else {
            steps
        };
        let onward = tokens_after(tokens, rest);
        lemma_infix_chain_is_written(onward, floor, left);
        if let Ok((tree, more)) = infix_chain(onward, floor, left) {
            let size = written(left).len() as int;
            let added = written(tree).len() - size;
            if size <= rest {
                assert(semicolon_at(tokens, rest as int));
                assert(onward[0] == tokens[rest as int]);
                assert forall|i: int| size <= i <= rest implies #[trigger] semicolon_at(
                    tokens,
                    i,
                ) by {
                    if i <= steps {
                        assert(semicolon_at(tokens, i));
                    }
                }
            } else {
                assert(written(tree) =~= tokens.subrange(0, size + added)) by {
                    assert(onward.subrange(1, added + 1) =~= tokens.subrange(size, size + added));
                }
                assert forall|i: int|
                    size + added <= i <= rest + more implies #[trigger] semicolon_at(tokens, i) by {
                    assert(semicolon_at(onward, i - rest));
                }
            }
        }
    }
}

/// The tokens over which the parser has moved for a first operand are the
/// tokens that write it, with nothing but semicolons behind them.
proof fn lemma_prefix_expression_is_written(tokens: Seq<TokenView>)
    ensures
        prefix_expression(tokens) matches Ok((tree, steps)) ==> reads_as(
            tokens,
            steps,
            written(tree),
        ),
    decreases tokens.len(), 1nat,
{
    if let Ok((tree, steps)) = prefix_expression(tokens) {
        if token_at(tokens, 0) is BANG || token_at(tokens, 0) is MINUS {
            let onward = tokens_after(tokens, 1);
            lemma_expression_is_written(onward, Precedence::Prefix);
            let operand = expression(onward, Precedence::Prefix)->Ok_0.0;
            let size = written(operand).len() as int;
            assert(written(tree) =~= tokens.subrange(0, size + 1)) by {
                assert(written(operand) == onward.subrange(0, size));
                assert(written(tree) == seq![tokens[0]] + written(operand));
            }
            assert forall|i: int| size + 1 <= i <= steps implies #[trigger] semicolon_at(
                tokens,
                i,
            ) by {
                assert(semicolon_at(onward, i - 1));
            }
        } else {
            assert(written(tree) =~= tokens.subrange(0, 1));
        }
    }
}

/// Whether `text` is `left` with the `added` tokens behind the first of
/// `tokens`, and nothing but semicolons follows them up to `steps`.
spec fn extends_as(
    tokens: Seq<TokenView>,
    steps: nat,
    left: Seq<TokenView>,
    text: Seq<TokenView>,
) -> bool {
    let added = text.len() - left.len();
    &&& 0 <= added <= steps < tokens.len()
    &&& text == left + tokens.subrange(1, added + 1)
    &&& forall|i: int| added < i <= steps ==> #[trigger] semicolon_at(tokens, i)
}

/// What a chain of infix operators adds to the expression `left`, on whose
/// last token the parser rests or behind which it rests on a semicolon, is
/// written by the tokens that follow, with nothing but semicolons behind
/// them.
proof fn lemma_infix_chain_is_written(
    tokens: Seq<TokenView>,
    floor: Precedence,
    left: ExpresionView,
)
    requires
        tokens.len() > 0,
    ensures
        infix_chain(tokens, floor, left) matches Ok((tree, steps)) ==> extends_as(
            tokens,
            steps,
            written(left),
            written(tree),
        ),
    decreases tokens.len(), 0nat,
{
    let next = token_at(tokens, 1);
    if token_at(tokens, 0) is SEMICOLON || floor.rank() >= precedence_of(next).rank() {
        assert(written(left) =~= written(left) + tokens.subrange(1, 1));
    } else {
        let rank = precedence_of(next);
        let beyond = tokens_after(tokens, 2);
        lemma_expression_is_written(beyond, rank);
        if let Ok((right, steps)) = expression(beyond, rank) {
            let operator = operator_of(next)->0;
            let joined = ExpresionView::Infix(Box::new(left), operator, Box::new(right));
            let onward = tokens_after(tokens, steps + 2);
            lemma_operator_token(operator, next);
            lemma_infix_chain_is_written(onward, floor, joined);
            if let Ok((tree, more)) = infix_chain(onward, floor, joined) {
                assert(written(joined) == written(left) + seq![next] + written(right));
                lemma_chain_step_is_written(
                    tokens,
                    steps,
                    more,
                    written(left),
                    written(right),
                    written(tree),
                );
            }
        }
    }
}

/// One step of a chain, on the tokens alone: behind the first token stand
/// an operator and the tokens `right` of its operand, over which the parser
/// has moved by `steps`, and the rest of the chain, over which it has moved
/// by `more`, has made `text` of the whole.
proof fn lemma_chain_step_is_written(
    tokens: Seq<TokenView>,
    steps: nat,
    more: nat,
    left: Seq<TokenView>,
    right: Seq<TokenView>,
    text: Seq<TokenView>,
)
    requires
        tokens.len() > 1,
        reads_as(tokens_after(tokens, 2), steps, right),
        extends_as(
            tokens_after(tokens, steps + 2),
            more,
            left + seq![tokens[1]] + right,
            text,
        ),
        token_at(tokens_after(tokens, steps + 2), 0) is SEMICOLON ==> more == 0 && text == left
            + seq![tokens[1]] + right,
    ensures
        extends_as(tokens, steps + 2 + more, left, text),
{
    let beyond = tokens_after(tokens, 2);
    let onward = tokens_after(tokens, steps + 2);
    let joined = left + seq![tokens[1]] + right;
    let size = right.len() as int;
    let added = text.len() - joined.len();
    assert(joined =~= left + tokens.subrange(1, size + 2)) by {
        assert(right == beyond.subrange(0, size));
        assert(beyond.subrange(0, size) =~= tokens.subrange(2, size + 2));
        assert(tokens.subrange(1, size + 2) =~= seq![tokens[1]] + tokens.subrange(2, size + 2));
    }
    if size <= steps {
        assert(semicolon_at(beyond, steps as int));
        assert(onward[0] == beyond[steps as int]);
        assert forall|i: int| size + 1 < i <= steps + 2 implies #[trigger] semicolon_at(
            tokens,
            i,
        ) by {
            assert(semicolon_at(beyond, i - 2));
        }
    } else {
        assert(text =~= left + tokens.subrange(1, size + added + 2)) by {
            assert(onward.subrange(1, added + 1) =~= tokens.subrange(size + 2, size + added + 2));
        }
        assert forall|i: int|
            size + added + 1 < i <= steps + 2 + more implies #[trigger] semicolon_at(tokens, i) by {
            assert(semicolon_at(onward, i - (steps + 2)));
        }
    }
}

/// The tokens that write a statement, in order, its closing semicolon
/// apart.
pub open spec fn statement_written(tree: StatementView) -> Seq<TokenView> {
    match tree {
        StatementView::Let(name, value) => seq![TokenView::LET] + written(name) + seq![
            TokenView::ASSIGN,
        ] + written(value),
        StatementView::Return(value) => seq![TokenView::RETURN] + written(value),
        StatementView::Expression(value) => written(value),
    }
}

/// The tokens that write a run of statements, in order, the semicolons
/// apart.
pub open spec fn program_written(statements: Seq<StatementView>) -> Seq<TokenView>
    decreases statements.len(),
{
    if statements.len() == 0 {
        Seq::empty()
    } else {
        statement_written(statements.first()) + program_written(statements.drop_first())
    }
}

/// The tokens of `tokens` that are no semicolons, in order.
pub open spec fn without_semicolons(tokens: Seq<TokenView>) -> Seq<TokenView>
    decreases tokens.len(),
{
    if tokens.len() == 0 {
        Seq::empty()
    } else if tokens.first() is SEMICOLON {
        without_semicolons(tokens.drop_first())
    } else {
        seq![tokens.first()] + without_semicolons(tokens.drop_first())
    }
}

/// As with an expression, the tokens over which the parser has moved for a
/// statement are the tokens that write it, with nothing but semicolons
/// behind them.
pub proof fn lemma_statement_is_written(tokens: Seq<TokenView>)
    ensures
        statement(tokens) matches Ok((tree, steps)) ==> reads_as(
            tokens,
            steps,
            statement_written(tree),
        ),
{
    if let Ok((tree, steps)) = statement(tokens) {
        match tree {
            StatementView::Let(name, value) => {
                let onward = tokens_after(tokens, 3);
                lemma_expression_is_written(onward, Precedence::Lowest);
                let size = written(value).len() as int;
                assert(statement_written(tree) =~= tokens.subrange(0, size + 3)) by {
                    assert(written(value) == onward.subrange(0, size));
                }
                assert forall|i: int| size + 3 <= i <= steps implies #[trigger] semicolon_at(
                    tokens,
                    i,
                ) by {
                    assert(semicolon_at(onward, i - 3));
                }
            },
            StatementView::Return(value) => {
                let onward = tokens_after(tokens, 1);
                lemma_expression_is_written(onward, Precedence::Lowest);
                let size = written(value).len() as int;
                assert(statement_written(tree) =~= tokens.subrange(0, size + 1)) by {
                    assert(written(value) == onward.subrange(0, size));
                }
                assert forall|i: int| size + 1 <= i <= steps implies #[trigger] semicolon_at(
                    tokens,
                    i,
                ) by {
                    assert(semicolon_at(onward, i - 1));
                }
            },
            StatementView::Expression(value) => {
                lemma_expression_is_written(tokens, Precedence::Lowest);
            },
        }
    }
}

/// No semicolon is among the tokens that write an expression.
pub proof fn lemma_written_holds_no_semicolon(tree: ExpresionView)
    ensures
        forall|i: int| 0 <= i < written(tree).len() ==> !(#[trigger] written(tree)[i]
            is SEMICOLON),
    decreases tree,
{
    match tree {
        ExpresionView::Prefix(_, operand) => {
            lemma_written_holds_no_semicolon(*operand);
        },
        ExpresionView::Infix(left, _, right) => {
            lemma_written_holds_no_semicolon(*left);
            lemma_written_holds_no_semicolon(*right);
        },
        _ => {},
    }
}

/// Taking the semicolons out of two runs of tokens one after the other is
/// taking them out of each.
proof fn lemma_without_semicolons_of_two(first: Seq<TokenView>, second: Seq<TokenView>)
    ensures
        without_semicolons(first + second) == without_semicolons(first) + without_semicolons(
            second,
        ),
    decreases first.len(),
{
    if first.len() == 0 {
        assert(first + second =~= second);
        assert(without_semicolons(first) + without_semicolons(second) =~= without_semicolons(
            second,
        ));
    } else {
        assert((first + second).drop_first() =~= first.drop_first() + second);
        lemma_without_semicolons_of_two(first.drop_first(), second);
        assert(without_semicolons(first + second) =~= without_semicolons(first)
            + without_semicolons(second));
    }
}

/// Taking the semicolons out of tokens that read as a text without
/// semicolons leaves that text.
proof fn lemma_without_semicolons_of_read(
    tokens: Seq<TokenView>,
    steps: nat,
    text: Seq<TokenView>,
)
    requires
        reads_as(tokens, steps, text),
        tokens.len() == steps + 1,
        forall|i: int| 0 <= i < text.len() ==> !(#[trigger] text[i] is SEMICOLON),
    ensures
        without_semicolons(tokens) == text,
    decreases tokens.len(),
{
    let rest = tokens.drop_first();
    if text.len() == 1 {
        assert(tokens[0] == text[0]);
        assert forall|i: int| 0 <= i < rest.len() implies (#[trigger] rest[i]) is SEMICOLON by {
            assert(semicolon_at(tokens, i + 1));
        }
        lemma_without_semicolons_of_none(rest);
        assert(without_semicolons(tokens) =~= text);
    } else {
        assert(tokens[0] == text[0]);
        assert(reads_as(rest, (steps - 1) as nat, text.drop_first())) by {
            assert(rest.subrange(0, text.len() - 1) =~= text.drop_first());
            assert forall|i: int| text.len() - 1 <= i <= steps - 1 implies #[trigger] semicolon_at(
                rest,
                i,
            ) by {
                assert(semicolon_at(tokens, i + 1));
            }
        }
        assert forall|i: int| 0 <= i < text.drop_first().len() implies !(
        #[trigger] text.drop_first()[i] is SEMICOLON) by {
            assert(text.drop_first()[i] == text[i + 1]);
        }
        lemma_without_semicolons_of_read(rest, (steps - 1) as nat, text.drop_first());
        assert(without_semicolons(tokens) =~= text);
    }
}

/// Of semicolons alone nothing is left.
proof fn lemma_without_semicolons_of_none(tokens: Seq<TokenView>)
    requires
        forall|i: int| 0 <= i < tokens.len() ==> (#[trigger] tokens[i]) is SEMICOLON,
    ensures
        without_semicolons(tokens) == Seq::<TokenView>::empty(),
    decreases tokens.len(),
{
    if tokens.len() > 0 {
        assert forall|i: int| 0 <= i < tokens.drop_first().len() implies (
        #[trigger] tokens.drop_first()[i]) is SEMICOLON by {
            assert(tokens.drop_first()[i] == tokens[i + 1]);
        }
        lemma_without_semicolons_of_none(tokens.drop_first());
    }
}

/// No semicolon is among the tokens that write a statement.
proof fn lemma_statement_written_holds_no_semicolon(tree: StatementView)
    ensures
        forall|i: int|
            0 <= i < statement_written(tree).len() ==> !(#[trigger] statement_written(tree)[i]
                is SEMICOLON),
{
    match tree {
        StatementView::Let(name, value) => {
            lemma_written_holds_no_semicolon(name);
            lemma_written_holds_no_semicolon(value);
        },
        StatementView::Return(value) => {
            lemma_written_holds_no_semicolon(value);
        },
        StatementView::Expression(value) => {
            lemma_written_holds_no_semicolon(value);
        },
    }
}

/// Taking the semicolons out of the tokens over which the parser has moved
/// for a statement, and of the one behind them, leaves the tokens that
/// write the statement.
proof fn lemma_without_semicolons_of_statement(tokens: Seq<TokenView>)
    ensures
        statement(tokens) matches Ok((tree, steps)) ==> steps < tokens.len() && without_semicolons(
            tokens.subrange(0, steps + 1 as int),
        ) == statement_written(tree),
{
    if let Ok((tree, steps)) = statement(tokens) {
        let read = tokens.subrange(0, steps + 1 as int);
        let text = statement_written(tree);
        lemma_statement_is_written(tokens);
        lemma_statement_written_holds_no_semicolon(tree);
        assert(reads_as(read, steps, text)) by {
            assert(read.subrange(0, text.len() as int) =~= tokens.subrange(0, text.len() as int));
            assert forall|i: int| text.len() <= i <= steps implies #[trigger] semicolon_at(
                read,
                i,
            ) by {
                assert(semicolon_at(tokens, i));
            }
        }
        lemma_without_semicolons_of_read(read, steps, text);
    }
}

/// The tree keeps the whole text: the semicolons apart, the tokens of a text
/// that parses are the tokens that write its statements, in their order.
/// `EOF` stands for the end of the tokens and is not among them.
pub proof fn lemma_program_is_written(tokens: Seq<TokenView>)
    requires
        forall|i: int| 0 <= i < tokens.len() ==> !(#[trigger] tokens[i] is EOF),
    ensures
        program(tokens) matches Ok(statements) ==> without_semicolons(tokens) == program_written(
            statements,
        ),
    decreases tokens.len(),
{
    if tokens.len() > 0 {
        if let Ok((first, steps)) = statement(tokens) {
            let onward = tokens_after(tokens, steps + 1);
            lemma_without_semicolons_of_statement(tokens);
            lemma_program_is_written(onward);
            if let Ok(rest) = program(onward) {
                let read = tokens.subrange(0, steps + 1 as int);
                let statements = seq![first] + rest;
                assert(tokens =~= read + onward);
                lemma_without_semicolons_of_two(read, onward);
                assert(statements.first() == first);
                assert(statements.drop_first() =~= rest);
            }
        }
    }
}

/// The same of a text: where it parses, the tokens that the scanner gives
/// for it are, the semicolons apart, the tokens that write its statements.
pub proof fn lemma_parsed_text_is_written(text: Seq<char>)
    ensures
        program(tokenize(text)) matches Ok(statements) ==> without_semicolons(tokenize(text))
            == program_written(statements),
{
    lemma_tokens_hold_no_eof(text, 0);
    lemma_program_is_written(tokenize(text));
}


} // verus!
