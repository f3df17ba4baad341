//! Tokens that are no expression, and the failure that each kind gives.

use crate::ast::Expr;
use crate::grammar::{is_expression, lemma_expression_complete};
use crate::lexer::Token;
use crate::operator::Operator;
use crate::parser::{expression_at, is_close, is_open, parse, ParseError};
use vstd::prelude::*;

verus! {

/// Without a token there is no operand.
pub proof fn theorem_no_token(all: Seq<Token>)
    requires
        all.len() == 0,
    ensures
        parse(all) == Err::<Expr, _>(ParseError::OperandExpected),
{
}

/// An operator at the start has no left operand.
pub proof fn theorem_operator_first(all: Seq<Token>)
    requires
        all.len() > 0,
        Operator::from_mark(all[0]) is Some,
    ensures
        parse(all) == Err::<Expr, _>(ParseError::OperandExpected),
{
}

/// An operator that has its left operand, and after it the end of the
/// tokens or another operator, has no right operand.
pub proof fn theorem_operand_missing(all: Seq<Token>, n: int, tree: Expr, op: Operator)
    requires
        is_expression(all, 0, n, tree, op.left_rank()),
        n < all.len(),
        Operator::from_mark(all[n]) == Some(op),
        n + 1 == all.len() || Operator::from_mark(all[n + 1]) is Some,
    ensures
        parse(all) == Err::<Expr, _>(ParseError::OperandExpected),
{
    lemma_expression_complete(all, 0, n, tree, op.left_rank(), 0);
    assert(expression_at(all, n + 1, op.right_rank()) == Err::<(Expr, int), _>(
        ParseError::OperandExpected,
    ));
}

/// An opening parenthesis and an expression that holds all the tokens
/// after it leave the parenthesis open.
pub proof fn theorem_unclosed(all: Seq<Token>, tree: Expr)
    requires
        all.len() > 0,
        is_open(all[0]),
        is_expression(all, 1, all.len() as int, tree, 0),
    ensures
        parse(all) == Err::<Expr, _>(ParseError::UnmatchedBrackets),
{
    lemma_expression_complete(all, 1, all.len() as int, tree, 0, 0);
}

/// After an expression, a token that is neither an operator nor a closing
/// parenthesis is refused.
pub proof fn theorem_stray_token(all: Seq<Token>, n: int, tree: Expr)
    requires
        is_expression(all, 0, n, tree, 0),
        n < all.len(),
        Operator::from_mark(all[n]) is None,
        !is_close(all[n]),
    ensures
        parse(all) == Err::<Expr, _>(ParseError::InvalidOperator),
{
    lemma_expression_complete(all, 0, n, tree, 0, 0);
}

} // verus!
