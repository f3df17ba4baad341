//! How two operators in a row group.

use crate::ast::Expr;
use crate::grammar::{is_leaf_token, lemma_leaf_tokens};
use crate::lexer::{tokens, Token, SEPARATOR_LIST};
use crate::operator::Operator;
use crate::parser::{atom_at, climb, expression_at, found, parse, ParseError};
use crate::splitting::{is_plain, lemma_split_at_separator, lemma_tokens_of_plain};
use vstd::prelude::*;

verus! {

/// The tokens of `a first b second c`.
pub open spec fn chain(
    a: Seq<char>,
    first: Operator,
    b: Seq<char>,
    second: Operator,
    c: Seq<char>,
) -> Seq<Token> {
    seq![a, seq![first.mark_char()], b, seq![second.mark_char()], c]
}

/// Of two operators in a row, the second takes the middle operand if its
/// rank is above that of the first, or equal to it where they group to the
/// right: `a + b * c` is `a + (b * c)`, and `a ^ b ^ c` is `a ^ (b ^ c)`.
/// Otherwise the first takes it: `a * b + c` is `(a * b) + c`, and
/// `a - b - c` is `(a - b) - c`.
pub proof fn theorem_chain_grouping(
    a: Seq<char>,
    first: Operator,
    b: Seq<char>,
    second: Operator,
    c: Seq<char>,
)
    requires
        is_leaf_token(a),
        is_leaf_token(b),
        is_leaf_token(c),
    ensures
        parse(chain(a, first, b, second, c)) == Ok::<_, ParseError>(
            if second.precedence() >= first.right_rank() {
                Expr::Node(
                    first,
                    Box::new(Expr::Leaf(a)),
                    Box::new(
                        Expr::Node(second, Box::new(Expr::Leaf(b)), Box::new(Expr::Leaf(c))),
                    ),
                )
            } else {
                Expr::Node(
                    second,
                    Box::new(
                        Expr::Node(first, Box::new(Expr::Leaf(a)), Box::new(Expr::Leaf(b))),
                    ),
                    Box::new(Expr::Leaf(c)),
                )
            },
        ),
{
    let all = chain(a, first, b, second, c);
    let la = Expr::Leaf(a);
    let lb = Expr::Leaf(b);
    let lc = Expr::Leaf(c);
    assert(Operator::from_mark(all[1]) == Some(first));
    assert(Operator::from_mark(all[3]) == Some(second));
    assert(all[1][0] != ')' && all[3][0] != ')');
    assert(atom_at(all, 0) == found(la, 1));
    assert(atom_at(all, 2) == found(lb, 3));
    assert(atom_at(all, 4) == found(lc, 5));
    assert(climb(all, 5, lc, second.right_rank()) == found(lc, 5));
    assert(expression_at(all, 4, second.right_rank()) == found(lc, 5));
    if second.precedence() >= first.right_rank() {
        let right = Expr::Node(second, Box::new(lb), Box::new(lc));
        let tree = Expr::Node(first, Box::new(la), Box::new(right));
        assert(climb(all, 5, right, first.right_rank()) == found(right, 5));
        assert(climb(all, 3, lb, first.right_rank()) == found(right, 5));
        assert(climb(all, 5, tree, 0) == found(tree, 5));
        assert(climb(all, 1, la, 0) == found(tree, 5));
    } else {
        let left = Expr::Node(first, Box::new(la), Box::new(lb));
        let tree = Expr::Node(second, Box::new(left), Box::new(lc));
        assert(climb(all, 3, lb, first.right_rank()) == found(lb, 3));
        assert(expression_at(all, 2, first.right_rank()) == found(lb, 3));
        assert(climb(all, 5, tree, 0) == found(tree, 5));
        assert(climb(all, 3, left, 0) == found(tree, 5));
    }
    assert(expression_at(all, 0, 0) == climb(all, 1, la, 0));
}

/// A chain of two `^` groups to the right: the source `a^b^c` is read as
/// a tree with the text `(a ^ (b ^ c))`.
pub proof fn theorem_power_groups_right(a: Seq<char>, b: Seq<char>, c: Seq<char>)
    requires
        is_plain(a),
        is_plain(b),
        is_plain(c),
    ensures
        parse(tokens(a + seq!['^'] + b + seq!['^'] + c)) matches Ok(tree) && tree.render() == seq![
            '(',
        ] + a + seq![' ', '^', ' ', '('] + b + seq![' ', '^', ' '] + c + seq![')', ')'],
{
    let seps = SEPARATOR_LIST@;
    let all = chain(a, Operator::Pow, b, Operator::Pow, c);
    assert(tokens(a + seq!['^'] + b + seq!['^'] + c) =~= all) by {
        lemma_tokens_of_plain(a);
        lemma_tokens_of_plain(b);
        lemma_tokens_of_plain(c);
        lemma_split_at_separator(a, '^', b + seq!['^'] + c, seps);
        lemma_split_at_separator(b, '^', c, seps);
        assert(a + seq!['^'] + (b + seq!['^'] + c) =~= a + seq!['^'] + b + seq!['^'] + c);
    }
    lemma_leaf_tokens(a);
    lemma_leaf_tokens(b);
    lemma_leaf_tokens(c);
    theorem_chain_grouping(a, Operator::Pow, b, Operator::Pow, c);
    let inner = Expr::Node(Operator::Pow, Box::new(Expr::Leaf(b)), Box::new(Expr::Leaf(c)));
    let tree = Expr::Node(Operator::Pow, Box::new(Expr::Leaf(a)), Box::new(inner));
    assert(parse(all) == Ok::<_, ParseError>(tree));
    assert(Expr::Leaf(a).render() == a);
    assert(Expr::Leaf(b).render() == b);
    assert(Expr::Leaf(c).render() == c);
    assert(inner.render() =~= seq!['('] + b + seq![' ', '^', ' '] + c + seq![')']);
}

} // verus!
