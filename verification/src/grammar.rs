//! What the parser reads, said without the parser: the expressions as a
//! grammar, and the proof that the parser reads exactly these.

use crate::ast::Expr;
use crate::lexer::Token;
use crate::splitting::is_plain;
use crate::operator::Operator;
use crate::parser::{
    atom_at, climb, expression_at, found, is_close, is_open, lemma_expression_advances, parse,
    ParseError,
};
use vstd::prelude::*;

verus! {

/// A token that is read as a leaf where an operand is due: any but an
/// operator's mark and the opening parenthesis.
pub open spec fn is_leaf_token(token: Token) -> bool {
    Operator::from_mark(token) is None && !is_open(token)
}

/// Plain text and the closing parenthesis are read as leaves.
pub proof fn lemma_leaf_tokens(text: Seq<char>)
    requires
        is_plain(text) || is_close(text),
    ensures
        is_leaf_token(text),
{
}

/// The tokens from `lo` up to `hi` are an atom for `tree`: one token that
/// is the leaf `tree`, or an expression for `tree` between an opening and a
/// closing parenthesis.
pub open spec fn is_atom(all: Seq<Token>, lo: int, hi: int, tree: Expr) -> bool
    decreases hi - lo, 0nat,
{
    ||| 0 <= lo && hi == lo + 1 && hi <= all.len() && is_leaf_token(all[lo]) && tree == Expr::Leaf(
        all[lo],
    )
    ||| 0 <= lo && lo + 2 <= hi && hi <= all.len() && is_open(all[lo]) && is_close(all[hi - 1])
        && is_expression(
        all,
        lo + 1,
        hi - 1,
        tree,
        0,
    )
}

/// The tokens from `lo` up to `hi` are an expression for `tree` whose
/// operators outside parentheses have at least the rank `min_precedence`:
/// an atom for `tree`, or the mark of the operator of `tree` at some
/// position, of a rank that is high enough, and `is_split_at` it into an
/// expression for either operand.
pub open spec fn is_expression(
    all: Seq<Token>,
    lo: int,
    hi: int,
    tree: Expr,
    min_precedence: nat,
) -> bool
    decreases hi - lo, 2nat,
{
    is_atom(all, lo, hi, tree) || match tree {
        Expr::Leaf(_) => false,
        Expr::Node(op, left, right) => op.precedence() >= min_precedence && exists|k: int|
            #[trigger] is_mark_at(all, k, op) && is_split_at(all, lo, hi, k, op, *left, *right),
    }
}

/// The token at `k` is the mark of `op`.
pub open spec fn is_mark_at(all: Seq<Token>, k: int, op: Operator) -> bool {
    0 <= k < all.len() && all[k] == seq![op.mark_char()]
}

/// The tokens before `k` are an expression for `left` that can stand to
/// the left of `op`, and those after `k` one for `right` that can stand to
/// its right.
pub open spec fn is_split_at(
    all: Seq<Token>,
    lo: int,
    hi: int,
    k: int,
    op: Operator,
    left: Expr,
    right: Expr,
) -> bool
    decreases hi - lo, 1nat,
{
    &&& lo < k < hi - 1
    &&& is_expression(all, lo, k, left, op.left_rank())
    &&& is_expression(all, k + 1, hi, right, op.right_rank())
}

/// The token at `pos`, if there is one, ends an expression of the rank
/// `min_precedence`: it is a closing parenthesis, or an operator of a lower
/// rank.
pub open spec fn ends_at(all: Seq<Token>, pos: int, min_precedence: nat) -> bool {
    ||| pos >= all.len()
    ||| is_close(all[pos])
    ||| Operator::from_mark(all[pos]) matches Some(op) && op.precedence() < min_precedence
}

/// An operator's token is its mark.
proof fn lemma_mark_of(token: Token, op: Operator)
    requires
        Operator::from_mark(token) == Some(op),
    ensures
        token == seq![op.mark_char()],
        !is_close(token),
        !is_open(token),
{
}

/// Where an expression has grown to its end, the next token ends it.
pub proof fn lemma_climb_ends(all: Seq<Token>, pos: int, left: Expr, min_precedence: nat)
    requires
        0 <= pos <= all.len(),
    ensures
        climb(all, pos, left, min_precedence) matches Ok((_, next)) ==> ends_at(
            all,
            next,
            min_precedence,
        ),
    decreases all.len() - pos,
{
    if pos < all.len() && !is_close(all[pos]) {
        if let Some(op) = Operator::from_mark(all[pos]) {
            if op.precedence() >= min_precedence {
                if let Ok((right, next)) = expression_at(all, pos + 1, op.right_rank()) {
                    if pos < next <= all.len() {
                        lemma_climb_ends(
                            all,
                            next,
                            Expr::Node(op, Box::new(left), Box::new(right)),
                            min_precedence,
                        );
                    }
                }
            }
        }
    }
}

/// After an expression that was read, the next token ends it.
pub proof fn lemma_expression_ends(all: Seq<Token>, pos: int, min_precedence: nat)
    ensures
        expression_at(all, pos, min_precedence) matches Ok((_, next)) ==> ends_at(
            all,
            next,
            min_precedence,
        ),
{
    if let Ok((left, next)) = atom_at(all, pos) {
        if pos < next <= all.len() {
            lemma_climb_ends(all, next, left, min_precedence);
        }
    }
}

/// An atom that was read is an atom of the grammar.
pub proof fn lemma_atom_sound(all: Seq<Token>, pos: int)
    ensures
        atom_at(all, pos) matches Ok((tree, next)) ==> is_atom(all, pos, next, tree),
    decreases all.len() - pos, 0nat,
{
    if 0 <= pos < all.len() && is_open(all[pos]) {
        lemma_expression_sound(all, pos + 1, 0);
    }
}

/// An expression that was read is an expression of the grammar.
pub proof fn lemma_expression_sound(all: Seq<Token>, pos: int, min_precedence: nat)
    ensures
        expression_at(all, pos, min_precedence) matches Ok((tree, next)) ==> is_expression(
            all,
            pos,
            next,
            tree,
            min_precedence,
        ),
    decreases all.len() - pos, 1nat,
{
    lemma_atom_sound(all, pos);
    if let Ok((left, next)) = atom_at(all, pos) {
        if pos < next <= all.len() {
            lemma_climb_sound(all, pos, next, left, min_precedence);
        }
    }
}

/// An expression that has grown from one of the grammar is one of the
/// grammar, provided that the first could stand to the left of the operator
/// that follows it.
pub proof fn lemma_climb_sound(
    all: Seq<Token>,
    start: int,
    pos: int,
    left: Expr,
    min_precedence: nat,
)
    requires
        0 <= start < pos <= all.len(),
        is_expression(all, start, pos, left, min_precedence),
        pos < all.len() ==> (Operator::from_mark(all[pos]) matches Some(op) ==> is_expression(
            all,
            start,
            pos,
            left,
            op.left_rank(),
        )),
    ensures
        climb(all, pos, left, min_precedence) matches Ok((tree, next)) ==> is_expression(
            all,
            start,
            next,
            tree,
            min_precedence,
        ),
    decreases all.len() - pos, 0nat,
{
    if pos < all.len() && !is_close(all[pos]) {
        if let Some(op) = Operator::from_mark(all[pos]) {
            if op.precedence() >= min_precedence {
                let rank = op.right_rank();
                lemma_expression_sound(all, pos + 1, rank);
                lemma_expression_advances(all, pos + 1, rank);
                lemma_expression_ends(all, pos + 1, rank);
                if let Ok((right, next)) = expression_at(all, pos + 1, rank) {
                    // The mark of `op` at `pos` splits what has grown.
                    let grown = Expr::Node(op, Box::new(left), Box::new(right));
                    lemma_mark_of(all[pos], op);
                    assert(is_mark_at(all, pos, op));
                    assert(is_split_at(all, start, next, pos, op, left, right));
                    assert(is_expression(all, start, next, grown, min_precedence));
                    // An operator that follows has a rank below `rank`, so that
                    // what has grown can stand to its left.
                    if next < all.len() {
                        if let Some(after) = Operator::from_mark(all[next]) {
                            assert(after.left_rank() <= op.precedence());
                            assert(is_expression(all, start, next, grown, after.left_rank()));
                        }
                    }
                    lemma_climb_sound(all, start, next, grown, min_precedence);
                }
            }
        }
    }
}

/// An atom of the grammar is read as an atom, with its tree.
pub proof fn lemma_atom_complete(all: Seq<Token>, lo: int, hi: int, tree: Expr)
    requires
        is_atom(all, lo, hi, tree),
    ensures
        atom_at(all, lo) == found(tree, hi),
    decreases hi - lo, 0nat,
{
    if hi >= lo + 2 && is_open(all[lo]) && is_close(all[hi - 1]) && is_expression(
        all,
        lo + 1,
        hi - 1,
        tree,
        0,
    ) {
        lemma_expression_complete(all, lo + 1, hi - 1, tree, 0, 0);
    }
}

/// An expression of the grammar is read up to its end, and grows on from
/// there: provided that the operators it may hold outside parentheses, by
/// `level`, include those that are taken in, and that it could stand to
/// the left of an operator that follows it.
pub proof fn lemma_expression_complete(
    all: Seq<Token>,
    lo: int,
    hi: int,
    tree: Expr,
    level: nat,
    min_precedence: nat,
)
    requires
        is_expression(all, lo, hi, tree, level),
        min_precedence <= level,
        hi < all.len() ==> (Operator::from_mark(all[hi]) matches Some(op) ==> op.left_rank()
            <= level),
    ensures
        0 <= lo < hi <= all.len(),
        expression_at(all, lo, min_precedence) == climb(all, hi, tree, min_precedence),
    decreases hi - lo, 2nat,
{
    if is_atom(all, lo, hi, tree) {
        lemma_atom_complete(all, lo, hi, tree);
    } else if let Expr::Node(op, left, right) = tree {
        let k = choose|k: int|
            #[trigger] is_mark_at(all, k, op) && is_split_at(all, lo, hi, k, op, *left, *right);
        let rank = op.right_rank();
        lemma_expression_complete(all, lo, k, *left, op.left_rank(), min_precedence);
        lemma_expression_complete(all, k + 1, hi, *right, rank, rank);
        // The right operand ends where the whole expression does: an
        // operator that follows has a rank below `rank`.
        assert(climb(all, hi, *right, rank) == if hi < all.len() && !is_close(all[hi])
            && Operator::from_mark(all[hi]) is None {
            Err(ParseError::InvalidOperator)
        } else {
            found(*right, hi)
        });
        assert(climb(all, k, *left, min_precedence) == climb(all, hi, tree, min_precedence));
    }
}

/// `all` starts with an expression for `tree` that ends where the tokens
/// end, or before a closing parenthesis.
pub open spec fn is_reading(all: Seq<Token>, tree: Expr) -> bool {
    exists|n: int|
        #[trigger] is_expression(all, 0, n, tree, 0) && (n == all.len() || (n < all.len()
            && is_close(all[n])))
}

/// The parser reads the grammar, all of it and nothing else: `tree` is its
/// result exactly if the tokens start with an expression for `tree` that
/// ends where they end, or before a closing parenthesis.
pub proof fn theorem_parse_is_reading(all: Seq<Token>, tree: Expr)
    ensures
        parse(all) == Ok::<_, ParseError>(tree) <==> is_reading(all, tree),
{
    if parse(all) == Ok::<_, ParseError>(tree) {
        lemma_expression_sound(all, 0, 0);
        lemma_expression_ends(all, 0, 0);
        lemma_expression_advances(all, 0, 0);
    }
    if is_reading(all, tree) {
        let n = choose|n: int|
            #[trigger] is_expression(all, 0, n, tree, 0) && (n == all.len() || (n < all.len()
                && is_close(all[n])));
        lemma_expression_complete(all, 0, n, tree, 0, 0);
    }
}

/// The parser fails exactly on the tokens that are an expression for no
/// tree.
pub proof fn theorem_failure_is_no_reading(all: Seq<Token>)
    ensures
        parse(all) is Err <==> forall|tree: Expr| !is_reading(all, tree),
{
    if let Ok(tree) = parse(all) {
        theorem_parse_is_reading(all, tree);
    } else {
        assert forall|tree: Expr| !is_reading(all, tree) by {
            theorem_parse_is_reading(all, tree);
        }
    }
}

/// Tokens are an expression for one tree at most.
pub proof fn theorem_reading_is_unique(all: Seq<Token>, first: Expr, second: Expr)
    requires
        is_reading(all, first),
        is_reading(all, second),
    ensures
        first == second,
{
    theorem_parse_is_reading(all, first);
    theorem_parse_is_reading(all, second);
}

} // verus!
