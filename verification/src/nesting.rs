//! The depth of a tree is the depth to which the parentheses of its text
//! are nested.

use crate::ast::Expr;
use vstd::math::max;
use vstd::prelude::*;

verus! {

/// What the character `c` adds to the number of parentheses that are open.
pub open spec fn step(c: char) -> int {
    if c == '(' {
        1
    } else if c == ')' {
        -1
    } else {
        0
    }
}

/// The number of parentheses that are open at the end of `text`: those
/// opened less those closed.
pub open spec fn balance(text: Seq<char>) -> int
    decreases text.len(),
{
    if text.len() == 0 {
        0
    } else {
        balance(text.drop_last()) + step(text.last())
    }
}

/// The greatest number of parentheses that are open at any point of `text`.
pub open spec fn nesting(text: Seq<char>) -> int
    decreases text.len(),
{
    if text.len() == 0 {
        0
    } else {
        max(nesting(text.drop_last()), balance(text))
    }
}

impl Expr {
    /// The number of operators on the longest way from the root to a leaf.
    pub open spec fn depth(self) -> nat
        decreases self,
    {
        match self {
            Expr::Leaf(_) => 0,
            Expr::Node(_, left, right) => (1 + max(left.depth() as int, right.depth() as int)) as nat,
        }
    }

    /// No leaf holds a parenthesis.
    pub open spec fn bare(self) -> bool
        decreases self,
    {
        match self {
            Expr::Leaf(text) => forall|i: int| 0 <= i < text.len() ==> step(#[trigger] text[i]) == 0,
            Expr::Node(_, left, right) => left.bare() && right.bare(),
        }
    }
}

/// Of two texts in a row, the open parentheses add up, and the nesting is
/// that of the first, or that of the second above what the first left open.
pub proof fn lemma_nesting_of_concat(a: Seq<char>, b: Seq<char>)
    ensures
        balance(a + b) == balance(a) + balance(b),
        nesting(a + b) == max(nesting(a), balance(a) + nesting(b)),
        nesting(a) >= balance(a),
        nesting(a) >= 0,
    decreases b.len(),
{
    lemma_nesting_bounds(a);
    if b.len() == 0 {
        assert(a + b =~= a);
    } else {
        assert((a + b).drop_last() =~= a + b.drop_last());
        lemma_nesting_of_concat(a, b.drop_last());
    }
}

/// The nesting of a text is at least zero, and at least what it leaves
/// open.
pub proof fn lemma_nesting_bounds(text: Seq<char>)
    ensures
        nesting(text) >= balance(text),
        nesting(text) >= 0,
    decreases text.len(),
{
    if text.len() > 0 {
        lemma_nesting_bounds(text.drop_last());
    }
}

/// Text without parentheses leaves none open and nests none.
pub proof fn lemma_nesting_of_bare_text(text: Seq<char>)
    requires
        forall|i: int| 0 <= i < text.len() ==> step(#[trigger] text[i]) == 0,
    ensures
        balance(text) == 0,
        nesting(text) == 0,
    decreases text.len(),
{
    if text.len() > 0 {
        let front = text.drop_last();
        assert forall|i: int| 0 <= i < front.len() implies step(#[trigger] front[i]) == 0 by {
            assert(front[i] == text[i]);
        }
        lemma_nesting_of_bare_text(front);
    }
}

/// The text of a tree closes every parenthesis that it opens, and nests
/// them as deep as the tree is, provided that no leaf holds a parenthesis
/// of its own.
pub proof fn theorem_depth_is_nesting(tree: Expr)
    requires
        tree.bare(),
    ensures
        balance(tree.render()) == 0,
        nesting(tree.render()) == tree.depth(),
    decreases tree,
{
    match tree {
        Expr::Leaf(text) => {
            lemma_nesting_of_bare_text(text);
        },
        Expr::Node(op, left, right) => {
            theorem_depth_is_nesting(*left);
            theorem_depth_is_nesting(*right);
            let open = seq!['('];
            let l = left.render();
            let mark = seq![' ', op.mark_char(), ' '];
            let r = right.render();
            let close = seq![')'];
            assert(tree.render() =~= open + l + mark + r + close);
            lemma_nesting_of_single(open);
            lemma_nesting_of_single(close);
            lemma_nesting_of_bare_text(mark);
            lemma_nesting_of_concat(open, l);
            lemma_nesting_of_concat(open + l, mark);
            lemma_nesting_of_concat(open + l + mark, r);
            lemma_nesting_of_concat(open + l + mark + r, close);
        },
    }
}

/// One character leaves open what its step is, and nests that or nothing.
proof fn lemma_nesting_of_single(text: Seq<char>)
    requires
        text.len() == 1,
    ensures
        balance(text) == step(text[0]),
        nesting(text) == max(0, step(text[0])),
{
    assert(balance(text.drop_last()) == 0);
    assert(nesting(text.drop_last()) == 0);
}

} // verus!
