//! The syntax tree of an expression and its text with every pair of
//! parentheses written out.

use crate::operator::Operator;
use vstd::prelude::*;

verus! {

/// An expression as a mathematical value: an operand, or an operator with
/// its two operands. It is what contracts say of an `AstNode`.
pub enum Expr {
    /// An operand, by its text.
    Leaf(Seq<char>),
    /// An operator applied to a left and a right expression.
    Node(Operator, Box<Expr>, Box<Expr>),
}

impl Expr {
    /// The text of the expression, with parentheses round every operator
    /// and its two operands.
    pub open spec fn render(self) -> Seq<char>
        decreases self,
    {
        match self {
            Expr::Leaf(text) => text,
            Expr::Node(op, left, right) => seq!['('] + Expr::infix(
                op,
                left.render(),
                right.render(),
            ) + seq![')'],
        }
    }

    /// Two texts with the mark of `op` between them, set off by one space
    /// on either side.
    pub open spec fn infix(op: Operator, left: Seq<char>, right: Seq<char>) -> Seq<char> {
        left + seq![' ', op.mark_char(), ' '] + right
    }
}

/// A node of a syntax tree.
#[derive(Debug, PartialEq, Eq)]
pub enum AstNode {
    /// An operand, kept as it was written.
    Leaf(String),
    /// An operator with its two operands.
    Root(Box<AstTree>),
}

/// An operator with the trees of its two operands.
#[derive(Debug, PartialEq, Eq)]
pub struct AstTree {
    pub root: Operator,
    pub left_child: AstNode,
    pub right_child: AstNode,
}

impl View for AstNode {
    type V = Expr;

    open spec fn view(&self) -> Expr
        decreases self,
    {
        match self {
            AstNode::Leaf(text) => Expr::Leaf(text@),
            AstNode::Root(tree) => Expr::Node(
                tree.root,
                Box::new(tree.left_child@),
                Box::new(tree.right_child@),
            ),
        }
    }
}

impl View for AstTree {
    type V = Expr;

    open spec fn view(&self) -> Expr {
        Expr::Node(self.root, Box::new(self.left_child@), Box::new(self.right_child@))
    }
}

impl AstNode {
    /// The node of `op` over `left` and `right`.
    pub fn new_root(op: Operator, left: AstNode, right: AstNode) -> (node: AstNode)
        ensures
            node@ == Expr::Node(op, Box::new(left@), Box::new(right@)),
    {
        AstNode::Root(Box::new(AstTree { root: op, left_child: left, right_child: right }))
    }

    /// The leaf that holds `value`.
    pub fn new_leaf(value: &str) -> (node: AstNode)
        ensures
            node@ == Expr::Leaf(value@),
    {
        AstNode::Leaf(String::from_str(value))
    }

    /// The text of the tree, fully parenthesized.
    pub fn to_string(&self) -> (text: String)
        ensures
            text@ == self@.render(),
        decreases self,
    {
        match self {
            AstNode::Leaf(leaf) => leaf.clone(),
            AstNode::Root(tree) => {
                proof {
                    reveal_strlit("(");
                    reveal_strlit(")");
                }
                let mut text = String::from_str("(");
                text.append(tree.to_string().as_str());
                text.append(")");
                text
            },
        }
    }
}

impl AstTree {
    /// The text of the left operand, the operator's mark and the text of
    /// the right operand, with one space on either side of the mark and no
    /// parentheses round the whole.
    pub fn to_string(&self) -> (text: String)
        ensures
            text@ == Expr::infix(self.root, self.left_child@.render(), self.right_child@.render()),
        decreases self,
    {
        proof {
            reveal_strlit(" ");
        }
        let mut text = self.left_child.to_string();
        text.append(" ");
        text.append(self.root.mark());
        text.append(" ");
        text.append(self.right_child.to_string().as_str());
        text
    }
}

} // verus!
