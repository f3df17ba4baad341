//! The binary operators, with the rank and the grouping direction of each.

use crate::lexer::Token;
use vstd::prelude::*;

verus! {

/// The side on which a chain of operators of one rank groups.
#[derive(Clone, Copy, Debug, PartialEq, Eq, Structural)]
pub enum Associativity {
    /// `a - b - c` is `(a - b) - c`.
    Left,
    /// `a ^ b ^ c` is `a ^ (b ^ c)`.
    Right,
}

/// A binary operator. It is known by its mark; rank and grouping follow
/// from it.
#[derive(Clone, Copy, Debug, PartialEq, Eq, Structural)]
pub enum Operator {
    /// `+`
    Add,
    /// `-`
    Sub,
    /// `*`
    Mul,
    /// `/`
    Div,
    /// `^`
    Pow,
}

impl Operator {
    /// The operator written as the character `c`, if there is one.
    pub open spec fn from_char(c: char) -> Option<Operator> {
        if c == '+' {
            Some(Operator::Add)
        } else if c == '-' {
            Some(Operator::Sub)
        } else if c == '*' {
            Some(Operator::Mul)
        } else if c == '/' {
            Some(Operator::Div)
        } else if c == '^' {
            Some(Operator::Pow)
        } else {
            None
        }
    }

    /// The operator whose mark is the token `token`, if there is one.
    pub open spec fn from_mark(token: Token) -> Option<Operator> {
        if token.len() == 1 {
            Operator::from_char(token[0])
        } else {
            None
        }
    }

    /// The character that the operator is written as.
    pub open spec fn mark_char(self) -> char {
        match self {
            Operator::Add => '+',
            Operator::Sub => '-',
            Operator::Mul => '*',
            Operator::Div => '/',
            Operator::Pow => '^',
        }
    }

    /// The rank of the operator: the higher, the tighter it binds.
    pub open spec fn spec_precedence(&self) -> u32 {
        match self {
            Operator::Add | Operator::Sub => 1,
            Operator::Mul | Operator::Div => 2,
            Operator::Pow => 3,
        }
    }

    /// The side on which the operator groups.
    pub open spec fn spec_associativity(&self) -> Associativity {
        match self {
            Operator::Pow => Associativity::Right,
            _ => Associativity::Left,
        }
    }

    /// The least rank that an operator outside parentheses may have in
    /// the right operand of this one.
    pub open spec fn right_rank(self) -> nat {
        match self.associativity() {
            Associativity::Left => (self.precedence() + 1) as nat,
            Associativity::Right => self.precedence() as nat,
        }
    }

    /// The least rank that an operator outside parentheses may have in
    /// the left operand of this one.
    pub open spec fn left_rank(self) -> nat {
        match self.associativity() {
            Associativity::Left => self.precedence() as nat,
            Associativity::Right => (self.precedence() + 1) as nat,
        }
    }

    /// Looks up the operator with the mark `mark`.
    pub fn new(mark: &str) -> (op: Option<Operator>)
        ensures
            op == Operator::from_mark(mark@),
    {
        if mark.unicode_len() != 1 {
            return None;
        }
        let c = mark.get_char(0);
        if c == '+' {
            Some(Operator::Add)
        } else if c == '-' {
            Some(Operator::Sub)
        } else if c == '*' {
            Some(Operator::Mul)
        } else if c == '/' {
            Some(Operator::Div)
        } else if c == '^' {
            Some(Operator::Pow)
        } else {
            None
        }
    }

    /// Whether `mark` is the mark of an operator.
    pub fn is_operation(mark: &str) -> (known: bool)
        ensures
            known == Operator::from_mark(mark@).is_some(),
    {
        Operator::new(mark).is_some()
    }

    /// The mark of the operator.
    pub fn mark(&self) -> (mark: &'static str)
        ensures
            mark@ == seq![self.mark_char()],
    {
        proof {
            reveal_strlit("+");
            reveal_strlit("-");
            reveal_strlit("*");
            reveal_strlit("/");
            reveal_strlit("^");
        }
        let mark = match self {
            Operator::Add => "+",
            Operator::Sub => "-",
            Operator::Mul => "*",
            Operator::Div => "/",
            Operator::Pow => "^",
        };
        mark
    }

    /// The rank of the operator.
    #[verifier::when_used_as_spec(spec_precedence)]
    pub fn precedence(&self) -> (rank: u32)
        ensures
            rank == self.precedence(),
    {
        match self {
            Operator::Add | Operator::Sub => 1,
            Operator::Mul | Operator::Div => 2,
            Operator::Pow => 3,
        }
    }

    /// The side on which the operator groups.
    #[verifier::when_used_as_spec(spec_associativity)]
    pub fn associativity(&self) -> (side: Associativity)
        ensures
            side == self.associativity(),
    {
        match self {
            Operator::Pow => Associativity::Right,
            _ => Associativity::Left,
        }
    }
}

} // verus!
