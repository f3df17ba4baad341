//! Precedence climbing: from a sequence of tokens to a syntax tree.
//!
//! The result is stated by spec functions over the tokens' characters and a
//! position among them. They read the tokens from left to right and give up
//! at the first token that does not fit. The module `grammar` says which
//! tokens they read, and as which tree, without reading them.
//!
//! The parser calls itself once for every opening parenthesis and every
//! right operand that it is reading, so the call stack that it needs grows
//! with the nesting of the tokens, and nothing here bounds it. A stack of
//! its own would; the parser would then no longer read as the grammar does.

use crate::ast::{AstNode, Expr};
use crate::grammar::{is_reading, theorem_parse_is_reading};
use crate::lexer::{token_views, Token};
use crate::operator::{Associativity, Operator};
use vstd::prelude::*;
use vstd::std_specs::iter::IteratorSpec;

verus! {

/// Why a sequence of tokens is not an expression.
#[derive(Clone, Copy, Debug, PartialEq, Eq, Structural)]
pub enum ParseError {
    /// An operator, or the end of the tokens, stands where an operand has to.
    OperandExpected,
    /// An opening parenthesis and the expression after it are not followed
    /// by a closing one.
    UnmatchedBrackets,
    /// After an operand stands a token that is neither an operator nor a
    /// closing parenthesis.
    InvalidOperator,
}

/// An expression read from some position on, with the position after its
/// last token.
pub type Step = Result<(Expr, int), ParseError>;

/// The result that is the tree `tree`, with `next` the position after it.
pub open spec fn found(tree: Expr, next: int) -> Step {
    Ok((tree, next))
}

/// The result that is the failure `error`.
pub open spec fn failed(error: ParseError) -> Step {
    Err(error)
}

/// The token `(`.
pub open spec fn is_open(token: Token) -> bool {
    token == seq!['(']
}

/// The token `)`.
pub open spec fn is_close(token: Token) -> bool {
    token == seq![')']
}

/// The atom that starts at `pos`: an operand, or an expression in
/// parentheses, which gives the tree of that expression.
pub open spec fn atom_at(tokens: Seq<Token>, pos: int) -> Step
    decreases tokens.len() - pos, 0nat,
{
    if !(0 <= pos < tokens.len()) {
        Err(ParseError::OperandExpected)
    } else if Operator::from_mark(tokens[pos]) is Some {
        Err(ParseError::OperandExpected)
    } else if is_open(tokens[pos]) {
        match expression_at(tokens, pos + 1, 0) {
            Err(e) => Err(e),
            Ok((inner, next)) => if next < tokens.len() && is_close(tokens[next]) {
                Ok((inner, next + 1))
            } else {
                Err(ParseError::UnmatchedBrackets)
            },
        }
    } else {
        Ok((Expr::Leaf(tokens[pos]), pos + 1))
    }
}

/// The expression that starts at `pos` and takes in no operator of a rank
/// below `min_precedence`: an atom, and what `climb` makes of it.
///
/// The test on `next` serves the termination measure alone: by
/// `lemma_atom_advances` it holds of every atom, and
/// `lemma_expression_advances` states the function without it.
pub open spec fn expression_at(tokens: Seq<Token>, pos: int, min_precedence: nat) -> Step
    decreases tokens.len() - pos, 1nat,
{
    match atom_at(tokens, pos) {
        Err(e) => Err(e),
        Ok((left, next)) => if pos < next <= tokens.len() {
            climb(tokens, next, left, min_precedence)
        } else {
            Err(ParseError::OperandExpected)
        },
    }
}

/// The expression that `left` grows into, where `pos` is the position after
/// `left`. The end of the tokens, a closing parenthesis and an operator of
/// a rank below `min_precedence` end it. Any other operator takes `left` as
/// its left operand, and as its right operand the expression after it that
/// takes in the operators of at least the operator's `right_rank`: the
/// result grows on from there. Any other token is refused.
///
/// The test on `next` serves the termination measure alone: by
/// `lemma_expression_advances` it holds of every right operand, and
/// `lemma_climb_advances` states the function without it.
pub open spec fn climb(tokens: Seq<Token>, pos: int, left: Expr, min_precedence: nat) -> Step
    decreases tokens.len() - pos, 0nat,
{
    if !(0 <= pos < tokens.len()) || is_close(tokens[pos]) {
        Ok((left, pos))
    } else {
        match Operator::from_mark(tokens[pos]) {
            None => Err(ParseError::InvalidOperator),
            Some(op) => if op.precedence() < min_precedence {
                Ok((left, pos))
            } else {
                match expression_at(tokens, pos + 1, op.right_rank()) {
                    Err(e) => Err(e),
                    Ok((right, next)) => if pos < next <= tokens.len() {
                        climb(
                            tokens,
                            next,
                            Expr::Node(op, Box::new(left), Box::new(right)),
                            min_precedence,
                        )
                    } else {
                        Err(ParseError::OperandExpected)
                    },
                }
            },
        }
    }
}

/// The tree of the expression that `tokens` starts with, or the reason why
/// it starts with none. Where the expression ends before a closing
/// parenthesis, that token and those after it are not looked at.
pub open spec fn parse(tokens: Seq<Token>) -> Result<Expr, ParseError> {
    match expression_at(tokens, 0, 0) {
        Ok((tree, _)) => Ok(tree),
        Err(e) => Err(e),
    }
}

/// What a result of the parser says of the tree.
pub open spec fn outcome(result: Result<AstNode, ParseError>) -> Result<Expr, ParseError> {
    match result {
        Ok(node) => Ok(node@),
        Err(e) => Err(e),
    }
}

/// An atom holds at least one token, and none beyond the last.
pub proof fn lemma_atom_advances(tokens: Seq<Token>, pos: int)
    ensures
        atom_at(tokens, pos) matches Ok((_, next)) ==> pos < next <= tokens.len(),
    decreases tokens.len() - pos, 0nat,
{
    if 0 <= pos < tokens.len() && is_open(tokens[pos]) {
        lemma_expression_advances(tokens, pos + 1, 0);
    }
}

/// An expression holds at least one token, and none beyond the last. It
/// is what its atom grows into.
pub proof fn lemma_expression_advances(tokens: Seq<Token>, pos: int, min_precedence: nat)
    ensures
        expression_at(tokens, pos, min_precedence) matches Ok((_, next)) ==> pos < next
            <= tokens.len(),
        expression_at(tokens, pos, min_precedence) == match atom_at(tokens, pos) {
            Ok((left, next)) => climb(tokens, next, left, min_precedence),
            Err(e) => Err(e),
        },
    decreases tokens.len() - pos, 1nat,
{
    lemma_atom_advances(tokens, pos);
    if let Ok((left, next)) = atom_at(tokens, pos) {
        lemma_climb_advances(tokens, next, left, min_precedence);
    }
}

/// An expression never shrinks as it grows, and holds no token beyond the
/// last. Where an operator takes it as its left operand, it grows on from
/// the end of the right operand.
pub proof fn lemma_climb_advances(tokens: Seq<Token>, pos: int, left: Expr, min_precedence: nat)
    requires
        0 <= pos <= tokens.len(),
    ensures
        climb(tokens, pos, left, min_precedence) matches Ok((_, next)) ==> pos <= next
            <= tokens.len(),
        pos < tokens.len() && !is_close(tokens[pos]) ==> (Operator::from_mark(
            tokens[pos],
        ) matches Some(op) ==> op.precedence() >= min_precedence ==> climb(
            tokens,
            pos,
            left,
            min_precedence,
        ) == match expression_at(tokens, pos + 1, op.right_rank()) {
            Ok((right, next)) => climb(
                tokens,
                next,
                Expr::Node(op, Box::new(left), Box::new(right)),
                min_precedence,
            ),
            Err(e) => Err(e),
        }),
    decreases tokens.len() - pos, 0nat,
{
    if pos < tokens.len() && !is_close(tokens[pos]) {
        if let Some(op) = Operator::from_mark(tokens[pos]) {
            if op.precedence() >= min_precedence {
                lemma_expression_advances(tokens, pos + 1, op.right_rank());
                if let Ok((right, next)) = expression_at(tokens, pos + 1, op.right_rank()) {
                    lemma_climb_advances(
                        tokens,
                        next,
                        Expr::Node(op, Box::new(left), Box::new(right)),
                        min_precedence,
                    );
                }
            }
        }
    }
}

/// A forward-only reader of tokens: it shows the next token and steps over
/// it.
struct TokenCursor {
    tokens: Vec<String>,
    pos: usize,
}

impl TokenCursor {
    /// The position is among the tokens or just after them.
    spec fn wf(&self) -> bool {
        self.pos <= self.tokens.len()
    }

    /// All the tokens, read or not.
    spec fn all(&self) -> Seq<Token> {
        token_views(self.tokens@)
    }

    /// A cursor before the first of `tokens`.
    fn new(tokens: Vec<String>) -> (cursor: TokenCursor)
        ensures
            cursor.wf(),
            cursor.tokens == tokens,
            cursor.pos == 0,
    {
        TokenCursor { tokens, pos: 0 }
    }

    /// The next token, which stays where it is.
    fn peek(&self) -> (token: Option<&str>)
        requires
            self.wf(),
        ensures
            match token {
                Some(t) => self.pos < self.tokens.len() && t@ == self.all()[self.pos as int],
                None => self.pos == self.tokens.len(),
            },
    {
        if self.pos < self.tokens.len() {
            Some(self.tokens[self.pos].as_str())
        } else {
            None
        }
    }

    /// Steps over the next token and hands it out.
    fn next(&mut self) -> (token: Option<String>)
        requires
            old(self).wf(),
        ensures
            final(self).wf(),
            final(self).tokens == old(self).tokens,
            match token {
                Some(t) => old(self).pos < old(self).tokens.len() && final(self).pos == old(
                    self,
                ).pos + 1 && t@ == old(self).all()[old(self).pos as int],
                None => old(self).pos == old(self).tokens.len() && final(self).pos == old(self).pos,
            },
    {
        if self.pos < self.tokens.len() {
            let token = self.tokens[self.pos].clone();
            self.pos += 1;
            Some(token)
        } else {
            None
        }
    }
}

/// Whether `token` is the single character `c`.
fn is_char(token: &str, c: char) -> (same: bool)
    ensures
        same == (token@ == seq![c]),
{
    if token.unicode_len() == 1 {
        let same = token.get_char(0) == c;
        assert(same == (token@ =~= seq![c]));
        same
    } else {
        false
    }
}

/// Takes all the tokens that `token_iter` hands out.
fn collect_tokens<T: Iterator<Item = String>>(token_iter: T) -> (tokens: Vec<String>)
    requires
        token_iter.obeys_prophetic_iter_laws(),
        token_iter.decrease() is Some,
    ensures
        tokens@ == token_iter.remaining(),
{
    let mut tokens: Vec<String> = Vec::new();
    let mut source = token_iter;
    loop
        invariant_except_break
            source.obeys_prophetic_iter_laws(),
            source.decrease() is Some,
            tokens@ + source.remaining() == token_iter.remaining(),
        ensures
            tokens@ == token_iter.remaining(),
        decreases source.decrease()->0,
    {
        match source.next() {
            Some(token) => {
                tokens.push(token);
            },
            None => {
                break ;
            },
        }
    }
    tokens
}

impl AstNode {
    /// Reads the expression that the tokens of `token_iter` start with: see
    /// `parse_tokens`.
    ///
    /// The iterator has to be one that ends. All its tokens are taken
    /// before the first is looked at.
    pub fn parse_expression<T: Iterator<Item = String>>(token_iter: T) -> (result: Result<
        AstNode,
        ParseError,
    >)
        requires
            token_iter.obeys_prophetic_iter_laws(),
            token_iter.decrease() is Some,
        ensures
            outcome(result) == parse(token_views(token_iter.remaining())),
            forall|tree: Expr|
                outcome(result) == Ok::<_, ParseError>(tree) <==> #[trigger] is_reading(
                    token_views(token_iter.remaining()),
                    tree,
                ),
    {
        Self::parse_tokens(collect_tokens(token_iter))
    }

    /// Reads the expression that `tokens` starts with.
    ///
    /// The result is `parse` of these tokens: the tree of the expression,
    /// or the first reason why there is none. It is a tree exactly if the
    /// tokens are a reading of that tree by the grammar, `is_reading`.
    pub fn parse_tokens(tokens: Vec<String>) -> (result: Result<AstNode, ParseError>)
        ensures
            outcome(result) == parse(token_views(tokens@)),
            forall|tree: Expr|
                outcome(result) == Ok::<_, ParseError>(tree) <==> #[trigger] is_reading(
                    token_views(tokens@),
                    tree,
                ),
    {
        let ghost all = token_views(tokens@);
        let mut cursor = TokenCursor::new(tokens);
        let result = Self::do_parse_expression(&mut cursor, 0);
        proof {
            assert forall|tree: Expr|
                outcome(result) == Ok::<_, ParseError>(tree) <==> #[trigger] is_reading(
                    all,
                    tree,
                ) by {
                theorem_parse_is_reading(all, tree);
            }
        }
        result
    }

    /// Reads the expression at the cursor that takes in no operator of a
    /// rank below `min_precedence`.
    fn do_parse_expression(cursor: &mut TokenCursor, min_precedence: u32) -> (result: Result<
        AstNode,
        ParseError,
    >)
        requires
            old(cursor).wf(),
        ensures
            final(cursor).wf(),
            final(cursor).tokens == old(cursor).tokens,
            expression_at(old(cursor).all(), old(cursor).pos as int, min_precedence as nat)
                == match result {
                Ok(node) => found(node@, final(cursor).pos as int),
                Err(e) => failed(e),
            },
            result is Ok ==> old(cursor).pos < final(cursor).pos,
        decreases old(cursor).tokens.len() - old(cursor).pos, 1nat,
    {
        let ghost all = cursor.all();
        let ghost start = cursor.pos as int;
        let ghost min = min_precedence as nat;
        let mut node = Self::parse_atom(cursor)?;
        let ghost goal = expression_at(all, start, min);
        loop
            invariant
                cursor.wf(),
                cursor.all() == all,
                cursor.tokens == old(cursor).tokens,
                all == old(cursor).all(),
                start == old(cursor).pos < cursor.pos,
                min == min_precedence,
                goal == expression_at(all, start, min),
                goal == climb(all, cursor.pos as int, node@, min),
            decreases cursor.tokens.len() - cursor.pos,
        {
            let op = match cursor.peek() {
                None => {
                    return Ok(node);
                },
                Some(token) => {
                    if is_char(token, ')') {
                        return Ok(node);
                    }
                    match Operator::new(token) {
                        None => {
                            return Err(ParseError::InvalidOperator);
                        },
                        Some(op) => op,
                    }
                },
            };
            if op.precedence() < min_precedence {
                return Ok(node);
            }
            cursor.next();
            let next_min = match op.associativity() {
                Associativity::Left => op.precedence() + 1,
                Associativity::Right => op.precedence(),
            };
            let right_node = Self::do_parse_expression(cursor, next_min)?;
            node = Self::new_root(op, node, right_node);
        }
    }

    /// Reads the atom at the cursor: an operand, or an expression in
    /// parentheses.
    fn parse_atom(cursor: &mut TokenCursor) -> (result: Result<AstNode, ParseError>)
        requires
            old(cursor).wf(),
        ensures
            final(cursor).wf(),
            final(cursor).tokens == old(cursor).tokens,
            atom_at(old(cursor).all(), old(cursor).pos as int) == match result {
                Ok(node) => found(node@, final(cursor).pos as int),
                Err(e) => failed(e),
            },
            result is Ok ==> old(cursor).pos < final(cursor).pos,
        decreases old(cursor).tokens.len() - old(cursor).pos, 0nat,
    {
        let open = match cursor.peek() {
            None => {
                return Err(ParseError::OperandExpected);
            },
            Some(token) => {
                if Operator::is_operation(token) {
                    return Err(ParseError::OperandExpected);
                }
                is_char(token, '(')
            },
        };
        if open {
            cursor.next();
            let node = Self::do_parse_expression(cursor, 0)?;
            let closed = match cursor.peek() {
                Some(token) => is_char(token, ')'),
                None => false,
            };
            if !closed {
                return Err(ParseError::UnmatchedBrackets);
            }
            cursor.next();
            Ok(node)
        } else {
            match cursor.next() {
                Some(token) => Ok(AstNode::Leaf(token)),
                None => Err(ParseError::OperandExpected),
            }
        }
    }
}

} // verus!
