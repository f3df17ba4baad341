//! The text of a tree, read again, gives the tree back.

use crate::ast::Expr;
use crate::lexer::{tokens, Token, SEPARATOR_LIST};
use crate::operator::Operator;
use crate::parser::{
    atom_at, climb, expression_at, found, is_close, is_open, parse, ParseError,
};
use crate::splitting::{
    is_plain, is_token, lemma_split_at_separator, lemma_split_prepend_blank,
    lemma_split_push_blank, lemma_tokens_are_tokens, lemma_tokens_of_plain,
};
use vstd::prelude::*;

verus! {

impl Expr {
    /// Every leaf is a token that the parser takes for a leaf: plain text,
    /// or a closing parenthesis.
    pub open spec fn canonical(self) -> bool
        decreases self,
    {
        match self {
            Expr::Leaf(text) => is_plain(text) || is_close(text),
            Expr::Node(_, left, right) => left.canonical() && right.canonical(),
        }
    }

    /// The tokens of the tree written with all its parentheses.
    pub open spec fn written(self) -> Seq<Token>
        decreases self,
    {
        match self {
            Expr::Leaf(text) => seq![text],
            Expr::Node(op, left, right) => seq![seq!['(']] + left.written() + seq![
                seq![op.mark_char()],
            ] + right.written() + seq![seq![')']],
        }
    }
}

/// The tokens of a tree's text are the tokens it is written with.
pub proof fn lemma_tokens_of_render(tree: Expr)
    requires
        tree.canonical(),
    ensures
        tokens(tree.render()) == tree.written(),
    decreases tree,
{
    let seps = SEPARATOR_LIST@;
    let none = Seq::<char>::empty();
    match tree {
        Expr::Leaf(text) => {
            if is_plain(text) {
                lemma_tokens_of_plain(text);
            } else {
                assert(seps[6] == ')');
                lemma_split_at_separator(none, ')', none, seps);
                assert(none + seq![')'] + none =~= text);
            }
        },
        Expr::Node(op, left, right) => {
            let mark = op.mark_char();
            let l = left.render();
            let r = right.render();
            lemma_tokens_of_render(*left);
            lemma_tokens_of_render(*right);
            // After the opening parenthesis.
            let inner = l.push(' ') + seq![mark] + (seq![' '] + r + seq![')']);
            lemma_split_at_separator(none, '(', inner, seps);
            assert(none + seq!['('] + inner =~= tree.render());
            // On either side of the operator.
            lemma_split_at_separator(l.push(' '), mark, seq![' '] + r + seq![')'], seps);
            lemma_split_push_blank(l, ' ', seps);
            // Before the closing parenthesis.
            lemma_split_at_separator(seq![' '] + r, ')', none, seps);
            assert(seq![' '] + r + seq![')'] + none =~= seq![' '] + r + seq![')']);
            lemma_split_prepend_blank(r, ' ', seps);
        },
    }
}

/// Where the tokens of a tree stand in a sequence of tokens, an atom is
/// read that is this tree and ends with them.
pub proof fn lemma_atom_of_written(all: Seq<Token>, pos: int, tree: Expr)
    requires
        tree.canonical(),
        0 <= pos,
        pos + tree.written().len() <= all.len(),
        all.subrange(pos, pos + tree.written().len()) == tree.written(),
    ensures
        atom_at(all, pos) == found(tree, pos + tree.written().len()),
    decreases tree,
{
    let w = tree.written();
    assert forall|i: int| 0 <= i < w.len() implies all[pos + i] == #[trigger] w[i] by {}
    match tree {
        Expr::Leaf(text) => {
            assert(all[pos] == w[0]);
        },
        Expr::Node(op, left, right) => {
            let wl = left.written();
            let wr = right.written();
            let at_left = pos + 1;
            let at_mark = at_left + wl.len();
            let at_right = at_mark + 1;
            let at_close = at_right + wr.len();
            assert(all[pos] == w[0]);
            assert(all[at_mark] == w[at_mark - pos]);
            assert(all[at_close] == w[at_close - pos]);
            assert(all.subrange(at_left, at_left + wl.len()) =~= wl) by {
                assert forall|i: int| 0 <= i < wl.len() implies all[at_left + i] == wl[i] by {
                    assert(all[pos + (1 + i)] == w[1 + i]);
                }
            }
            assert(all.subrange(at_right, at_right + wr.len()) =~= wr) by {
                assert forall|i: int| 0 <= i < wr.len() implies all[at_right + i] == wr[i] by {
                    assert(all[pos + (at_right - pos + i)] == w[at_right - pos + i]);
                }
            }
            lemma_atom_of_written(all, at_left, *left);
            lemma_atom_of_written(all, at_right, *right);
            // The right operand is read up to the closing parenthesis, and so
            // is the whole, which the parenthesis then ends as an atom.
            assert(all[pos] == seq!['(']);
            assert(all[at_close] == seq![')']);
            assert(Operator::from_mark(all[at_mark]) == Some(op));
            assert(climb(all, at_close, *right, op.right_rank()) == found(*right, at_close));
            assert(expression_at(all, at_right, op.right_rank()) == found(*right, at_close));
            assert(climb(all, at_close, tree, 0) == found(tree, at_close));
            assert(climb(all, at_mark, *left, 0) == found(tree, at_close));
            assert(expression_at(all, at_left, 0) == found(tree, at_close));
        },
    }
}

/// Reading the text of a tree gives the tree back, provided that each of
/// its leaves holds what a leaf is read from: plain text or a closing
/// parenthesis.
pub proof fn theorem_render_round_trip(tree: Expr)
    requires
        tree.canonical(),
    ensures
        parse(tokens(tree.render())) == Ok::<_, ParseError>(tree),
{
    let w = tree.written();
    lemma_tokens_of_render(tree);
    assert(w.subrange(0, w.len() as int) =~= w);
    lemma_atom_of_written(w, 0, tree);
}

/// Of tokens that are plain text or one separator, a leaf holds plain text
/// or a closing parenthesis.
pub proof fn lemma_atom_canonical(all: Seq<Token>, pos: int)
    requires
        forall|i: int| 0 <= i < all.len() ==> is_token(#[trigger] all[i]),
    ensures
        atom_at(all, pos) matches Ok((tree, _)) ==> tree.canonical(),
    decreases all.len() - pos, 0nat,
{
    if 0 <= pos < all.len() {
        if is_open(all[pos]) {
            lemma_expression_canonical(all, pos + 1, 0);
        } else if Operator::from_mark(all[pos]) is None {
            if !is_plain(all[pos]) {
                assert(all[pos] =~= seq![all[pos][0]]);
            }
        }
    }
}

/// As `lemma_atom_canonical`, of an expression.
pub proof fn lemma_expression_canonical(
    all: Seq<Token>,
    pos: int,
    min_precedence: nat,
)
    requires
        forall|i: int| 0 <= i < all.len() ==> is_token(#[trigger] all[i]),
    ensures
        expression_at(all, pos, min_precedence) matches Ok((tree, _)) ==> tree.canonical(),
    decreases all.len() - pos, 1nat,
{
    lemma_atom_canonical(all, pos);
    if let Ok((left, next)) = atom_at(all, pos) {
        if pos < next <= all.len() {
            lemma_climb_canonical(all, next, left, min_precedence);
        }
    }
}

/// As `lemma_atom_canonical`, of an expression that grows from one
/// of that kind.
pub proof fn lemma_climb_canonical(all: Seq<Token>, pos: int, left: Expr, min_precedence: nat)
    requires
        forall|i: int| 0 <= i < all.len() ==> is_token(#[trigger] all[i]),
        left.canonical(),
    ensures
        climb(all, pos, left, min_precedence) matches Ok((tree, _)) ==> tree.canonical(),
    decreases all.len() - pos, 0nat,
{
    if 0 <= pos < all.len() && !is_close(all[pos]) {
        if let Some(op) = Operator::from_mark(all[pos]) {
            if op.precedence() >= min_precedence {
                lemma_expression_canonical(all, pos + 1, op.right_rank());
                if let Ok((right, next)) = expression_at(all, pos + 1, op.right_rank()) {
                    if pos < next <= all.len() {
                        lemma_climb_canonical(
                            all,
                            next,
                            Expr::Node(op, Box::new(left), Box::new(right)),
                            min_precedence,
                        );
                    }
                }
            }
        }
    }
}

/// The tree that is read from a source is read again from its own text,
/// so that this text is the same at every further turn.
pub proof fn theorem_read_write_read(source: Seq<char>)
    ensures
        parse(tokens(source)) matches Ok(tree) ==> parse(tokens(tree.render())) == Ok::<
            _,
            ParseError,
        >(tree),
{
    if let Ok(tree) = parse(tokens(source)) {
        lemma_tokens_are_tokens(source);
        lemma_expression_canonical(tokens(source), 0, 0);
        theorem_render_round_trip(tree);
    }
}

/// Writing a tree, reading the text and writing what was read gives the
/// first text again exactly if that text is also the text of a tree whose
/// leaves hold plain text or a closing parenthesis. Then this tree is the
/// one that is read.
pub proof fn theorem_render_fixed_point(tree: Expr)
    ensures
        (parse(tokens(tree.render())) matches Ok(again) && again.render() == tree.render()) <==> (
        exists|model: Expr| model.canonical() && model.render() == tree.render()),
        forall|model: Expr|
            model.canonical() && model.render() == tree.render() ==> parse(tokens(tree.render()))
                == Ok::<_, ParseError>(model),
{
    assert forall|model: Expr|
        model.canonical() && model.render() == tree.render() implies parse(tokens(tree.render()))
        == Ok::<_, ParseError>(model) by {
        theorem_render_round_trip(model);
    }
    if let Ok(again) = parse(tokens(tree.render())) {
        if again.render() == tree.render() {
            lemma_tokens_are_tokens(tree.render());
            lemma_expression_canonical(tokens(tree.render()), 0, 0);
        }
    }
}

} // verus!
