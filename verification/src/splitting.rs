//! Laws of the tokenizer: what separators and whitespace do to the tokens,
//! and what a token looks like.

use crate::lexer::{
    first_separator, is_whitespace, lemma_first_separator, lemma_first_separator_at, operand, split,
    tokens, trim, Token, SEPARATOR_LIST,
};
use vstd::prelude::*;

verus! {

/// Text that is one operand token as it stands: not empty, with no
/// separator in it and no whitespace at either end.
pub open spec fn is_plain(text: Seq<char>) -> bool {
    &&& text.len() > 0
    &&& !is_whitespace(text.first())
    &&& !is_whitespace(text.last())
    &&& forall|i: int| 0 <= i < text.len() ==> !SEPARATOR_LIST@.contains(#[trigger] text[i])
}

/// A token as the tokenizer gives it: plain text, or one separator.
pub open spec fn is_token(token: Token) -> bool {
    is_plain(token) || (token.len() == 1 && SEPARATOR_LIST@.contains(token[0]))
}

/// Whitespace at the end of a run does not count.
pub proof fn lemma_trim_push(run: Seq<char>, blank: char)
    requires
        is_whitespace(blank),
    ensures
        trim(run.push(blank)) == trim(run),
    decreases run.len(),
{
    let padded = run.push(blank);
    if run.len() == 0 {
        assert(padded.drop_first() =~= run);
    } else if is_whitespace(run.first()) {
        assert(padded.drop_first() =~= run.drop_first().push(blank));
        lemma_trim_push(run.drop_first(), blank);
    } else {
        assert(padded.drop_last() =~= run);
    }
}

/// Whitespace at the start of a run does not count.
pub proof fn lemma_trim_prepend(run: Seq<char>, blank: char)
    requires
        is_whitespace(blank),
    ensures
        trim(seq![blank] + run) == trim(run),
{
    assert((seq![blank] + run).drop_first() =~= run);
}

/// What is left of a run after trimming stood in the run, in one piece, and
/// neither starts nor ends with whitespace.
pub proof fn lemma_trim_bounds(run: Seq<char>) -> (bounds: (int, int))
    ensures
        0 <= bounds.0 <= bounds.1 <= run.len(),
        trim(run) == run.subrange(bounds.0, bounds.1),
        bounds.0 < bounds.1 ==> !is_whitespace(run[bounds.0]) && !is_whitespace(run[bounds.1 - 1]),
    decreases run.len(),
{
    if run.len() == 0 {
        (0, 0)
    } else if is_whitespace(run.first()) {
        let inner = lemma_trim_bounds(run.drop_first());
        (inner.0 + 1, inner.1 + 1)
    } else if is_whitespace(run.last()) {
        let inner = lemma_trim_bounds(run.drop_last());
        inner
    } else {
        (0, run.len() as int)
    }
}

/// A separator parts the tokens before it from those after it.
pub proof fn lemma_split_at_separator(a: Seq<char>, c: char, b: Seq<char>, seps: Seq<char>)
    requires
        seps.contains(c),
    ensures
        split(a + seq![c] + b, seps) == split(a, seps) + seq![seq![c]] + split(b, seps),
    decreases a.len(),
{
    let s = a + seq![c] + b;
    let k = first_separator(a, seps);
    lemma_first_separator(a, seps);
    assert forall|j: int| 0 <= j < k implies !seps.contains(#[trigger] s[j]) by {}
    lemma_first_separator_at(s, seps, k);
    assert(s.subrange(0, k) =~= a.subrange(0, k));
    if k < a.len() {
        let rest = a.subrange(k + 1, a.len() as int);
        lemma_split_at_separator(rest, c, b, seps);
        assert(s.subrange(k + 1, s.len() as int) =~= rest + seq![c] + b);
    } else {
        assert(a.subrange(0, k) =~= a);
        assert(s.subrange(k + 1, s.len() as int) =~= b);
    }
}

/// Whitespace at the end of a source gives no token.
pub proof fn lemma_split_push_blank(s: Seq<char>, blank: char, seps: Seq<char>)
    requires
        is_whitespace(blank),
        !seps.contains(blank),
    ensures
        split(s.push(blank), seps) == split(s, seps),
    decreases s.len(),
{
    let padded = s.push(blank);
    let k = first_separator(s, seps);
    lemma_first_separator(s, seps);
    if k < s.len() {
        assert forall|j: int| 0 <= j < k implies !seps.contains(#[trigger] padded[j]) by {}
        lemma_first_separator_at(padded, seps, k);
        let rest = s.subrange(k + 1, s.len() as int);
        lemma_split_push_blank(rest, blank, seps);
        assert(padded.subrange(k + 1, padded.len() as int) =~= rest.push(blank));
        assert(padded.subrange(0, k) =~= s.subrange(0, k));
    } else {
        assert forall|j: int| 0 <= j < padded.len() implies !seps.contains(
            #[trigger] padded[j],
        ) by {}
        lemma_first_separator_at(padded, seps, padded.len() as int);
        lemma_trim_push(s, blank);
    }
}

/// Whitespace at the start of a source gives no token.
pub proof fn lemma_split_prepend_blank(s: Seq<char>, blank: char, seps: Seq<char>)
    requires
        is_whitespace(blank),
        !seps.contains(blank),
    ensures
        split(seq![blank] + s, seps) == split(s, seps),
{
    let padded = seq![blank] + s;
    let k = first_separator(s, seps);
    lemma_first_separator(s, seps);
    assert(padded.drop_first() =~= s);
    if k < s.len() {
        assert(padded.subrange(0, k + 1) =~= seq![blank] + s.subrange(0, k));
        lemma_trim_prepend(s.subrange(0, k), blank);
        assert(padded.subrange(k + 2, padded.len() as int) =~= s.subrange(k + 1, s.len() as int));
    }
}

/// Plain text is one token.
pub proof fn lemma_tokens_of_plain(text: Seq<char>)
    requires
        is_plain(text),
    ensures
        tokens(text) == seq![text],
{
    lemma_first_separator_at(text, SEPARATOR_LIST@, text.len() as int);
}

/// Every token of a source is plain text or one separator.
pub proof fn lemma_tokens_are_tokens(s: Seq<char>)
    ensures
        forall|i: int| 0 <= i < tokens(s).len() ==> is_token(#[trigger] tokens(s)[i]),
    decreases s.len(),
{
    let seps = SEPARATOR_LIST@;
    let k = first_separator(s, seps);
    lemma_first_separator(s, seps);
    let run = if k < s.len() {
        s.subrange(0, k)
    } else {
        s
    };
    let bounds = lemma_trim_bounds(run);
    assert forall|i: int| 0 <= i < trim(run).len() implies !seps.contains(
        #[trigger] trim(run)[i],
    ) by {
        assert(trim(run)[i] == s[bounds.0 + i]);
    }
    if k < s.len() {
        let rest = s.subrange(k + 1, s.len() as int);
        lemma_tokens_are_tokens(rest);
        let head = operand(run) + seq![seq![s[k]]];
        assert forall|i: int| 0 <= i < tokens(s).len() implies is_token(#[trigger] tokens(s)[i]) by {
            if i >= head.len() {
                assert(tokens(s)[i] == tokens(rest)[i - head.len()]);
            }
        }
    }
}

} // verus!
