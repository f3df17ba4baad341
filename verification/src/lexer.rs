//! Splitting a source string into operand, operator and parenthesis tokens.
//!
//! A token is modelled by its characters, a `Seq<char>`, and the tokens of a
//! source by a `Seq<Token>`, in source order.

use crate::splitting::{is_token, lemma_tokens_are_tokens};
use vstd::prelude::*;
use vstd::seq_lib::lemma_flatten_concat;

verus! {

/// A token, by its characters.
pub type Token = Seq<char>;

/// The characters that always form a token of their own.
pub const SEPARATOR_LIST: [char; 7] = ['+', '-', '*', '/', '^', '(', ')'];

/// The code points with the Unicode property `White_Space`.
pub open spec fn is_whitespace(c: char) -> bool {
    ||| '\u{9}' <= c <= '\u{d}'
    ||| c == ' '
    ||| c == '\u{85}'
    ||| c == '\u{a0}'
    ||| c == '\u{1680}'
    ||| '\u{2000}' <= c <= '\u{200a}'
    ||| c == '\u{2028}'
    ||| c == '\u{2029}'
    ||| c == '\u{202f}'
    ||| c == '\u{205f}'
    ||| c == '\u{3000}'
}

/// `s` without its leading and trailing whitespace.
pub open spec fn trim(s: Seq<char>) -> Seq<char>
    decreases s.len(),
{
    if s.len() == 0 {
        s
    } else if is_whitespace(s.first()) {
        trim(s.drop_first())
    } else if is_whitespace(s.last()) {
        trim(s.drop_last())
    } else {
        s
    }
}

/// The index of the first character of `s` that is in `seps`, or the length
/// of `s` if it has none.
pub open spec fn first_separator(s: Seq<char>, seps: Seq<char>) -> int
    decreases s.len(),
{
    if s.len() == 0 || seps.contains(s.first()) {
        0
    } else {
        1 + first_separator(s.drop_first(), seps)
    }
}

/// The tokens of a run of characters that holds no separator: the run
/// trimmed, or nothing where only whitespace is left of it.
pub open spec fn operand(run: Seq<char>) -> Seq<Token> {
    if trim(run).len() == 0 {
        seq![]
    } else {
        seq![trim(run)]
    }
}

/// The tokens of `s` for the separators `seps`: every separator is a token
/// of one character, and every stretch between two of them, or between one
/// and an end of `s`, gives its trimmed text as a token unless that is empty.
pub open spec fn split(s: Seq<char>, seps: Seq<char>) -> Seq<Token>
    decreases s.len(),
{
    let k = first_separator(s, seps);
    if 0 <= k < s.len() {
        operand(s.subrange(0, k)) + seq![seq![s[k]]] + split(s.subrange(k + 1, s.len() as int), seps)
    } else {
        operand(s)
    }
}

/// The tokens of an arithmetic expression.
pub open spec fn tokens(s: Seq<char>) -> Seq<Token> {
    split(s, SEPARATOR_LIST@)
}

/// The characters of each string of `v`.
pub open spec fn token_views(v: Seq<String>) -> Seq<Token> {
    v.map_values(|t: String| t@)
}

/// `s` without its whitespace.
pub open spec fn skeleton(s: Seq<char>) -> Seq<char> {
    s.filter(|c: char| !is_whitespace(c))
}

/// Whether `c` is whitespace.
pub fn is_whitespace_char(c: char) -> (r: bool)
    ensures
        r == is_whitespace(c),
{
    ('\u{9}' <= c && c <= '\u{d}') || c == ' ' || c == '\u{85}' || c == '\u{a0}' || c == '\u{1680}'
        || ('\u{2000}' <= c && c <= '\u{200a}') || c == '\u{2028}' || c == '\u{2029}' || c
        == '\u{202f}' || c == '\u{205f}' || c == '\u{3000}'
}

/// Whether `c` is one of `separator_list`.
pub fn is_separator(c: char, separator_list: &[char]) -> (r: bool)
    ensures
        r == separator_list@.contains(c),
{
    let mut i: usize = 0;
    while i < separator_list.len()
        invariant
            i <= separator_list.len(),
            forall|j: int| 0 <= j < i ==> separator_list@[j] != c,
        decreases separator_list.len() - i,
    {
        if separator_list[i] == c {
            return true;
        }
        i += 1;
    }
    false
}

/// `first_separator` is where the first separator stands.
pub proof fn lemma_first_separator(s: Seq<char>, seps: Seq<char>)
    ensures
        0 <= first_separator(s, seps) <= s.len(),
        forall|j: int| 0 <= j < first_separator(s, seps) ==> !seps.contains(#[trigger] s[j]),
        first_separator(s, seps) < s.len() ==> seps.contains(s[first_separator(s, seps)]),
    decreases s.len(),
{
    if s.len() != 0 && !seps.contains(s.first()) {
        let t = s.drop_first();
        lemma_first_separator(t, seps);
        assert forall|j: int| 0 <= j < first_separator(s, seps) implies !seps.contains(
            #[trigger] s[j],
        ) by {
            if j > 0 {
                assert(s[j] == t[j - 1]);
            }
        }
    }
}

/// A position before which `s` has no separator, and which is the end of `s`
/// or holds one, is `first_separator`.
pub proof fn lemma_first_separator_at(s: Seq<char>, seps: Seq<char>, k: int)
    requires
        0 <= k <= s.len(),
        forall|j: int| 0 <= j < k ==> !seps.contains(#[trigger] s[j]),
        k < s.len() ==> seps.contains(s[k]),
    ensures
        first_separator(s, seps) == k,
{
    lemma_first_separator(s, seps);
}

/// A run of whitespace trims to nothing.
pub proof fn lemma_trim_blank(run: Seq<char>)
    requires
        forall|j: int| 0 <= j < run.len() ==> is_whitespace(#[trigger] run[j]),
    ensures
        trim(run).len() == 0,
    decreases run.len(),
{
    if run.len() != 0 {
        let t = run.drop_first();
        assert forall|j: int| 0 <= j < t.len() implies is_whitespace(#[trigger] t[j]) by {
            assert(t[j] == run[j + 1]);
        }
        lemma_trim_blank(t);
    }
}

/// A run that is whitespace before `a` and from `b` on, and has other
/// characters at `a` and at `b - 1`, trims to what stands from `a` to `b`.
pub proof fn lemma_trim_core(run: Seq<char>, a: int, b: int)
    requires
        0 <= a < b <= run.len(),
        forall|j: int| 0 <= j < a ==> is_whitespace(#[trigger] run[j]),
        forall|j: int| b <= j < run.len() ==> is_whitespace(#[trigger] run[j]),
        !is_whitespace(run[a]),
        !is_whitespace(run[b - 1]),
    ensures
        trim(run) == run.subrange(a, b),
    decreases run.len(),
{
    if a > 0 {
        let t = run.drop_first();
        assert forall|j: int| 0 <= j < a - 1 implies is_whitespace(#[trigger] t[j]) by {
            assert(t[j] == run[j + 1]);
        }
        assert forall|j: int| b - 1 <= j < t.len() implies is_whitespace(#[trigger] t[j]) by {
            assert(t[j] == run[j + 1]);
        }
        lemma_trim_core(t, a - 1, b - 1);
        assert(t.subrange(a - 1, b - 1) =~= run.subrange(a, b));
    } else if b < run.len() {
        let t = run.drop_last();
        assert forall|j: int| b <= j < t.len() implies is_whitespace(#[trigger] t[j]) by {
            assert(t[j] == run[j]);
        }
        lemma_trim_core(t, a, b);
        assert(t.subrange(a, b) =~= run.subrange(a, b));
    } else {
        assert(run.subrange(a, b) =~= run);
    }
}

/// The characters of `s` from `from` up to `to`, as a string of their own.
/// Where `s` is all ASCII, which `ascii` says, they are found without a
/// pass over `s`.
fn cut(s: &str, ascii: bool, from: usize, to: usize) -> (piece: String)
    requires
        ascii ==> s.is_ascii(),
        from <= to <= s@.len(),
    ensures
        piece@ == s@.subrange(from as int, to as int),
{
    if ascii {
        String::from_str(s.substring_ascii(from, to))
    } else {
        String::from_str(s.substring_char(from, to))
    }
}

/// Splits `s` at the characters of `separator_list`, which become tokens of
/// their own; what stands between them is trimmed and kept unless empty.
pub fn split_keep_separator(s: &str, separator_list: &[char]) -> (result: Vec<String>)
    ensures
        token_views(result@) == split(s@, separator_list@),
        forall|i: int| 0 <= i < result.len() ==> (#[trigger] result[i])@.len() > 0,
        skeleton(token_views(result@).flatten()) == skeleton(s@),
{
    let n = s.unicode_len();
    let ascii = s.is_ascii();
    let mut result: Vec<String> = Vec::new();
    // The run being read starts at `index`; `start..end` is its trimmed text
    // so far, empty as long as the run holds only whitespace.
    let ghost mut index: int = 0;
    let mut start: usize = 0;
    let mut end: usize = 0;
    let mut i: usize = 0;
    let ghost seps = separator_list@;
    assert(s@.subrange(0, n as int) =~= s@);
    assert(token_views(result@) + split(s@, seps) =~= split(s@, seps));
    for c in it: s.chars()
        invariant
            n == s@.len(),
            ascii ==> s.is_ascii(),
            seps == separator_list@,
            it.seq() == s@,
            i == it.index(),
            0 <= index <= start <= end <= i <= n,
            forall|j: int| index <= j < i ==> !seps.contains(#[trigger] s@[j]),
            forall|j: int| index <= j < start ==> is_whitespace(#[trigger] s@[j]),
            forall|j: int| end <= j < i ==> is_whitespace(#[trigger] s@[j]),
            start < end ==> !is_whitespace(s@[start as int]) && !is_whitespace(s@[end - 1]),
            token_views(result@) + split(s@.subrange(index, n as int), seps) == split(s@, seps),
    {
        assert(c == s@[i as int]);
        if is_separator(c, separator_list) {
            let ghost rest = s@.subrange(index, n as int);
            let ghost run = s@.subrange(index, i as int);
            let ghost before = token_views(result@);
            proof {
                lemma_first_separator_at(rest, seps, i - index);
                assert(rest.subrange(0, i - index) =~= run);
                assert(rest.subrange(i - index + 1, rest.len() as int) =~= s@.subrange(
                    i + 1,
                    n as int,
                ));
                assert(rest[i - index] == c);
                lemma_run_tokens(s@, index, start as int, end as int, i as int);
            }
            if start < end {
                result.push(cut(s, ascii, start, end));
            }
            assert(token_views(result@) =~= before + operand(run));
            let ghost with_run = token_views(result@);
            result.push(cut(s, ascii, i, i + 1));
            assert(s@.subrange(i as int, i + 1) =~= seq![c]);
            assert(token_views(result@) =~= with_run + seq![seq![c]]);
            start = i + 1;
            end = i + 1;
            proof {
                index = i + 1;
                assert(token_views(result@) + split(s@.subrange(index, n as int), seps)
                    =~= before + split(rest, seps));
            }
        } else if !is_whitespace_char(c) {
            if start == end {
                start = i;
            }
            end = i + 1;
        }
        i += 1;
    }
    let ghost rest = s@.subrange(index, n as int);
    let ghost before = token_views(result@);
    proof {
        lemma_first_separator_at(rest, seps, n - index);
        lemma_run_tokens(s@, index, start as int, end as int, n as int);
    }
    if start < end {
        result.push(cut(s, ascii, start, end));
    }
    assert(token_views(result@) =~= before + operand(rest));
    proof {
        lemma_split_nonempty(s@, seps);
        lemma_split_skeleton(s@, seps);
        assert forall|i: int| 0 <= i < result.len() implies (#[trigger] result[i])@.len() > 0 by {
            assert(split(s@, seps)[i] == result[i]@);
        }
    }
    result
}

/// The tokens of the run of `s` from `index` to `i`, known by the bounds
/// `start` and `end` of its trimmed text.
proof fn lemma_run_tokens(s: Seq<char>, index: int, start: int, end: int, i: int)
    requires
        0 <= index <= start <= end <= i <= s.len(),
        forall|j: int| index <= j < start ==> is_whitespace(#[trigger] s[j]),
        forall|j: int| end <= j < i ==> is_whitespace(#[trigger] s[j]),
        start < end ==> !is_whitespace(s[start]) && !is_whitespace(s[end - 1]),
    ensures
        operand(s.subrange(index, i)) == if start < end {
            seq![s.subrange(start, end)]
        } else {
            seq![]
        },
{
    let run = s.subrange(index, i);
    if start < end {
        lemma_trim_core(run, start - index, end - index);
        assert(run.subrange(start - index, end - index) =~= s.subrange(start, end));
    } else {
        lemma_trim_blank(run);
    }
}

/// Trimming takes away whitespace only.
pub proof fn lemma_trim_skeleton(run: Seq<char>)
    ensures
        skeleton(trim(run)) == skeleton(run),
    decreases run.len(),
{
    let keep = |c: char| !is_whitespace(c);
    if run.len() == 0 {
        // Nothing to trim.
    } else if is_whitespace(run.first()) {
        lemma_trim_skeleton(run.drop_first());
        run.drop_first().lemma_filter_prepend(run.first(), keep);
        assert(seq![run.first()] + run.drop_first() =~= run);
    } else if is_whitespace(run.last()) {
        lemma_trim_skeleton(run.drop_last());
        run.drop_last().lemma_filter_push(run.last(), keep);
        assert(run.drop_last().push(run.last()) =~= run);
    }
}

/// What a run gives as tokens has the run's skeleton.
pub proof fn lemma_operand_skeleton(run: Seq<char>)
    ensures
        skeleton(operand(run).flatten()) == skeleton(run),
{
    lemma_trim_skeleton(run);
    if trim(run).len() > 0 {
        operand(run).lemma_flatten_one_element();
    }
}

/// No token is empty.
pub proof fn lemma_split_nonempty(s: Seq<char>, seps: Seq<char>)
    ensures
        forall|i: int| 0 <= i < split(s, seps).len() ==> (#[trigger] split(s, seps)[i]).len() > 0,
    decreases s.len(),
{
    let k = first_separator(s, seps);
    if 0 <= k < s.len() {
        let head = operand(s.subrange(0, k)) + seq![seq![s[k]]];
        let tail = split(s.subrange(k + 1, s.len() as int), seps);
        lemma_split_nonempty(s.subrange(k + 1, s.len() as int), seps);
        assert forall|i: int| 0 <= i < split(s, seps).len() implies (#[trigger] split(
            s,
            seps,
        )[i]).len() > 0 by {
            if i >= head.len() {
                assert(split(s, seps)[i] == tail[i - head.len()]);
            }
        }
    }
}

/// The tokens one after another hold, whitespace aside, the characters of
/// the source in their order.
pub proof fn lemma_split_skeleton(s: Seq<char>, seps: Seq<char>)
    ensures
        skeleton(split(s, seps).flatten()) == skeleton(s),
    decreases s.len(),
{
    let keep = |c: char| !is_whitespace(c);
    let k = first_separator(s, seps);
    if 0 <= k < s.len() {
        let run = s.subrange(0, k);
        let mark = seq![s[k]];
        let rest = s.subrange(k + 1, s.len() as int);
        lemma_split_skeleton(rest, seps);
        lemma_operand_skeleton(run);
        lemma_flatten_concat(operand(run), seq![mark]);
        lemma_flatten_concat(operand(run) + seq![mark], split(rest, seps));
        seq![mark].lemma_flatten_one_element();
        Seq::filter_distributes_over_add(
            operand(run).flatten() + mark,
            split(rest, seps).flatten(),
            keep,
        );
        Seq::filter_distributes_over_add(run, mark, keep);
        Seq::filter_distributes_over_add(run + mark, rest, keep);
        assert(run + mark + rest =~= s);
    } else {
        lemma_operand_skeleton(s);
    }
}

/// Splits an arithmetic expression into its tokens: each of `+ - * / ^ ( )`
/// by itself, and the trimmed text between them where there is any.
///
/// No token is empty: each is one separator, or text without a separator
/// and without whitespace at either end. One after another, the tokens hold
/// the characters of `s` in their order, whitespace aside.
pub fn tokenize(s: &str) -> (result: Vec<String>)
    ensures
        token_views(result@) == tokens(s@),
        forall|i: int| 0 <= i < result.len() ==> (#[trigger] result[i])@.len() > 0,
        forall|i: int| 0 <= i < result.len() ==> is_token((#[trigger] result[i])@),
        skeleton(token_views(result@).flatten()) == skeleton(s@),
{
    let result = split_keep_separator(s, &SEPARATOR_LIST);
    proof {
        lemma_tokens_are_tokens(s@);
        assert forall|i: int| 0 <= i < result.len() implies is_token((#[trigger] result[i])@) by {
            assert(tokens(s@)[i] == result[i]@);
        }
    }
    result
}

} // verus!
