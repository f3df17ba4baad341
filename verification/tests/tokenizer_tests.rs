use expr_eval::lexer::{is_separator, is_whitespace_char, split_keep_separator};
use expr_eval::{tokenize, SEPARATOR_LIST};

fn strings(tokens: &[&str]) -> Vec<String> {
    tokens.iter().map(|t| t.to_string()).collect()
}

#[test]
fn empty_source_has_no_tokens() {
    assert_eq!(tokenize(""), Vec::<String>::new());
}

#[test]
fn blank_source_has_no_tokens() {
    assert_eq!(tokenize("   \t\n "), Vec::<String>::new());
}

#[test]
fn single_operand_is_trimmed() {
    assert_eq!(tokenize("  42  "), strings(&["42"]));
}

#[test]
fn separators_in_a_row_give_no_empty_token() {
    assert_eq!(tokenize("((+))"), strings(&["(", "(", "+", ")", ")"]));
    assert_eq!(tokenize("( ( + ) )"), strings(&["(", "(", "+", ")", ")"]));
}

#[test]
fn every_separator_is_a_token() {
    assert_eq!(tokenize("+-*/^()"), strings(&["+", "-", "*", "/", "^", "(", ")"]));
}

#[test]
fn trailing_operand_is_kept() {
    assert_eq!(tokenize("1+ 2 "), strings(&["1", "+", "2"]));
}

#[test]
fn trailing_blank_run_is_dropped() {
    assert_eq!(tokenize("1+   "), strings(&["1", "+"]));
}

#[test]
fn inner_whitespace_of_an_operand_stays() {
    assert_eq!(tokenize(" a b + c\td "), strings(&["a b", "+", "c\td"]));
}

#[test]
fn identifiers_and_other_marks_are_operands() {
    assert_eq!(tokenize("foo_1 * bar%2"), strings(&["foo_1", "*", "bar%2"]));
}

#[test]
fn non_ascii_operands_are_read_by_character() {
    assert_eq!(tokenize("é+ü*(λ)"), strings(&["é", "+", "ü", "*", "(", "λ", ")"]));
    assert_eq!(tokenize("数 + 量"), strings(&["数", "+", "量"]));
}

#[test]
fn unicode_whitespace_is_trimmed() {
    assert_eq!(tokenize("\u{a0}x\u{2003}+\u{3000}y\u{85}"), strings(&["x", "+", "y"]));
}

#[test]
fn no_token_is_empty() {
    for source in ["", " ", "1", "1+", "+1", " ( ) ", "a  +  b", "^^", "2 * (3 + 5) * 7"] {
        for token in tokenize(source) {
            assert!(!token.is_empty(), "empty token from {:?}", source);
        }
    }
}

#[test]
fn tokens_keep_the_skeleton_of_the_source() {
    for source in [
        "",
        "  ",
        "2+3*4*5-6",
        "2 + 3 ^ 2 * 3 + 4",
        " ( a b + c ) * d ",
        "\u{a0}x\u{2003}+\u{3000}y",
        "((1))",
    ] {
        let joined: String = tokenize(source).concat();
        let from_tokens: String = joined.chars().filter(|c| !c.is_whitespace()).collect();
        let from_source: String = source.chars().filter(|c| !c.is_whitespace()).collect();
        assert_eq!(from_tokens, from_source);
    }
}

#[test]
fn whitespace_is_the_unicode_property() {
    for code in 0u32..=0x10ffff {
        if let Some(c) = char::from_u32(code) {
            assert_eq!(is_whitespace_char(c), c.is_whitespace(), "U+{:04X}", code);
        }
    }
}

#[test]
fn separator_lookup() {
    for c in ['+', '-', '*', '/', '^', '(', ')'] {
        assert!(is_separator(c, &SEPARATOR_LIST));
    }
    for c in ['a', '1', ' ', '%', '=', '[', 'é'] {
        assert!(!is_separator(c, &SEPARATOR_LIST));
    }
    assert!(!is_separator('+', &[]));
}

#[test]
fn split_with_other_separators() {
    assert_eq!(split_keep_separator("a, b;c", &[',', ';']), strings(&["a", ",", "b", ";", "c"]));
    assert_eq!(split_keep_separator("a + b", &[]), strings(&["a + b"]));
    assert_eq!(split_keep_separator(" a b ", &[' ']), strings(&[" ", "a", " ", "b", " "]));
}

#[test]
fn split_matches_tokenize_on_the_standard_list() {
    for source in ["2+3*4*5-6", " ( a b + c ) * d ", ""] {
        assert_eq!(split_keep_separator(source, &SEPARATOR_LIST), tokenize(source));
    }
}
