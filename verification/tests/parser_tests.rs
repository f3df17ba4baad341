use expr_eval::{tokenize, AstNode, AstTree, Operator, ParseError};

fn read(source: &str) -> Result<String, ParseError> {
    AstNode::parse_expression(tokenize(source).into_iter()).map(|node| node.to_string())
}

fn leaf(text: &str) -> AstNode {
    AstNode::Leaf(text.to_string())
}

#[test]
fn precedence_of_product_over_sum() {
    assert_eq!(read("2+3*4*5-6"), Ok("((2 + ((3 * 4) * 5)) - 6)".to_string()));
}

#[test]
fn power_binds_tightest() {
    assert_eq!(read("2+3^2*3+4"), Ok("((2 + ((3 ^ 2) * 3)) + 4)".to_string()));
}

#[test]
fn power_groups_to_the_right() {
    assert_eq!(read("2^3^4"), Ok("(2 ^ (3 ^ 4))".to_string()));
    assert_eq!(read("a^b^c^d"), Ok("(a ^ (b ^ (c ^ d)))".to_string()));
}

#[test]
fn the_others_group_to_the_left() {
    assert_eq!(read("2-3-4"), Ok("((2 - 3) - 4)".to_string()));
    assert_eq!(read("2+3-4"), Ok("((2 + 3) - 4)".to_string()));
    assert_eq!(read("8/4/2"), Ok("((8 / 4) / 2)".to_string()));
    assert_eq!(read("8/4*2"), Ok("((8 / 4) * 2)".to_string()));
}

#[test]
fn parentheses_override_precedence() {
    assert_eq!(read("2*(3+5)*7"), Ok("((2 * (3 + 5)) * 7)".to_string()));
    assert_eq!(read("(2^3)^4"), Ok("((2 ^ 3) ^ 4)".to_string()));
    assert_eq!(read("2-(3-4)"), Ok("(2 - (3 - 4))".to_string()));
}

#[test]
fn parentheses_add_no_node() {
    assert_eq!(read("((7))"), Ok("7".to_string()));
    assert_eq!(read("(a)+((b))"), Ok("(a + b)".to_string()));
}

#[test]
fn sample_expressions() {
    assert_eq!(read("(3 + 4) * 2^5^6"), Ok("((3 + 4) * (2 ^ (5 ^ 6)))".to_string()));
    assert_eq!(read("a+(b+c)"), Ok("(a + (b + c))".to_string()));
}

#[test]
fn single_operand() {
    assert_eq!(read("x"), Ok("x".to_string()));
}

#[test]
fn operands_are_taken_as_written() {
    assert_eq!(read("1.5e3 + two words"), Ok("(1.5e3 + two words)".to_string()));
}

#[test]
fn unmatched_bracket_fails() {
    assert_eq!(read("(2+3"), Err(ParseError::UnmatchedBrackets));
    assert_eq!(read("((2+3)"), Err(ParseError::UnmatchedBrackets));
    assert_eq!(read("(2"), Err(ParseError::UnmatchedBrackets));
}

#[test]
fn operator_in_operand_position_fails() {
    assert_eq!(read("+2"), Err(ParseError::OperandExpected));
    assert_eq!(read("2+*3"), Err(ParseError::OperandExpected));
    assert_eq!(read("(*)"), Err(ParseError::OperandExpected));
}

#[test]
fn missing_operand_at_the_end_fails() {
    assert_eq!(read(""), Err(ParseError::OperandExpected));
    assert_eq!(read("2+"), Err(ParseError::OperandExpected));
    assert_eq!(read("("), Err(ParseError::OperandExpected));
    assert_eq!(read("(2+"), Err(ParseError::OperandExpected));
}

#[test]
fn token_in_operator_position_fails() {
    let tokens = vec!["2".to_string(), "3".to_string()];
    assert_eq!(
        AstNode::parse_expression(tokens.into_iter()),
        Err(ParseError::InvalidOperator)
    );
    assert_eq!(read("2(3)"), Err(ParseError::InvalidOperator));
    assert_eq!(read("(2)(3)"), Err(ParseError::InvalidOperator));
}

#[test]
fn the_first_failure_is_the_result() {
    let tokens: Vec<String> = ["(", "2", "3", ")"].iter().map(|t| t.to_string()).collect();
    assert_eq!(
        AstNode::parse_expression(tokens.into_iter()),
        Err(ParseError::InvalidOperator)
    );
    assert_eq!(read("(+2"), Err(ParseError::OperandExpected));
}

#[test]
fn reading_stops_before_a_closing_parenthesis() {
    assert_eq!(read("2)"), Ok("2".to_string()));
    assert_eq!(read("2+3)*4"), Ok("(2 + 3)".to_string()));
}

#[test]
fn closing_parenthesis_in_operand_position_is_a_leaf() {
    assert_eq!(read(")"), Ok(")".to_string()));
    assert_eq!(read("()"), Err(ParseError::UnmatchedBrackets));
    assert_eq!(read("())"), Ok(")".to_string()));
}

#[test]
fn tokens_need_not_come_from_the_tokenizer() {
    let tokens: Vec<String> = ["a b", "+", " c"].iter().map(|t| t.to_string()).collect();
    let root = AstNode::parse_expression(tokens.into_iter()).unwrap();
    assert_eq!(
        root,
        AstNode::new_root(Operator::Add, leaf("a b"), leaf(" c"))
    );
    let tokens: Vec<String> = ["a", "++", "b"].iter().map(|t| t.to_string()).collect();
    assert_eq!(
        AstNode::parse_expression(tokens.into_iter()),
        Err(ParseError::InvalidOperator)
    );
}

#[test]
fn tree_of_a_parse() {
    let root = AstNode::parse_expression(tokenize("1+2*3").into_iter()).unwrap();
    let expected = AstNode::Root(Box::new(AstTree {
        root: Operator::Add,
        left_child: leaf("1"),
        right_child: AstNode::Root(Box::new(AstTree {
            root: Operator::Mul,
            left_child: leaf("2"),
            right_child: leaf("3"),
        })),
    }));
    assert_eq!(root, expected);
}

#[test]
fn rendering_is_a_fixed_point() {
    for source in [
        "2+3*4*5-6",
        "2+3^2*3+4",
        "2*(3+5)*7",
        "(3 + 4) * 2^5^6",
        "a+(b+c)",
        "x",
        "a b ^ c d",
        "((1))-2/3",
    ] {
        let first = read(source).unwrap();
        let second = read(&first).unwrap();
        assert_eq!(first, second);
    }
}

#[test]
fn reading_the_text_of_a_tree_gives_the_tree() {
    let tree = AstNode::new_root(
        Operator::Sub,
        AstNode::new_root(Operator::Pow, leaf("a"), leaf("b c")),
        AstNode::new_root(Operator::Div, leaf("1"), leaf(")")),
    );
    let text = tree.to_string();
    assert_eq!(text, "((a ^ b c) - (1 / )))");
    assert_eq!(AstNode::parse_expression(tokenize(&text).into_iter()), Ok(tree));
}

#[test]
fn text_of_a_leaf_with_a_separator_is_no_fixed_point() {
    let tree = leaf("a+b");
    let text = tree.to_string();
    assert_eq!(text, "a+b");
    assert_eq!(read(&text), Ok("(a + b)".to_string()));
}

#[test]
fn tokens_of_a_vector_are_read_as_those_of_its_iterator() {
    for source in ["2+3*4*5-6", "2*(3+5)*7", "(2+3", "+2", "2 3", "", "a^b^c)"] {
        let from_vector = AstNode::parse_tokens(tokenize(source));
        let from_iterator = AstNode::parse_expression(tokenize(source).into_iter());
        assert_eq!(from_vector, from_iterator);
    }
    assert_eq!(
        AstNode::parse_tokens(tokenize("1-2-3")).map(|node| node.to_string()),
        Ok("((1 - 2) - 3)".to_string())
    );
}

#[test]
fn any_iterator_of_tokens_is_read() {
    let lazy = "7 * 8".split(' ').map(|t| t.to_string());
    assert_eq!(
        AstNode::parse_expression(lazy).map(|node| node.to_string()),
        Ok("(7 * 8)".to_string())
    );
}
