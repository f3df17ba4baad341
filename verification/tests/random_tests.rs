use expr_eval::{tokenize, AstNode, Operator, ParseError};

/// A small generator of numbers, the same at every run.
struct Numbers(u64);

impl Numbers {
    fn next(&mut self) -> u64 {
        self.0 = self.0.wrapping_mul(6364136223846793005).wrapping_add(1442695040888963407);
        self.0 >> 33
    }

    fn below(&mut self, bound: u64) -> u64 {
        self.next() % bound
    }
}

const OPERATORS: [Operator; 5] =
    [Operator::Add, Operator::Sub, Operator::Mul, Operator::Div, Operator::Pow];

const OPERANDS: [&str; 8] = ["0", "17", "x", "y_1", "two words", "é", "3.14", ")"];

fn random_tree(numbers: &mut Numbers, depth: u32) -> AstNode {
    if depth == 0 || numbers.below(3) == 0 {
        AstNode::new_leaf(OPERANDS[numbers.below(OPERANDS.len() as u64) as usize])
    } else {
        let op = OPERATORS[numbers.below(OPERATORS.len() as u64) as usize];
        let left = random_tree(numbers, depth - 1);
        let right = random_tree(numbers, depth - 1);
        AstNode::new_root(op, left, right)
    }
}

fn random_source(numbers: &mut Numbers, len: u64) -> String {
    let alphabet = ['1', '2', 'a', ' ', ' ', '+', '-', '*', '/', '^', '(', ')', '\t', 'é', '\u{a0}'];
    (0..len).map(|_| alphabet[numbers.below(alphabet.len() as u64) as usize]).collect()
}

#[test]
fn text_of_random_trees_is_read_as_the_tree() {
    let mut numbers = Numbers(1);
    for _ in 0..500 {
        let tree = random_tree(&mut numbers, 6);
        let text = tree.to_string();
        let read = AstNode::parse_expression(tokenize(&text).into_iter());
        assert_eq!(read, Ok(tree), "{}", text);
    }
}

#[test]
fn tokens_of_random_sources_keep_the_skeleton() {
    let mut numbers = Numbers(2);
    for _ in 0..500 {
        let len = numbers.below(40);
        let source = random_source(&mut numbers, len);
        let tokens = tokenize(&source);
        assert!(tokens.iter().all(|t| !t.is_empty()), "{:?}", source);
        assert!(
            tokens.iter().all(|t| t.trim() == t || t.chars().count() == 1),
            "{:?}",
            source
        );
        let joined: String = tokens.concat();
        let from_tokens: String = joined.chars().filter(|c| !c.is_whitespace()).collect();
        let from_source: String = source.chars().filter(|c| !c.is_whitespace()).collect();
        assert_eq!(from_tokens, from_source, "{:?}", source);
    }
}

#[test]
fn text_read_from_random_sources_is_a_fixed_point() {
    let mut numbers = Numbers(3);
    let mut read = 0;
    for _ in 0..2000 {
        let len = numbers.below(24);
        let source = random_source(&mut numbers, len);
        if let Ok(tree) = AstNode::parse_expression(tokenize(&source).into_iter()) {
            read += 1;
            let text = tree.to_string();
            let again = AstNode::parse_expression(tokenize(&text).into_iter());
            assert_eq!(again, Ok(tree), "{:?}", source);
        }
    }
    assert!(read > 100);
}

#[test]
fn random_sources_fail_in_one_of_three_ways() {
    let mut numbers = Numbers(4);
    let mut seen = [false; 3];
    for _ in 0..2000 {
        let len = numbers.below(24);
        let source = random_source(&mut numbers, len);
        match AstNode::parse_expression(tokenize(&source).into_iter()) {
            Ok(_) => {}
            Err(ParseError::OperandExpected) => seen[0] = true,
            Err(ParseError::UnmatchedBrackets) => seen[1] = true,
            Err(ParseError::InvalidOperator) => seen[2] = true,
        }
    }
    assert_eq!(seen, [true, true, true]);
}

#[test]
fn deep_nesting_is_read() {
    let depth = 300;
    let source = format!("{}x{}", "(".repeat(depth), ")".repeat(depth));
    let read = AstNode::parse_expression(tokenize(&source).into_iter());
    assert_eq!(read, Ok(AstNode::new_leaf("x")));
}

#[test]
fn long_chains_are_read() {
    let count = 1000;
    let source = vec!["1"; count].join("-");
    let tree = AstNode::parse_expression(tokenize(&source).into_iter()).unwrap();
    let text = tree.to_string();
    assert!(text.starts_with(&"(".repeat(count - 1)));
    assert!(text.ends_with("- 1)"));

    let source = vec!["2"; count].join("^");
    let tree = AstNode::parse_expression(tokenize(&source).into_iter()).unwrap();
    let text = tree.to_string();
    assert!(text.starts_with("(2 ^ (2 ^ "));
    assert!(text.ends_with(&")".repeat(count - 1)));
}
