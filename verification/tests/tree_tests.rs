use expr_eval::{Associativity, AstNode, AstTree, Operator};

#[test]
fn operator_lookup() {
    assert_eq!(Operator::new("+"), Some(Operator::Add));
    assert_eq!(Operator::new("-"), Some(Operator::Sub));
    assert_eq!(Operator::new("*"), Some(Operator::Mul));
    assert_eq!(Operator::new("/"), Some(Operator::Div));
    assert_eq!(Operator::new("^"), Some(Operator::Pow));
    for other in ["", " ", "(", ")", "++", "+ ", "a", "%", "×"] {
        assert_eq!(Operator::new(other), None, "{:?}", other);
    }
}

#[test]
fn operator_recognition() {
    for mark in ["+", "-", "*", "/", "^"] {
        assert!(Operator::is_operation(mark));
    }
    for other in ["", "(", ")", "+-", "2", "x"] {
        assert!(!Operator::is_operation(other));
    }
}

#[test]
fn operator_marks() {
    assert_eq!(Operator::Add.mark(), "+");
    assert_eq!(Operator::Sub.mark(), "-");
    assert_eq!(Operator::Mul.mark(), "*");
    assert_eq!(Operator::Div.mark(), "/");
    assert_eq!(Operator::Pow.mark(), "^");
}

#[test]
fn operator_is_found_by_its_mark() {
    for op in [Operator::Add, Operator::Sub, Operator::Mul, Operator::Div, Operator::Pow] {
        assert_eq!(Operator::new(op.mark()), Some(op));
    }
}

#[test]
fn operator_precedence() {
    assert_eq!(Operator::Add.precedence(), 1);
    assert_eq!(Operator::Sub.precedence(), 1);
    assert_eq!(Operator::Mul.precedence(), 2);
    assert_eq!(Operator::Div.precedence(), 2);
    assert_eq!(Operator::Pow.precedence(), 3);
}

#[test]
fn operator_associativity() {
    assert_eq!(Operator::Add.associativity(), Associativity::Left);
    assert_eq!(Operator::Sub.associativity(), Associativity::Left);
    assert_eq!(Operator::Mul.associativity(), Associativity::Left);
    assert_eq!(Operator::Div.associativity(), Associativity::Left);
    assert_eq!(Operator::Pow.associativity(), Associativity::Right);
}

#[test]
fn leaf_renders_as_its_text() {
    assert_eq!(AstNode::new_leaf("42").to_string(), "42");
    assert_eq!(AstNode::new_leaf("").to_string(), "");
    assert_eq!(AstNode::Leaf(" x ".to_string()).to_string(), " x ");
}

#[test]
fn root_renders_in_parentheses() {
    let node = AstNode::new_root(Operator::Add, AstNode::new_leaf("1"), AstNode::new_leaf("2"));
    assert_eq!(node.to_string(), "(1 + 2)");
}

#[test]
fn nested_roots_render_with_all_parentheses() {
    let node = AstNode::new_root(
        Operator::Mul,
        AstNode::new_root(Operator::Sub, AstNode::new_leaf("a"), AstNode::new_leaf("b")),
        AstNode::new_root(Operator::Pow, AstNode::new_leaf("c"), AstNode::new_leaf("d")),
    );
    assert_eq!(node.to_string(), "((a - b) * (c ^ d))");
}

#[test]
fn tree_renders_without_outer_parentheses() {
    let tree = AstTree {
        root: Operator::Div,
        left_child: AstNode::new_leaf("x"),
        right_child: AstNode::new_root(
            Operator::Add,
            AstNode::new_leaf("y"),
            AstNode::new_leaf("z"),
        ),
    };
    assert_eq!(tree.to_string(), "x / (y + z)");
}

#[test]
fn new_root_builds_the_tree() {
    let node = AstNode::new_root(Operator::Pow, AstNode::new_leaf("2"), AstNode::new_leaf("3"));
    let expected = AstNode::Root(Box::new(AstTree {
        root: Operator::Pow,
        left_child: AstNode::Leaf("2".to_string()),
        right_child: AstNode::Leaf("3".to_string()),
    }));
    assert_eq!(node, expected);
}
