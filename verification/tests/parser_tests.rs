use math_lib::lexer::{tokenize, Token};
use math_lib::node::{Node, NodeToken};
use math_lib::parser::{parse_fully, parse_func, parse_paren, parse_rest, ParseError};

fn parse(input: &str, var: &str) -> Result<Node, ParseError> {
    parse_fully(&tokenize(input.to_string(), var.to_string()))
}

fn num(text: &str) -> Node {
    Node::Number(text.to_string())
}

fn b(n: Node) -> Box<Node> {
    Box::new(n)
}

#[test]
fn number_round_trip() {
    let r = parse("42", "x").unwrap();
    assert_eq!(r, num("42"));
    match r {
        Node::Number(s) => assert_eq!(s.parse::<f64>().unwrap(), 42.0),
        _ => panic!("expected a number node"),
    }
}

#[test]
fn additive_before_multiplicative() {
    assert_eq!(
        parse("2 + 3 * 4", "x").unwrap(),
        Node::Add(b(num("2")), b(Node::Mul(b(num("3")), b(num("4")))))
    );
}

#[test]
fn leading_minus_wraps_the_power() {
    // The scan order checks for a leading minus before it looks for `^`,
    // so the negation takes the whole power expression as its operand.
    assert_eq!(
        parse("-3^2", "x").unwrap(),
        Node::Neg(b(Node::Pow(b(num("3")), b(num("2")))))
    );
}

#[test]
fn inserted_paren_makes_parsing_fail() {
    let base = "2*(3+4)";
    for pos in 0..=base.len() {
        for paren in ["(", ")"] {
            let mut s = String::new();
            s.push_str(&base[..pos]);
            s.push_str(paren);
            s.push_str(&base[pos..]);
            assert!(parse(&s, "x").is_err(), "parse of {:?} should fail", s);
        }
    }
}

#[test]
fn unmatched_open_paren() {
    assert_eq!(parse("(2", "x"), Err(ParseError::UnevenParentheses));
    assert_eq!(parse("2*(3+4", "x"), Err(ParseError::UnevenParentheses));
}

#[test]
fn unmatched_close_paren() {
    assert_eq!(parse("2)", "x"), Err(ParseError::UnevenParentheses));
    assert_eq!(parse(")2*(3+4)", "x"), Err(ParseError::UnevenParentheses));
}

#[test]
fn emptied_group_fails_before_late_paren() {
    // The empty group `()` is resolved, and fails, before the scan ever
    // reaches the closing parenthesis that would not balance.
    assert_eq!(parse("2*()3)", "x"), Err(ParseError::InvalidExpression));
}

#[test]
fn function_binds_its_group() {
    assert_eq!(
        parse("sin(x)", "x").unwrap(),
        Node::Sin(b(Node::Variable("x".to_string())))
    );
}

#[test]
fn bare_function_keyword_fails() {
    assert_eq!(parse("sin", "x"), Err(ParseError::MissingFunctionArgument));
}

#[test]
fn function_before_operator_fails() {
    assert_eq!(parse("sin+2", "x"), Err(ParseError::MissingFunctionArgument));
}

#[test]
fn nested_composition() {
    let expected = Node::Arcsin(b(Node::Pow(
        b(Node::EConstant),
        b(Node::Cos(b(Node::Ln(b(Node::Pow(
            b(Node::Variable("x".to_string())),
            b(Node::Pow(b(num("3")), b(Node::Variable("x".to_string())))),
        )))))),
    )));
    assert_eq!(parse("arcsin(e^(cos(ln(x^(3^x)))))", "x").unwrap(), expected);
}

#[test]
fn parsing_twice_gives_equal_trees() {
    let tokens = tokenize("2 + sin(x)*3 - e^2".to_string(), "x".to_string());
    let first = parse_fully(&tokens);
    let second = parse_fully(&tokens);
    assert_eq!(first, second);
    assert!(first.is_ok());
}

#[test]
fn empty_input_is_invalid() {
    assert_eq!(parse("", "x"), Err(ParseError::InvalidExpression));
}

#[test]
fn leading_operator_is_invalid() {
    assert_eq!(parse("*2", "x"), Err(ParseError::InvalidExpression));
}

#[test]
fn adjacent_leaves_are_invalid() {
    assert_eq!(parse("2 3", "x"), Err(ParseError::InvalidExpression));
}

#[test]
fn subtraction_splits_at_first_minus() {
    assert_eq!(
        parse("10-2-3", "x").unwrap(),
        Node::Sub(b(num("10")), b(Node::Sub(b(num("2")), b(num("3")))))
    );
}

#[test]
fn minus_after_minus_is_unary() {
    assert_eq!(
        parse("2--3", "x").unwrap(),
        Node::Sub(b(num("2")), b(Node::Neg(b(num("3")))))
    );
}

#[test]
fn minus_after_times_is_unary() {
    assert_eq!(
        parse("2*-3", "x").unwrap(),
        Node::Mul(b(num("2")), b(Node::Neg(b(num("3")))))
    );
}

#[test]
fn power_chain_splits_at_first_caret() {
    assert_eq!(
        parse("2^3^2", "x").unwrap(),
        Node::Pow(b(num("2")), b(Node::Pow(b(num("3")), b(num("2")))))
    );
}

#[test]
fn division() {
    assert_eq!(parse("8/2", "x").unwrap(), Node::Div(b(num("8")), b(num("2"))));
}

#[test]
fn e_is_the_symbolic_constant() {
    assert_eq!(
        parse("e^x", "x").unwrap(),
        Node::Pow(b(Node::EConstant), b(Node::Variable("x".to_string())))
    );
}

#[test]
fn negated_group() {
    assert_eq!(parse("(-2)", "x").unwrap(), Node::Neg(b(num("2"))));
}

#[test]
fn unary_minus_then_addition() {
    assert_eq!(
        parse("-2+3", "x").unwrap(),
        Node::Add(b(Node::Neg(b(num("2")))), b(num("3")))
    );
}

#[test]
fn paren_pass_resolves_a_group() {
    let tokens = tokenize("(x)".to_string(), "x".to_string());
    assert_eq!(
        parse_paren(&tokens),
        Ok(vec![NodeToken::Node(Node::Variable("x".to_string()))])
    );
}

#[test]
fn paren_pass_passes_tokens_through() {
    let tokens = tokenize("2+3".to_string(), "x".to_string());
    assert_eq!(
        parse_paren(&tokens),
        Ok(vec![
            NodeToken::Token(Token::Number("2".to_string())),
            NodeToken::Token(Token::Add),
            NodeToken::Token(Token::Number("3".to_string())),
        ])
    );
}

#[test]
fn func_pass_binds_keyword_to_node() {
    let units = vec![
        NodeToken::Token(Token::Sin),
        NodeToken::Node(Node::Variable("x".to_string())),
    ];
    assert_eq!(
        parse_func(&units),
        Ok(vec![NodeToken::Node(Node::Sin(b(Node::Variable("x".to_string()))))])
    );
}

#[test]
fn func_pass_fails_on_trailing_keyword() {
    let units = vec![NodeToken::Token(Token::Ln)];
    assert_eq!(parse_func(&units), Err(ParseError::MissingFunctionArgument));
}

#[test]
fn rest_pass_resolves_single_node() {
    let units = vec![NodeToken::Node(num("2"))];
    assert_eq!(parse_rest(&units), Ok(num("2")));
}

#[test]
fn rest_pass_rejects_single_operator() {
    let units = vec![NodeToken::Token(Token::Add)];
    assert_eq!(parse_rest(&units), Err(ParseError::InvalidExpression));
}

#[test]
fn node_token_getters() {
    let t = NodeToken::Token(Token::Add);
    let n = NodeToken::Node(num("7"));
    assert_eq!(t.token(), Some(Token::Add));
    assert_eq!(t.node(), None);
    assert_eq!(n.node(), Some(num("7")));
    assert_eq!(n.token(), None);
}

#[test]
fn node_clone_equals_original() {
    let tree = parse("2 + sin(x)*3", "x").unwrap();
    assert_eq!(tree.clone(), tree);
}
