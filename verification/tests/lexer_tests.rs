use math_lib::lexer::{numeric_literals_ok, tokenize, Token};

fn toks(input: &str, var: &str) -> Vec<Token> {
    tokenize(input.to_string(), var.to_string())
}

#[test]
fn tokenize_number() {
    assert_eq!(toks("42", "x"), vec![Token::Number("42".to_string())]);
}

#[test]
fn tokenize_decimal_number() {
    let t = toks("3.14", "x");
    assert_eq!(t, vec![Token::Number("3.14".to_string())]);
    match &t[0] {
        Token::Number(s) => assert_eq!(s.parse::<f64>().unwrap(), 3.14),
        _ => panic!("expected a number token"),
    }
}

#[test]
fn tokenize_trailing_dot_number() {
    let t = toks("1.", "x");
    assert_eq!(t, vec![Token::Number("1.".to_string())]);
    match &t[0] {
        Token::Number(s) => assert_eq!(s.parse::<f64>().unwrap(), 1.0),
        _ => panic!("expected a number token"),
    }
}

#[test]
fn tokenize_variable_and_constant() {
    assert_eq!(
        toks("x + y", "x"),
        vec![
            Token::Variable("x".to_string()),
            Token::Add,
            Token::Constant("y".to_string()),
        ]
    );
}

#[test]
fn tokenize_keywords() {
    assert_eq!(
        toks("sin cos tan arcsin arccos arctan ln log e", "x"),
        vec![
            Token::Sin,
            Token::Cos,
            Token::Tan,
            Token::Arcsin,
            Token::Arccos,
            Token::Arctan,
            Token::Ln,
            Token::Log,
            Token::EConstant,
        ]
    );
}

#[test]
fn tokenize_sqrt_is_not_a_keyword() {
    assert_eq!(toks("sqrt", "x"), vec![Token::Constant("sqrt".to_string())]);
}

#[test]
fn tokenize_operators_and_parens() {
    assert_eq!(
        toks("+-*/()^", "x"),
        vec![
            Token::Add,
            Token::Sub,
            Token::Mul,
            Token::Div,
            Token::LParen,
            Token::RParen,
            Token::Pow,
        ]
    );
}

#[test]
fn tokenize_skips_unknown_characters() {
    assert_eq!(
        toks("2 @# + 3", "x"),
        vec![
            Token::Number("2".to_string()),
            Token::Add,
            Token::Number("3".to_string()),
        ]
    );
}

#[test]
fn tokenize_is_case_sensitive() {
    assert_eq!(toks("Sin", "x"), vec![Token::Constant("Sin".to_string())]);
}

#[test]
fn tokenize_variable_shadows_keyword() {
    assert_eq!(toks("sin", "sin"), vec![Token::Variable("sin".to_string())]);
}

#[test]
fn tokenize_greedy_identifier_run() {
    assert_eq!(toks("sinx", "x"), vec![Token::Constant("sinx".to_string())]);
}

#[test]
fn tokenize_variable_then_number() {
    assert_eq!(
        toks("x2", "x"),
        vec![Token::Variable("x".to_string()), Token::Number("2".to_string())]
    );
}

#[test]
fn tokenize_empty_input() {
    assert_eq!(toks("", "x"), Vec::<Token>::new());
}

#[test]
fn tokenize_clone_equals_original() {
    let t = toks("sin(x) + 2.5", "x");
    assert_eq!(t.clone(), t);
}

#[test]
fn numeric_literals_ok_accepts_single_dot() {
    assert!(numeric_literals_ok("3.14 + x"));
    assert!(numeric_literals_ok("1."));
    assert!(numeric_literals_ok("a.b"));
    assert!(numeric_literals_ok(""));
}

#[test]
fn numeric_literals_ok_rejects_double_dot() {
    assert!(!numeric_literals_ok("1.2.3"));
    assert!(!numeric_literals_ok("1..2"));
    assert!(!numeric_literals_ok("x + 0..1"));
}
