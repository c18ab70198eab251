//! The structural parser: resolves a token stream into one expression tree.
//!
//! Parsing runs in three passes. The parenthesis pass reduces every
//! balanced `(...)` group, through the whole pipeline recursively, to a
//! single resolved node. The function pass binds each function keyword to
//! the resolved node immediately after it. The precedence pass splits the
//! remaining sequence at the first additive operator, else the first
//! multiplicative one, else a leading minus, else the first power
//! operator, and recurses on the two sides.
//!
//! Each executable pass is proved equal to a specification function of the
//! input alone, so parsing the same token sequence always yields the same
//! tree, member by member.

use vstd::prelude::*;
use crate::lexer::{
    char_balanced, char_balanced_at, ident_run_len, is_alpha, is_digit, is_num_char, lemma_ident_run_chars,
    lemma_ident_run_len_le, lemma_inserted_paren_unbalances, lemma_nonparen_run_balance,
    lemma_num_run_chars, lemma_num_run_len_le, lex, num_run_len, token_views, Token, TokenView,
};
use crate::node::{Node, NodeToken};

verus! {

/// The ways a parse can fail. All are terminal: the first failure is
/// reported to the caller and nothing is recovered.
#[derive(Debug, PartialEq, Eq, Clone, Copy)]
pub enum ParseError {
    /// A unit sequence matches none of the resolvable grammar shapes.
    InvalidExpression,
    /// Parenthesis nesting goes negative or never returns to zero.
    UnevenParentheses,
    /// A function keyword lacks an already-resolved argument after it.
    MissingFunctionArgument,
}

/// The nine function keywords that bind the node after them.
pub open spec fn is_func_token(t: Token) -> bool {
    match t {
        Token::Ln | Token::Log | Token::Sin | Token::Cos | Token::Tan | Token::Arcsin
        | Token::Arccos | Token::Arctan | Token::Sqrt => true,
        _ => false,
    }
}

/// The node a function keyword wraps its argument in.
pub open spec fn func_node(t: Token, arg: Node) -> Node {
    match t {
        Token::Ln => Node::Ln(Box::new(arg)),
        Token::Log => Node::Log(Box::new(arg)),
        Token::Sin => Node::Sin(Box::new(arg)),
        Token::Cos => Node::Cos(Box::new(arg)),
        Token::Tan => Node::Tan(Box::new(arg)),
        Token::Arcsin => Node::Arcsin(Box::new(arg)),
        Token::Arccos => Node::Arccos(Box::new(arg)),
        Token::Arctan => Node::Arctan(Box::new(arg)),
        Token::Sqrt => Node::Sqrt(Box::new(arg)),
        _ => arbitrary(),
    }
}

/// An arithmetic operator token.
pub open spec fn is_op_token(t: Token) -> bool {
    match t {
        Token::Add | Token::Sub | Token::Mul | Token::Div | Token::Pow => true,
        _ => false,
    }
}

/// The position of the closing parenthesis that brings the nesting level
/// `depth` back to zero, scanning from position `i`.
pub open spec fn close_from(toks: Seq<Token>, i: int, depth: int) -> Option<int>
    decreases toks.len() - i,
{
    if i < 0 || i >= toks.len() {
        None
    } else {
        match toks[i] {
            Token::RParen => if depth == 1 {
                Some(i)
            } else {
                close_from(toks, i + 1, depth - 1)
            },
            Token::LParen => close_from(toks, i + 1, depth + 1),
            _ => close_from(toks, i + 1, depth),
        }
    }
}

pub proof fn lemma_close_from_range(toks: Seq<Token>, i: int, depth: int)
    requires
        0 <= i,
    ensures
        match close_from(toks, i, depth) {
            Some(j) => i <= j < toks.len(),
            None => true,
        },
    decreases toks.len() - i,
{
    if i < toks.len() {
        match toks[i] {
            Token::RParen => {
                if depth != 1 {
                    lemma_close_from_range(toks, i + 1, depth - 1);
                }
            },
            Token::LParen => {
                lemma_close_from_range(toks, i + 1, depth + 1);
            },
            _ => {
                lemma_close_from_range(toks, i + 1, depth);
            },
        }
    }
}

/// The parenthesis pass from position `i` on: tokens at nesting level zero
/// pass through; each balanced group is resolved, through the whole
/// pipeline, to one node; a closing parenthesis at level zero, or an
/// opening one that never closes, is an `UnevenParentheses` failure.
pub open spec fn spec_parse_paren_from(toks: Seq<Token>, i: int) -> Result<
    Seq<NodeToken>,
    ParseError,
>
    decreases toks.len() - i, 0int,
{
    if i < 0 || i >= toks.len() {
        Ok(Seq::empty())
    } else {
        match toks[i] {
            Token::LParen => match close_from(toks, i + 1, 1) {
                None => Err(ParseError::UnevenParentheses),
                Some(j) => {
                    proof {
                        lemma_close_from_range(toks, i + 1, 1);
                    }
                    match spec_parse_fully(toks.subrange(i + 1, j)) {
                        Err(e) => Err(e),
                        Ok(node) => match spec_parse_paren_from(toks, j + 1) {
                            Err(e) => Err(e),
                            Ok(rest) => Ok(seq![NodeToken::Node(node)] + rest),
                        },
                    }
                },
            },
            Token::RParen => Err(ParseError::UnevenParentheses),
            _ => match spec_parse_paren_from(toks, i + 1) {
                Err(e) => Err(e),
                Ok(rest) => Ok(seq![NodeToken::Token(toks[i])] + rest),
            },
        }
    }
}

/// The parenthesis pass over a whole token sequence.
pub open spec fn spec_parse_paren(toks: Seq<Token>) -> Result<Seq<NodeToken>, ParseError> {
    spec_parse_paren_from(toks, 0)
}

/// The function pass from position `i` on: a function keyword and the
/// resolved node after it become one node; a keyword that is last, or is
/// not followed by a resolved node, is a `MissingFunctionArgument`
/// failure; every other unit passes through.
pub open spec fn spec_parse_func_from(units: Seq<NodeToken>, i: int) -> Result<
    Seq<NodeToken>,
    ParseError,
>
    decreases units.len() - i,
{
    if i < 0 || i >= units.len() {
        Ok(Seq::empty())
    } else {
        match units[i] {
            NodeToken::Token(t) => if is_func_token(t) {
                if i + 1 >= units.len() {
                    Err(ParseError::MissingFunctionArgument)
                } else {
                    match units[i + 1] {
                        NodeToken::Node(arg) => match spec_parse_func_from(units, i + 2) {
                            Err(e) => Err(e),
                            Ok(rest) => Ok(seq![NodeToken::Node(func_node(t, arg))] + rest),
                        },
                        NodeToken::Token(_) => Err(ParseError::MissingFunctionArgument),
                    }
                }
            } else {
                match spec_parse_func_from(units, i + 1) {
                    Err(e) => Err(e),
                    Ok(rest) => Ok(seq![NodeToken::Token(t)] + rest),
                }
            },
            NodeToken::Node(n) => match spec_parse_func_from(units, i + 1) {
                Err(e) => Err(e),
                Ok(rest) => Ok(seq![NodeToken::Node(n)] + rest),
            },
        }
    }
}

/// The function pass over a whole unit sequence.
pub open spec fn spec_parse_func(units: Seq<NodeToken>) -> Result<Seq<NodeToken>, ParseError> {
    spec_parse_func_from(units, 0)
}

/// Whether the unit before position `i` is an operator token, which makes
/// a minus at `i` a unary marker rather than a subtraction.
pub open spec fn prev_is_op(units: Seq<NodeToken>, i: int) -> bool {
    match units[i - 1] {
        NodeToken::Token(p) => is_op_token(p),
        NodeToken::Node(_) => false,
    }
}

/// The first additive split position at or after `i`: a `+`, or a `-` that
/// does not directly follow an operator.
pub open spec fn addsub_split_from(units: Seq<NodeToken>, i: int) -> Option<int>
    decreases units.len() - i,
{
    if i < 1 || i >= units.len() {
        None
    } else {
        match units[i] {
            NodeToken::Token(Token::Add) => Some(i),
            NodeToken::Token(Token::Sub) => if prev_is_op(units, i) {
                addsub_split_from(units, i + 1)
            } else {
                Some(i)
            },
            _ => addsub_split_from(units, i + 1),
        }
    }
}

/// The first multiplicative split position at or after `i`.
pub open spec fn muldiv_split_from(units: Seq<NodeToken>, i: int) -> Option<int>
    decreases units.len() - i,
{
    if i < 1 || i >= units.len() {
        None
    } else {
        match units[i] {
            NodeToken::Token(Token::Mul) => Some(i),
            NodeToken::Token(Token::Div) => Some(i),
            _ => muldiv_split_from(units, i + 1),
        }
    }
}

/// The first power split position at or after `i`.
pub open spec fn pow_split_from(units: Seq<NodeToken>, i: int) -> Option<int>
    decreases units.len() - i,
{
    if i < 1 || i >= units.len() {
        None
    } else {
        match units[i] {
            NodeToken::Token(Token::Pow) => Some(i),
            _ => pow_split_from(units, i + 1),
        }
    }
}

pub proof fn lemma_addsub_split_range(units: Seq<NodeToken>, i: int)
    requires
        1 <= i,
    ensures
        match addsub_split_from(units, i) {
            Some(j) => i <= j < units.len(),
            None => true,
        },
    decreases units.len() - i,
{
    if i < units.len() {
        match units[i] {
            NodeToken::Token(Token::Add) => {},
            NodeToken::Token(Token::Sub) => {
                if prev_is_op(units, i) {
                    lemma_addsub_split_range(units, i + 1);
                }
            },
            _ => {
                lemma_addsub_split_range(units, i + 1);
            },
        }
    }
}

pub proof fn lemma_muldiv_split_range(units: Seq<NodeToken>, i: int)
    requires
        1 <= i,
    ensures
        match muldiv_split_from(units, i) {
            Some(j) => i <= j < units.len(),
            None => true,
        },
    decreases units.len() - i,
{
    if i < units.len() {
        match units[i] {
            NodeToken::Token(Token::Mul) => {},
            NodeToken::Token(Token::Div) => {},
            _ => {
                lemma_muldiv_split_range(units, i + 1);
            },
        }
    }
}

pub proof fn lemma_pow_split_range(units: Seq<NodeToken>, i: int)
    requires
        1 <= i,
    ensures
        match pow_split_from(units, i) {
            Some(j) => i <= j < units.len(),
            None => true,
        },
    decreases units.len() - i,
{
    if i < units.len() {
        match units[i] {
            NodeToken::Token(Token::Pow) => {},
            _ => {
                lemma_pow_split_range(units, i + 1);
            },
        }
    }
}

/// The precedence pass. A single unit resolves directly: a resolved node
/// as itself, a leaf token as the matching leaf node. Otherwise the
/// sequence is split at the first additive operator, else the first
/// multiplicative one, else a leading minus wraps the remainder in a
/// negation, else the first power operator; each side is resolved
/// recursively. Anything else is an `InvalidExpression` failure.
pub open spec fn spec_parse_rest(units: Seq<NodeToken>) -> Result<Node, ParseError>
    decreases units.len(),
{
    if units.len() == 1 {
        match units[0] {
            NodeToken::Token(t) => match t {
                Token::Number(s) => Ok(Node::Number(s)),
                Token::Variable(s) => Ok(Node::Variable(s)),
                Token::Constant(s) => Ok(Node::Constant(s)),
                Token::EConstant => Ok(Node::EConstant),
                _ => Err(ParseError::InvalidExpression),
            },
            NodeToken::Node(n) => Ok(n),
        }
    } else if units.len() == 0 {
        Err(ParseError::InvalidExpression)
    } else {
        match addsub_split_from(units, 1) {
            Some(i) => {
                proof {
                    lemma_addsub_split_range(units, 1);
                }
                match spec_parse_rest(units.subrange(0, i)) {
                    Err(e) => Err(e),
                    Ok(l) => match spec_parse_rest(units.subrange(i + 1, units.len() as int)) {
                        Err(e) => Err(e),
                        Ok(r) => if units[i] matches NodeToken::Token(Token::Add) {
                            Ok(Node::Add(Box::new(l), Box::new(r)))
                        } else {
                            Ok(Node::Sub(Box::new(l), Box::new(r)))
                        },
                    },
                }
            },
            None => match muldiv_split_from(units, 1) {
                Some(i) => {
                    proof {
                        lemma_muldiv_split_range(units, 1);
                    }
                    match spec_parse_rest(units.subrange(0, i)) {
                        Err(e) => Err(e),
                        Ok(l) => match spec_parse_rest(
                            units.subrange(i + 1, units.len() as int),
                        ) {
                            Err(e) => Err(e),
                            Ok(r) => if units[i] matches NodeToken::Token(Token::Mul) {
                                Ok(Node::Mul(Box::new(l), Box::new(r)))
                            } else {
                                Ok(Node::Div(Box::new(l), Box::new(r)))
                            },
                        },
                    }
                },
                None => if units[0] matches NodeToken::Token(Token::Sub) {
                    match spec_parse_rest(units.skip(1)) {
                        Err(e) => Err(e),
                        Ok(n) => Ok(Node::Neg(Box::new(n))),
                    }
                } else {
                    match pow_split_from(units, 1) {
                        Some(i) => {
                            proof {
                                lemma_pow_split_range(units, 1);
                            }
                            match spec_parse_rest(units.subrange(0, i)) {
                                Err(e) => Err(e),
                                Ok(l) => match spec_parse_rest(
                                    units.subrange(i + 1, units.len() as int),
                                ) {
                                    Err(e) => Err(e),
                                    Ok(r) => Ok(Node::Pow(Box::new(l), Box::new(r))),
                                },
                            }
                        },
                        None => Err(ParseError::InvalidExpression),
                    }
                },
            },
        }
    }
}

/// The whole pipeline: the parenthesis pass, then the function pass, then
/// the precedence pass; the first failure is the result.
pub open spec fn spec_parse_fully(toks: Seq<Token>) -> Result<Node, ParseError>
    decreases toks.len(), 1int,
{
    match spec_parse_paren_from(toks, 0) {
        Err(e) => Err(e),
        Ok(units) => match spec_parse_func(units) {
            Err(e) => Err(e),
            Ok(resolved) => spec_parse_rest(resolved),
        },
    }
}

/// Whether a token sequence, entered at nesting level `depth`, keeps the
/// level nonnegative throughout and ends at exactly zero.
pub open spec fn balanced_at(s: Seq<Token>, depth: int) -> bool
    decreases s.len(),
{
    if s.len() == 0 {
        depth == 0
    } else {
        match s[0] {
            Token::LParen => balanced_at(s.skip(1), depth + 1),
            Token::RParen => depth >= 1 && balanced_at(s.skip(1), depth - 1),
            _ => balanced_at(s.skip(1), depth),
        }
    }
}

/// Whether the parentheses of a token sequence balance.
pub open spec fn balanced(s: Seq<Token>) -> bool {
    balanced_at(s, 0)
}

/// `balanced_at`, carried over to token views.
pub open spec fn balanced_views_at(tv: Seq<TokenView>, depth: int) -> bool
    decreases tv.len(),
{
    if tv.len() == 0 {
        depth == 0
    } else {
        match tv[0] {
            TokenView::LParen => balanced_views_at(tv.skip(1), depth + 1),
            TokenView::RParen => depth >= 1 && balanced_views_at(tv.skip(1), depth - 1),
            _ => balanced_views_at(tv.skip(1), depth),
        }
    }
}

proof fn lemma_balanced_views_transfer(toks: Seq<Token>, d: int)
    ensures
        balanced_at(toks, d) == balanced_views_at(token_views(toks), d),
    decreases toks.len(),
{
    if toks.len() > 0 {
        assert(token_views(toks)[0] == toks[0]@);
        assert(token_views(toks).skip(1) =~= token_views(toks.skip(1)));
        match toks[0] {
            Token::LParen => {
                lemma_balanced_views_transfer(toks.skip(1), d + 1);
            },
            Token::RParen => {
                lemma_balanced_views_transfer(toks.skip(1), d - 1);
            },
            _ => {
                lemma_balanced_views_transfer(toks.skip(1), d);
            },
        }
    } else {
        assert(token_views(toks).len() == 0);
    }
}

proof fn lemma_lex_balance(s: Seq<char>, var: Seq<char>, d: int)
    ensures
        balanced_views_at(lex(s, var), d) == char_balanced_at(s, d),
    decreases s.len(),
{
    if s.len() == 0 {
    } else if is_digit(s[0]) {
        lemma_num_run_len_le(s);
        let n = num_run_len(s) as int;
        assert(n >= 1);
        lemma_num_run_chars(s);
        assert forall|k: int| 0 <= k < n implies (s[k] != '(' && s[k] != ')') by {
            assert(is_num_char(s[k]));
        }
        lemma_nonparen_run_balance(s, n, d);
        lemma_lex_balance(s.skip(n), var, d);
        assert((seq![TokenView::Number(s.take(n))] + lex(s.skip(n), var)).skip(1) =~= lex(
            s.skip(n),
            var,
        ));
    } else if is_alpha(s[0]) {
        lemma_ident_run_len_le(s);
        let n = ident_run_len(s) as int;
        assert(n >= 1);
        lemma_ident_run_chars(s);
        assert forall|k: int| 0 <= k < n implies (s[k] != '(' && s[k] != ')') by {
            assert(is_alpha(s[k]));
        }
        lemma_nonparen_run_balance(s, n, d);
        lemma_lex_balance(s.skip(n), var, d);
        assert((seq![crate::lexer::ident_token(s.take(n), var)] + lex(s.skip(n), var)).skip(1)
            =~= lex(s.skip(n), var));
    } else {
        if s[0] == '(' {
            lemma_lex_balance(s.skip(1), var, d + 1);
            assert((seq![TokenView::LParen] + lex(s.skip(1), var)).skip(1) =~= lex(
                s.skip(1),
                var,
            ));
        } else if s[0] == ')' {
            lemma_lex_balance(s.skip(1), var, d - 1);
            assert((seq![TokenView::RParen] + lex(s.skip(1), var)).skip(1) =~= lex(
                s.skip(1),
                var,
            ));
        } else {
            lemma_nonparen_run_balance(s, 1, d);
            lemma_lex_balance(s.skip(1), var, d);
            if s[0] == '+' {
                assert((seq![TokenView::Add] + lex(s.skip(1), var)).skip(1) =~= lex(
                    s.skip(1),
                    var,
                ));
            } else if s[0] == '-' {
                assert((seq![TokenView::Sub] + lex(s.skip(1), var)).skip(1) =~= lex(
                    s.skip(1),
                    var,
                ));
            } else if s[0] == '*' {
                assert((seq![TokenView::Mul] + lex(s.skip(1), var)).skip(1) =~= lex(
                    s.skip(1),
                    var,
                ));
            } else if s[0] == '/' {
                assert((seq![TokenView::Div] + lex(s.skip(1), var)).skip(1) =~= lex(
                    s.skip(1),
                    var,
                ));
            } else if s[0] == '^' {
                assert((seq![TokenView::Pow] + lex(s.skip(1), var)).skip(1) =~= lex(
                    s.skip(1),
                    var,
                ));
            }
        }
    }
}

/// Tokenizing preserves parenthesis structure: the token stream of a text
/// balances exactly when the text's parenthesis characters balance.
pub proof fn lemma_tokens_balance_matches_input(toks: Seq<Token>, s: Seq<char>, var: Seq<char>)
    requires
        token_views(toks) == lex(s, var),
    ensures
        balanced(toks) == char_balanced(s),
{
    lemma_balanced_views_transfer(toks, 0);
    lemma_lex_balance(s, var, 0);
}

/// Inserting one unmatched parenthesis character anywhere into a text
/// whose parentheses balance makes every parse of its token stream fail.
pub proof fn lemma_inserted_paren_fails(
    a: Seq<char>,
    b: Seq<char>,
    c: char,
    var: Seq<char>,
    toks: Seq<Token>,
)
    requires
        c == '(' || c == ')',
        char_balanced(a + b),
        token_views(toks) == lex(a + seq![c] + b, var),
    ensures
        spec_parse_fully(toks) is Err,
{
    lemma_inserted_paren_unbalances(a, b, c);
    lemma_tokens_balance_matches_input(toks, a + seq![c] + b, var);
    lemma_unbalanced_parens_fail(toks);
}

proof fn lemma_close_some_of_balanced(toks: Seq<Token>, a: int, d: int)
    requires
        0 <= a <= toks.len(),
        1 <= d,
        balanced_at(toks.skip(a), d),
    ensures
        close_from(toks, a, d) is Some,
    decreases toks.len() - a,
{
    let suf = toks.skip(a);
    if a >= toks.len() {
        assert(false);
    } else {
        assert(suf[0] == toks[a]);
        assert(suf.skip(1) =~= toks.skip(a + 1));
        match toks[a] {
            Token::RParen => {
                if d != 1 {
                    lemma_close_some_of_balanced(toks, a + 1, d - 1);
                }
            },
            Token::LParen => {
                lemma_close_some_of_balanced(toks, a + 1, d + 1);
            },
            _ => {
                lemma_close_some_of_balanced(toks, a + 1, d);
            },
        }
    }
}

proof fn lemma_close_balance_transfer(toks: Seq<Token>, a: int, d: int)
    requires
        0 <= a,
        1 <= d,
        close_from(toks, a, d) is Some,
    ensures
        match close_from(toks, a, d) {
            Some(j) => balanced_at(toks.skip(a), d) == balanced_at(toks.skip(j + 1), 0),
            None => true,
        },
    decreases toks.len() - a,
{
    let suf = toks.skip(a);
    if a < toks.len() {
        assert(suf[0] == toks[a]);
        assert(suf.skip(1) =~= toks.skip(a + 1));
        match toks[a] {
            Token::RParen => {
                if d != 1 {
                    lemma_close_balance_transfer(toks, a + 1, d - 1);
                }
            },
            Token::LParen => {
                lemma_close_balance_transfer(toks, a + 1, d + 1);
            },
            _ => {
                lemma_close_balance_transfer(toks, a + 1, d);
            },
        }
    }
}

proof fn lemma_close_group_balanced(toks: Seq<Token>, a: int, d: int)
    requires
        0 <= a,
        1 <= d,
        close_from(toks, a, d) is Some,
    ensures
        match close_from(toks, a, d) {
            Some(j) => balanced_at(toks.subrange(a, j), d - 1),
            None => true,
        },
    decreases toks.len() - a,
{
    if a < toks.len() {
        lemma_close_from_range(toks, a, d);
        match close_from(toks, a, d) {
            Some(j) => {
                let cur = toks.subrange(a, j);
                match toks[a] {
                    Token::RParen => {
                        if d == 1 {
                            assert(cur.len() == 0);
                        } else {
                            lemma_close_from_range(toks, a + 1, d - 1);
                            lemma_close_group_balanced(toks, a + 1, d - 1);
                            assert(cur[0] == toks[a]);
                            assert(cur.skip(1) =~= toks.subrange(a + 1, j));
                        }
                    },
                    Token::LParen => {
                        lemma_close_from_range(toks, a + 1, d + 1);
                        lemma_close_group_balanced(toks, a + 1, d + 1);
                        assert(cur[0] == toks[a]);
                        assert(cur.skip(1) =~= toks.subrange(a + 1, j));
                    },
                    _ => {
                        lemma_close_from_range(toks, a + 1, d);
                        lemma_close_group_balanced(toks, a + 1, d);
                        assert(cur[0] == toks[a]);
                        assert(cur.skip(1) =~= toks.subrange(a + 1, j));
                    },
                }
            },
            None => {},
        }
    }
}

proof fn lemma_unbalanced_paren_from(toks: Seq<Token>, i: int)
    requires
        0 <= i <= toks.len(),
        !balanced_at(toks.skip(i), 0),
    ensures
        spec_parse_paren_from(toks, i) is Err,
    decreases toks.len() - i,
{
    let suf = toks.skip(i);
    if i >= toks.len() {
        assert(false);
    } else {
        assert(suf[0] == toks[i]);
        assert(suf.skip(1) =~= toks.skip(i + 1));
        match toks[i] {
            Token::LParen => {
                match close_from(toks, i + 1, 1) {
                    None => {},
                    Some(j) => {
                        lemma_close_from_range(toks, i + 1, 1);
                        lemma_close_balance_transfer(toks, i + 1, 1);
                        lemma_unbalanced_paren_from(toks, j + 1);
                    },
                }
            },
            Token::RParen => {},
            _ => {
                lemma_unbalanced_paren_from(toks, i + 1);
            },
        }
    }
}

/// Parentheses that do not balance make every parse fail: no expression
/// tree comes out of a token sequence whose nesting goes negative or
/// never returns to zero.
pub proof fn lemma_unbalanced_parens_fail(toks: Seq<Token>)
    requires
        !balanced(toks),
    ensures
        spec_parse_fully(toks) is Err,
{
    assert(toks.skip(0) =~= toks);
    lemma_unbalanced_paren_from(toks, 0);
}

proof fn lemma_func_from_no_uneven(units: Seq<NodeToken>, i: int)
    requires
        0 <= i,
    ensures
        spec_parse_func_from(units, i) != Err::<Seq<NodeToken>, ParseError>(
            ParseError::UnevenParentheses,
        ),
    decreases units.len() - i,
{
    if i < units.len() {
        lemma_func_from_no_uneven(units, i + 1);
        if i + 2 <= units.len() {
            lemma_func_from_no_uneven(units, i + 2);
        }
    }
}

proof fn lemma_rest_no_uneven(units: Seq<NodeToken>)
    ensures
        spec_parse_rest(units) != Err::<Node, ParseError>(ParseError::UnevenParentheses),
    decreases units.len(),
{
    if units.len() > 1 {
        match addsub_split_from(units, 1) {
            Some(i) => {
                lemma_addsub_split_range(units, 1);
                lemma_rest_no_uneven(units.subrange(0, i));
                lemma_rest_no_uneven(units.subrange(i + 1, units.len() as int));
            },
            None => match muldiv_split_from(units, 1) {
                Some(i) => {
                    lemma_muldiv_split_range(units, 1);
                    lemma_rest_no_uneven(units.subrange(0, i));
                    lemma_rest_no_uneven(units.subrange(i + 1, units.len() as int));
                },
                None => {
                    if units[0] matches NodeToken::Token(Token::Sub) {
                        lemma_rest_no_uneven(units.skip(1));
                    } else {
                        match pow_split_from(units, 1) {
                            Some(i) => {
                                lemma_pow_split_range(units, 1);
                                lemma_rest_no_uneven(units.subrange(0, i));
                                lemma_rest_no_uneven(
                                    units.subrange(i + 1, units.len() as int),
                                );
                            },
                            None => {},
                        }
                    }
                },
            },
        }
    }
}

proof fn lemma_balanced_paren_from_no_uneven(toks: Seq<Token>, i: int)
    requires
        0 <= i,
        balanced_at(toks.skip(i), 0),
    ensures
        spec_parse_paren_from(toks, i) != Err::<Seq<NodeToken>, ParseError>(
            ParseError::UnevenParentheses,
        ),
    decreases toks.len() - i, 0int,
{
    let suf = toks.skip(i);
    if i < toks.len() {
        assert(suf[0] == toks[i]);
        assert(suf.skip(1) =~= toks.skip(i + 1));
        match toks[i] {
            Token::LParen => {
                lemma_close_some_of_balanced(toks, i + 1, 1);
                match close_from(toks, i + 1, 1) {
                    None => {
                        assert(false);
                    },
                    Some(j) => {
                        lemma_close_from_range(toks, i + 1, 1);
                        lemma_close_group_balanced(toks, i + 1, 1);
                        lemma_balanced_fully_no_uneven(toks.subrange(i + 1, j));
                        lemma_close_balance_transfer(toks, i + 1, 1);
                        lemma_balanced_paren_from_no_uneven(toks, j + 1);
                    },
                }
            },
            Token::RParen => {
                assert(false);
            },
            _ => {
                lemma_balanced_paren_from_no_uneven(toks, i + 1);
            },
        }
    }
}

/// The `UnevenParentheses` failure is reserved for parenthesis trouble: a
/// token sequence whose parentheses balance never fails with it, at any
/// nesting level.
pub proof fn lemma_balanced_fully_no_uneven(toks: Seq<Token>)
    requires
        balanced(toks),
    ensures
        spec_parse_fully(toks) != Err::<Node, ParseError>(ParseError::UnevenParentheses),
    decreases toks.len(), 1int,
{
    assert(toks.skip(0) =~= toks);
    lemma_balanced_paren_from_no_uneven(toks, 0);
    match spec_parse_paren_from(toks, 0) {
        Err(_) => {},
        Ok(units) => {
            lemma_func_from_no_uneven(units, 0);
            match spec_parse_func_from(units, 0) {
                Err(_) => {},
                Ok(resolved) => {
                    lemma_rest_no_uneven(resolved);
                },
            }
        },
    }
}

/// An `UnevenParentheses` failure proves the parentheses unbalanced.
pub proof fn lemma_uneven_error_implies_unbalanced(toks: Seq<Token>)
    requires
        spec_parse_fully(toks) == Err::<Node, ParseError>(ParseError::UnevenParentheses),
    ensures
        !balanced(toks),
{
    if balanced(toks) {
        lemma_balanced_fully_no_uneven(toks);
    }
}

proof fn lemma_paren_from_shrinks(toks: Seq<Token>, i: int)
    requires
        0 <= i <= toks.len(),
    ensures
        match spec_parse_paren_from(toks, i) {
            Ok(units) => units.len() <= toks.len() - i,
            Err(_) => true,
        },
    decreases toks.len() - i,
{
    if i < toks.len() {
        match toks[i] {
            Token::LParen => {
                match close_from(toks, i + 1, 1) {
                    None => {},
                    Some(j) => {
                        lemma_close_from_range(toks, i + 1, 1);
                        lemma_paren_from_shrinks(toks, j + 1);
                    },
                }
            },
            Token::RParen => {},
            _ => {
                lemma_paren_from_shrinks(toks, i + 1);
            },
        }
    }
}

/// The parenthesis pass never grows its sequence: it hands back at most
/// as many units as it was given tokens.
pub proof fn lemma_paren_pass_shrinks(toks: Seq<Token>)
    ensures
        match spec_parse_paren(toks) {
            Ok(units) => units.len() <= toks.len(),
            Err(_) => true,
        },
{
    lemma_paren_from_shrinks(toks, 0);
}

proof fn lemma_func_from_shrinks(units: Seq<NodeToken>, i: int)
    requires
        0 <= i <= units.len(),
    ensures
        match spec_parse_func_from(units, i) {
            Ok(r) => r.len() <= units.len() - i,
            Err(_) => true,
        },
    decreases units.len() - i,
{
    if i < units.len() {
        lemma_func_from_shrinks(units, i + 1);
        if i + 2 <= units.len() {
            lemma_func_from_shrinks(units, i + 2);
        }
    }
}

/// The function pass never grows its sequence: it hands back at most as
/// many units as it was given.
pub proof fn lemma_func_pass_shrinks(units: Seq<NodeToken>)
    ensures
        match spec_parse_func(units) {
            Ok(r) => r.len() <= units.len(),
            Err(_) => true,
        },
{
    lemma_func_from_shrinks(units, 0);
}

/// The view of a pass result: the returned units as a sequence.
pub open spec fn units_result_view(r: Result<Vec<NodeToken>, ParseError>) -> Result<
    Seq<NodeToken>,
    ParseError,
> {
    match r {
        Ok(v) => Ok(v@),
        Err(e) => Err(e),
    }
}

proof fn lemma_paren_step(
    sv: Seq<Token>,
    i: int,
    j: int,
    prev: Seq<NodeToken>,
    cur: Seq<NodeToken>,
    x: NodeToken,
)
    requires
        cur == prev.push(x),
        (match spec_parse_paren_from(sv, i) {
            Ok(rest) => spec_parse_paren_from(sv, 0) == Ok::<Seq<NodeToken>, ParseError>(
                prev + rest,
            ),
            Err(e) => spec_parse_paren_from(sv, 0) == Err::<Seq<NodeToken>, ParseError>(e),
        }),
        spec_parse_paren_from(sv, i) == (match spec_parse_paren_from(sv, j) {
            Ok(rest) => Ok::<Seq<NodeToken>, ParseError>(seq![x] + rest),
            Err(e) => Err::<Seq<NodeToken>, ParseError>(e),
        }),
    ensures
        (match spec_parse_paren_from(sv, j) {
            Ok(rest) => spec_parse_paren_from(sv, 0) == Ok::<Seq<NodeToken>, ParseError>(
                cur + rest,
            ),
            Err(e) => spec_parse_paren_from(sv, 0) == Err::<Seq<NodeToken>, ParseError>(e),
        }),
{
    match spec_parse_paren_from(sv, j) {
        Ok(rest) => {
            assert(prev + (seq![x] + rest) =~= prev.push(x) + rest);
        },
        Err(_) => {},
    }
}

proof fn lemma_func_step(
    sv: Seq<NodeToken>,
    i: int,
    j: int,
    prev: Seq<NodeToken>,
    cur: Seq<NodeToken>,
    x: NodeToken,
)
    requires
        cur == prev.push(x),
        (match spec_parse_func_from(sv, i) {
            Ok(rest) => spec_parse_func_from(sv, 0) == Ok::<Seq<NodeToken>, ParseError>(
                prev + rest,
            ),
            Err(e) => spec_parse_func_from(sv, 0) == Err::<Seq<NodeToken>, ParseError>(e),
        }),
        spec_parse_func_from(sv, i) == (match spec_parse_func_from(sv, j) {
            Ok(rest) => Ok::<Seq<NodeToken>, ParseError>(seq![x] + rest),
            Err(e) => Err::<Seq<NodeToken>, ParseError>(e),
        }),
    ensures
        (match spec_parse_func_from(sv, j) {
            Ok(rest) => spec_parse_func_from(sv, 0) == Ok::<Seq<NodeToken>, ParseError>(
                cur + rest,
            ),
            Err(e) => spec_parse_func_from(sv, 0) == Err::<Seq<NodeToken>, ParseError>(e),
        }),
{
    match spec_parse_func_from(sv, j) {
        Ok(rest) => {
            assert(prev + (seq![x] + rest) =~= prev.push(x) + rest);
        },
        Err(_) => {},
    }
}

fn op_token(t: &Token) -> (r: bool)
    ensures
        r == is_op_token(*t),
{
    matches!(t, Token::Add | Token::Sub | Token::Mul | Token::Div | Token::Pow)
}

fn func_token(t: &Token) -> (r: bool)
    ensures
        r == is_func_token(*t),
{
    matches!(
        t,
        Token::Ln | Token::Log | Token::Sin | Token::Cos | Token::Tan | Token::Arcsin
        | Token::Arccos | Token::Arctan | Token::Sqrt
    )
}

fn apply_func(t: &Token, arg: Node) -> (n: Node)
    requires
        is_func_token(*t),
    ensures
        n == func_node(*t, arg),
{
    match t {
        Token::Ln => Node::Ln(Box::new(arg)),
        Token::Log => Node::Log(Box::new(arg)),
        Token::Sin => Node::Sin(Box::new(arg)),
        Token::Cos => Node::Cos(Box::new(arg)),
        Token::Tan => Node::Tan(Box::new(arg)),
        Token::Arcsin => Node::Arcsin(Box::new(arg)),
        Token::Arccos => Node::Arccos(Box::new(arg)),
        Token::Arctan => Node::Arctan(Box::new(arg)),
        Token::Sqrt => Node::Sqrt(Box::new(arg)),
        _ => vstd::pervasive::unreached(),
    }
}

fn find_close(tokens: &[Token], start: usize) -> (r: Option<usize>)
    requires
        start <= tokens@.len(),
    ensures
        match r {
            Some(j) => close_from(tokens@, start as int, 1) == Some(j as int),
            None => close_from(tokens@, start as int, 1) == None::<int>,
        },
{
    let mut j = start;
    let mut depth: u128 = 1;
    while j < tokens.len()
        invariant
            start <= j <= tokens@.len(),
            1 <= depth,
            depth <= j - start + 1,
            close_from(tokens@, start as int, 1) == close_from(tokens@, j as int, depth as int),
        decreases tokens@.len() - j,
    {
        match &tokens[j] {
            Token::RParen => {
                if depth == 1 {
                    return Some(j);
                }
                depth = depth - 1;
            },
            Token::LParen => {
                depth = depth + 1;
            },
            _ => {},
        }
        j = j + 1;
    }
    None
}

/// Resolves every balanced parenthesis group, through the whole pipeline,
/// to one node; tokens outside any group pass through in order. Fails
/// with `UnevenParentheses` when the nesting goes negative or never
/// returns to zero.
pub fn parse_paren(tokens: &[Token]) -> (r: Result<Vec<NodeToken>, ParseError>)
    ensures
        units_result_view(r) == spec_parse_paren(tokens@),
    decreases tokens@.len(), 0int,
{
    let ghost sv = tokens@;
    let mut res: Vec<NodeToken> = Vec::new();
    let mut i: usize = 0;
    proof {
        match spec_parse_paren_from(sv, 0) {
            Ok(rest) => {
                assert(res@ + rest =~= rest);
            },
            Err(_) => {},
        }
    }
    while i < tokens.len()
        invariant
            i <= sv.len(),
            sv == tokens@,
            (match spec_parse_paren_from(sv, i as int) {
                Ok(rest) => spec_parse_paren_from(sv, 0) == Ok::<Seq<NodeToken>, ParseError>(
                    res@ + rest,
                ),
                Err(e) => spec_parse_paren_from(sv, 0) == Err::<Seq<NodeToken>, ParseError>(e),
            }),
        decreases sv.len() - i,
    {
        let ghost prev = res@;
        match &tokens[i] {
            Token::LParen => {
                match find_close(tokens, i + 1) {
                    None => {
                        return Err(ParseError::UnevenParentheses);
                    },
                    Some(j) => {
                        proof {
                            lemma_close_from_range(sv, i as int + 1, 1);
                        }
                        let sub = parse_fully_slice(&tokens[i + 1..j]);
                        match sub {
                            Err(e) => {
                                return Err(e);
                            },
                            Ok(node) => {
                                let ghost x = NodeToken::Node(node);
                                res.push(NodeToken::Node(node));
                                proof {
                                    lemma_paren_step(
                                        sv,
                                        i as int,
                                        j as int + 1,
                                        prev,
                                        res@,
                                        x,
                                    );
                                }
                                i = j + 1;
                            },
                        }
                    },
                }
            },
            Token::RParen => {
                return Err(ParseError::UnevenParentheses);
            },
            _ => {
                let t = tokens[i].clone();
                let ghost x = NodeToken::Token(t);
                res.push(NodeToken::Token(t));
                proof {
                    lemma_paren_step(sv, i as int, i as int + 1, prev, res@, x);
                }
                i = i + 1;
            },
        }
    }
    proof {
        match spec_parse_paren_from(sv, i as int) {
            Ok(rest) => {
                assert(res@ + rest =~= res@);
            },
            Err(_) => {},
        }
    }
    Ok(res)
}

/// Binds each function keyword to the resolved node directly after it;
/// every other unit passes through in order. Fails with
/// `MissingFunctionArgument` when a keyword is last or is not followed by
/// a resolved node.
pub fn parse_func(tokens: &[NodeToken]) -> (r: Result<Vec<NodeToken>, ParseError>)
    ensures
        units_result_view(r) == spec_parse_func(tokens@),
{
    let ghost sv = tokens@;
    let mut res: Vec<NodeToken> = Vec::new();
    let mut i: usize = 0;
    proof {
        match spec_parse_func_from(sv, 0) {
            Ok(rest) => {
                assert(res@ + rest =~= rest);
            },
            Err(_) => {},
        }
    }
    while i < tokens.len()
        invariant
            i <= sv.len(),
            sv == tokens@,
            (match spec_parse_func_from(sv, i as int) {
                Ok(rest) => spec_parse_func_from(sv, 0) == Ok::<Seq<NodeToken>, ParseError>(
                    res@ + rest,
                ),
                Err(e) => spec_parse_func_from(sv, 0) == Err::<Seq<NodeToken>, ParseError>(e),
            }),
        decreases sv.len() - i,
    {
        let ghost prev = res@;
        let is_fn = match &tokens[i] {
            NodeToken::Token(t) => func_token(t),
            _ => false,
        };
        if is_fn {
            if i + 1 >= tokens.len() {
                return Err(ParseError::MissingFunctionArgument);
            }
            match &tokens[i + 1] {
                NodeToken::Node(arg) => {
                    let t = match &tokens[i] {
                        NodeToken::Token(t) => t,
                        _ => vstd::pervasive::unreached(),
                    };
                    let bound = apply_func(t, arg.clone());
                    let ghost x = NodeToken::Node(bound);
                    res.push(NodeToken::Node(bound));
                    proof {
                        lemma_func_step(sv, i as int, i as int + 2, prev, res@, x);
                    }
                    i = i + 2;
                },
                NodeToken::Token(_) => {
                    return Err(ParseError::MissingFunctionArgument);
                },
            }
        } else {
            let x = tokens[i].clone();
            let ghost xg = x;
            res.push(x);
            proof {
                lemma_func_step(sv, i as int, i as int + 1, prev, res@, xg);
            }
            i = i + 1;
        }
    }
    proof {
        match spec_parse_func_from(sv, i as int) {
            Ok(rest) => {
                assert(res@ + rest =~= res@);
            },
            Err(_) => {},
        }
    }
    Ok(res)
}

fn find_addsub_split(units: &[NodeToken]) -> (r: Option<usize>)
    ensures
        match r {
            Some(j) => addsub_split_from(units@, 1) == Some(j as int),
            None => addsub_split_from(units@, 1) == None::<int>,
        },
{
    let mut i: usize = 1;
    while i < units.len()
        invariant
            1 <= i,
            addsub_split_from(units@, 1) == addsub_split_from(units@, i as int),
        decreases units@.len() - i,
    {
        match &units[i] {
            NodeToken::Token(t) => {
                match t {
                    Token::Add => {
                        return Some(i);
                    },
                    Token::Sub => {
                        let blocked = match &units[i - 1] {
                            NodeToken::Token(p) => op_token(p),
                            _ => false,
                        };
                        if !blocked {
                            return Some(i);
                        }
                    },
                    _ => {},
                }
            },
            _ => {},
        }
        i = i + 1;
    }
    None
}

fn find_muldiv_split(units: &[NodeToken]) -> (r: Option<usize>)
    ensures
        match r {
            Some(j) => muldiv_split_from(units@, 1) == Some(j as int),
            None => muldiv_split_from(units@, 1) == None::<int>,
        },
{
    let mut i: usize = 1;
    while i < units.len()
        invariant
            1 <= i,
            muldiv_split_from(units@, 1) == muldiv_split_from(units@, i as int),
        decreases units@.len() - i,
    {
        match &units[i] {
            NodeToken::Token(Token::Mul) => {
                return Some(i);
            },
            NodeToken::Token(Token::Div) => {
                return Some(i);
            },
            _ => {},
        }
        i = i + 1;
    }
    None
}

fn find_pow_split(units: &[NodeToken]) -> (r: Option<usize>)
    ensures
        match r {
            Some(j) => pow_split_from(units@, 1) == Some(j as int),
            None => pow_split_from(units@, 1) == None::<int>,
        },
{
    let mut i: usize = 1;
    while i < units.len()
        invariant
            1 <= i,
            pow_split_from(units@, 1) == pow_split_from(units@, i as int),
        decreases units@.len() - i,
    {
        match &units[i] {
            NodeToken::Token(Token::Pow) => {
                return Some(i);
            },
            _ => {},
        }
        i = i + 1;
    }
    None
}

/// The precedence pass: resolves a unit sequence to one node by splitting
/// at the first additive operator, else the first multiplicative one, else
/// a leading minus, else the first power operator; a single leaf resolves
/// directly. Fails with `InvalidExpression` otherwise.
pub fn parse_rest(units: &[NodeToken]) -> (r: Result<Node, ParseError>)
    ensures
        r == spec_parse_rest(units@),
    decreases units@.len(),
{
    if units.len() == 0 {
        return Err(ParseError::InvalidExpression);
    }
    if units.len() == 1 {
        return match &units[0] {
            NodeToken::Token(t) => match t {
                Token::Number(s) => Ok(Node::Number(s.clone())),
                Token::Variable(s) => Ok(Node::Variable(s.clone())),
                Token::Constant(s) => Ok(Node::Constant(s.clone())),
                Token::EConstant => Ok(Node::EConstant),
                _ => Err(ParseError::InvalidExpression),
            },
            NodeToken::Node(n) => Ok(n.clone()),
        };
    }
    match find_addsub_split(units) {
        Some(i) => {
            proof {
                lemma_addsub_split_range(units@, 1);
            }
            let left = match parse_rest(&units[0..i]) {
                Ok(n) => n,
                Err(e) => {
                    return Err(e);
                },
            };
            let right = match parse_rest(&units[i + 1..units.len()]) {
                Ok(n) => n,
                Err(e) => {
                    return Err(e);
                },
            };
            if matches!(&units[i], NodeToken::Token(Token::Add)) {
                Ok(Node::Add(Box::new(left), Box::new(right)))
            } else {
                Ok(Node::Sub(Box::new(left), Box::new(right)))
            }
        },
        None => match find_muldiv_split(units) {
            Some(i) => {
                proof {
                    lemma_muldiv_split_range(units@, 1);
                }
                let left = match parse_rest(&units[0..i]) {
                    Ok(n) => n,
                    Err(e) => {
                        return Err(e);
                    },
                };
                let right = match parse_rest(&units[i + 1..units.len()]) {
                    Ok(n) => n,
                    Err(e) => {
                        return Err(e);
                    },
                };
                if matches!(&units[i], NodeToken::Token(Token::Mul)) {
                    Ok(Node::Mul(Box::new(left), Box::new(right)))
                } else {
                    Ok(Node::Div(Box::new(left), Box::new(right)))
                }
            },
            None => {
                if matches!(&units[0], NodeToken::Token(Token::Sub)) {
                    let inner = match parse_rest(&units[1..units.len()]) {
                        Ok(n) => n,
                        Err(e) => {
                            return Err(e);
                        },
                    };
                    Ok(Node::Neg(Box::new(inner)))
                } else {
                    match find_pow_split(units) {
                        Some(i) => {
                            proof {
                                lemma_pow_split_range(units@, 1);
                            }
                            let left = match parse_rest(&units[0..i]) {
                                Ok(n) => n,
                                Err(e) => {
                                    return Err(e);
                                },
                            };
                            let right = match parse_rest(&units[i + 1..units.len()]) {
                                Ok(n) => n,
                                Err(e) => {
                                    return Err(e);
                                },
                            };
                            Ok(Node::Pow(Box::new(left), Box::new(right)))
                        },
                        None => Err(ParseError::InvalidExpression),
                    }
                }
            },
        },
    }
}

fn parse_fully_slice(tokens: &[Token]) -> (r: Result<Node, ParseError>)
    ensures
        r == spec_parse_fully(tokens@),
    decreases tokens@.len(), 1int,
{
    let units = match parse_paren(tokens) {
        Ok(u) => u,
        Err(e) => {
            return Err(e);
        },
    };
    let resolved = match parse_func(units.as_slice()) {
        Ok(u) => u,
        Err(e) => {
            return Err(e);
        },
    };
    parse_rest(resolved.as_slice())
}

/// Runs the three passes in order and returns the expression tree, or the
/// first failure. The result is a function of the token sequence alone,
/// so parsing the same tokens twice yields equal trees, member by member.
pub fn parse_fully(tokens: &Vec<Token>) -> (r: Result<Node, ParseError>)
    ensures
        r == spec_parse_fully(tokens@),
{
    parse_fully_slice(tokens.as_slice())
}

} // verus!
