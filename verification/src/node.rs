//! Expression tree nodes and the intermediate units the parser works on.

use vstd::prelude::*;
use crate::lexer::Token;

verus! {

/// A node of the expression tree produced by the parser.
///
/// Leaf variants carry the text they were lexed from: a numeric literal
/// keeps its digit run verbatim, a variable or named constant keeps its
/// identifier. Internal variants own their children exclusively, so the
/// tree is free of sharing and cycles by construction.
#[derive(Debug, PartialEq)]
pub enum Node {
    Number(String),
    Variable(String),
    Constant(String),
    EConstant,
    Add(Box<Node>, Box<Node>),
    Sub(Box<Node>, Box<Node>),
    Mul(Box<Node>, Box<Node>),
    Div(Box<Node>, Box<Node>),
    Pow(Box<Node>, Box<Node>),
    Neg(Box<Node>),
    Ln(Box<Node>),
    Log(Box<Node>),
    Sin(Box<Node>),
    Cos(Box<Node>),
    Tan(Box<Node>),
    Arcsin(Box<Node>),
    Arccos(Box<Node>),
    Arctan(Box<Node>),
    Sqrt(Box<Node>),
}

impl Clone for Node {
    /// A clone is equal to the original, member by member.
    fn clone(&self) -> (r: Node)
        ensures
            r == *self,
        decreases self,
    {
        match self {
            Node::Number(s) => Node::Number(s.clone()),
            Node::Variable(s) => Node::Variable(s.clone()),
            Node::Constant(s) => Node::Constant(s.clone()),
            Node::EConstant => Node::EConstant,
            Node::Add(a, b) => Node::Add(Box::new((**a).clone()), Box::new((**b).clone())),
            Node::Sub(a, b) => Node::Sub(Box::new((**a).clone()), Box::new((**b).clone())),
            Node::Mul(a, b) => Node::Mul(Box::new((**a).clone()), Box::new((**b).clone())),
            Node::Div(a, b) => Node::Div(Box::new((**a).clone()), Box::new((**b).clone())),
            Node::Pow(a, b) => Node::Pow(Box::new((**a).clone()), Box::new((**b).clone())),
            Node::Neg(a) => Node::Neg(Box::new((**a).clone())),
            Node::Ln(a) => Node::Ln(Box::new((**a).clone())),
            Node::Log(a) => Node::Log(Box::new((**a).clone())),
            Node::Sin(a) => Node::Sin(Box::new((**a).clone())),
            Node::Cos(a) => Node::Cos(Box::new((**a).clone())),
            Node::Tan(a) => Node::Tan(Box::new((**a).clone())),
            Node::Arcsin(a) => Node::Arcsin(Box::new((**a).clone())),
            Node::Arccos(a) => Node::Arccos(Box::new((**a).clone())),
            Node::Arctan(a) => Node::Arctan(Box::new((**a).clone())),
            Node::Sqrt(a) => Node::Sqrt(Box::new((**a).clone())),
        }
    }
}

/// An intermediate unit of the parser: either a token that is not yet
/// consumed, or a sub-tree that an earlier pass already resolved.
#[derive(Debug, PartialEq)]
pub enum NodeToken {
    Token(Token),
    Node(Node),
}

impl Clone for NodeToken {
    /// A clone is equal to the original, member by member.
    fn clone(&self) -> (r: NodeToken)
        ensures
            r == *self,
    {
        match self {
            NodeToken::Token(t) => NodeToken::Token(t.clone()),
            NodeToken::Node(n) => NodeToken::Node(n.clone()),
        }
    }
}

impl NodeToken {
    /// The resolved sub-tree held by this unit, if it holds one.
    pub fn node(&self) -> (r: Option<Node>)
        ensures
            r == (match *self {
                NodeToken::Node(n) => Some(n),
                NodeToken::Token(_) => None::<Node>,
            }),
    {
        match self {
            NodeToken::Node(node) => Some(node.clone()),
            _ => None,
        }
    }

    /// The unconsumed token held by this unit, if it holds one.
    pub fn token(&self) -> (r: Option<Token>)
        ensures
            r == (match *self {
                NodeToken::Token(t) => Some(t),
                NodeToken::Node(_) => None::<Token>,
            }),
    {
        match self {
            NodeToken::Token(token) => Some(token.clone()),
            _ => None,
        }
    }
}

} // verus!
