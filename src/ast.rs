//! Expression trees.
use vstd::prelude::*;

verus! {

/// An expression tree. A leaf keeps the text of its numeric literal.
#[derive(Debug, PartialEq)]
pub enum Node {
    And(Box<Node>, Box<Node>),
    Or(Box<Node>, Box<Node>),
    Add(Box<Node>, Box<Node>),
    Subtract(Box<Node>, Box<Node>),
    Multiply(Box<Node>, Box<Node>),
    Divide(Box<Node>, Box<Node>),
    Caret(Box<Node>, Box<Node>),
    Negative(Box<Node>),
    Number(String),
}

/// The binary operators of the tree.
pub enum BinOp {
    And,
    Or,
    Add,
    Subtract,
    Multiply,
    Divide,
    Caret,
}

/// The mathematical model of an expression tree.
pub enum SpecNode {
    Binary(BinOp, Box<SpecNode>, Box<SpecNode>),
    Negative(Box<SpecNode>),
    Number(Seq<char>),
}

impl Node {
    /// The model of this tree.
    pub open spec fn model(&self) -> SpecNode
        decreases self,
    {
        match self {
            Node::And(a, b) => SpecNode::Binary(BinOp::And, Box::new(a.model()), Box::new(b.model())),
            Node::Or(a, b) => SpecNode::Binary(BinOp::Or, Box::new(a.model()), Box::new(b.model())),
            Node::Add(a, b) => SpecNode::Binary(BinOp::Add, Box::new(a.model()), Box::new(b.model())),
            Node::Subtract(a, b) => SpecNode::Binary(
                BinOp::Subtract,
                Box::new(a.model()),
                Box::new(b.model()),
            ),
            Node::Multiply(a, b) => SpecNode::Binary(
                BinOp::Multiply,
                Box::new(a.model()),
                Box::new(b.model()),
            ),
            Node::Divide(a, b) => SpecNode::Binary(
                BinOp::Divide,
                Box::new(a.model()),
                Box::new(b.model()),
            ),
            Node::Caret(a, b) => SpecNode::Binary(
                BinOp::Caret,
                Box::new(a.model()),
                Box::new(b.model()),
            ),
            Node::Negative(a) => SpecNode::Negative(Box::new(a.model())),
            Node::Number(s) => SpecNode::Number(s@),
        }
    }
}

} // verus!
