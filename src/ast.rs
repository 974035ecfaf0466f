use vstd::prelude::*;
use crate::rational::{Num, Rat};

verus! {

#[derive(Debug, PartialEq, Eq, Clone, Copy)]
pub enum UnaOpcode {
    Factorial,
}

#[derive(Debug, PartialEq, Eq, Clone, Copy)]
pub enum BinOpcode {
    Add,
    Sub,
    Mul,
    Div,
    Exp,
    And,
    Or,
    Xor,
    LShift,
    RShift,
}

/// Whether a literal was written with digits or spelled out in words.
#[derive(Debug, PartialEq, Eq, Clone, Copy)]
pub enum NumSource {
    Digits,
    Words,
}

pub type Expr = Box<Node>;

/// An expression tree; each node owns its children.
#[derive(Debug, PartialEq)]
pub enum Node {
    Number(Num, NumSource),
    Roll(i64, i64),
    Var(String),
    BinOp(BinOpcode, Expr, Expr),
    UnaOp(UnaOpcode, Expr),
    Funcall(String, Vec<Expr>),
    /// A complete expression that did not reach the end of its input.
    BadParse(Expr),
}

/// The mathematical content of a `Node`.
pub enum Tree {
    Number(Rat, NumSource),
    Roll(i64, i64),
    Var(Seq<char>),
    BinOp(BinOpcode, Box<Tree>, Box<Tree>),
    UnaOp(UnaOpcode, Box<Tree>),
    Funcall(Seq<char>, Seq<Tree>),
    BadParse(Box<Tree>),
}

impl View for Node {
    type V = Tree;

    open spec fn view(&self) -> Tree
        decreases self,
    {
        match self {
            Node::Number(n, s) => Tree::Number(n@, *s),
            Node::Roll(n, s) => Tree::Roll(*n, *s),
            Node::Var(v) => Tree::Var(v@),
            Node::BinOp(op, l, r) => Tree::BinOp(*op, Box::new((**l).view()), Box::new((**r).view())),
            Node::UnaOp(op, a) => Tree::UnaOp(*op, Box::new((**a).view())),
            Node::Funcall(f, args) => Tree::Funcall(f@, views_of(args@)),
            Node::BadParse(e) => Tree::BadParse(Box::new((**e).view())),
        }
    }
}

/// The views of a sequence of nodes.
pub open spec fn views_of(s: Seq<Box<Node>>) -> Seq<Tree>
    decreases s,
{
    if s.len() == 0 {
        Seq::empty()
    } else {
        views_of(s.drop_last()).push((*s.last()).view())
    }
}

} // verus!
