use vstd::prelude::*;
use crate::model::Tree;

verus! {

/// An arithmetic expression built from a postfix token sequence: a number
/// literal, or a binary operator applied to a left and a right operand.
#[derive(Debug, PartialEq)]
pub enum Expr {
    Num(String),
    Bin(char, Box<Expr>, Box<Expr>),
}

impl Expr {
    pub open spec fn tree(&self) -> Tree
        decreases self,
    {
        match self {
            Expr::Num(s) => Tree::Leaf(s@),
            Expr::Bin(c, l, r) => Tree::Node(*c, Box::new(l.tree()), Box::new(r.tree())),
        }
    }
}

/// The trees of a sequence of expressions.
pub open spec fn trees(v: Seq<Expr>) -> Seq<Tree> {
    v.map_values(|e: Expr| e.tree())
}

} // verus!
