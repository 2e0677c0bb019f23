use vstd::prelude::*;

verus! {

/// The four arithmetic operators a math expression can apply.
#[derive(Debug, PartialEq, Eq, Clone, Copy, Structural)]
pub enum Operator {
    Add,
    Div,
    Mul,
    Sub,
}

impl Operator {
    /// Whether the operator takes exactly two operands (every operator does).
    pub fn is_binary(&self) -> (r: bool)
        ensures
            r == true,
    {
        match *self {
            Operator::Add | Operator::Div | Operator::Mul | Operator::Sub => true,
        }
    }
}

/// Mathematical model of an expression tree.
#[verifier::ext_equal]
pub enum Tree {
    Val(i32),
    Expr(Operator, Seq<Tree>),
}

/// An expression tree's node is either a value (a number) or an expression.
#[derive(Debug, PartialEq)]
pub enum ExpressionTreeNode {
    Val(i32),
    Expr(Expression),
}

/// An operator applied to its children.
#[derive(Debug, PartialEq)]
pub struct Expression {
    pub operator: Operator,
    pub children: Vec<ExpressionTreeNode>,
}

impl ExpressionTreeNode {
    /// The tree this node is the root of.
    pub open spec fn tree(&self) -> Tree
        decreases self,
    {
        match self {
            ExpressionTreeNode::Val(v) => Tree::Val(*v),
            ExpressionTreeNode::Expr(e) => Tree::Expr(
                e.operator,
                Seq::new(
                    e.children@.len(),
                    |i: int|
                        if 0 <= i < e.children@.len() {
                            e.children@[i].tree()
                        } else {
                            Tree::Val(0)
                        },
                ),
            ),
        }
    }
}

} // verus!
