//! The syntax tree.
use vstd::prelude::*;

verus! {

pub type Node = Box<Ast>;

#[derive(Debug, PartialEq, Eq)]
pub enum Ast {
    Var(String),
    Num(u64),
    Not(Node),
    App(Node, Node),
    Mul(Node, Node),
    Div(Node, Node),
    Add(Node, Node),
    Sub(Node, Node),
    And(Node, Node),
    Or(Node, Node),
    Eq(Node, Node),
    Neq(Node, Node),
    Abs(String, Node),
    Assign(String, Node),
    Source(Vec<Ast>),
}

/// A syntax tree with names as character sequences.
pub ghost enum Tree {
    Var(Seq<char>),
    Num(u64),
    Not(Box<Tree>),
    App(Box<Tree>, Box<Tree>),
    Mul(Box<Tree>, Box<Tree>),
    Div(Box<Tree>, Box<Tree>),
    Add(Box<Tree>, Box<Tree>),
    Sub(Box<Tree>, Box<Tree>),
    And(Box<Tree>, Box<Tree>),
    Or(Box<Tree>, Box<Tree>),
    Eq(Box<Tree>, Box<Tree>),
    Neq(Box<Tree>, Box<Tree>),
    Abs(Seq<char>, Box<Tree>),
    Assign(Seq<char>, Box<Tree>),
    Source(Seq<Tree>),
}

impl Ast {
    pub open spec fn tree(&self) -> Tree
        decreases self,
    {
        match self {
            Ast::Var(name) => Tree::Var(name@),
            Ast::Num(n) => Tree::Num(*n),
            Ast::Not(e) => Tree::Not(Box::new(e.tree())),
            Ast::App(a, b) => Tree::App(Box::new(a.tree()), Box::new(b.tree())),
            Ast::Mul(a, b) => Tree::Mul(Box::new(a.tree()), Box::new(b.tree())),
            Ast::Div(a, b) => Tree::Div(Box::new(a.tree()), Box::new(b.tree())),
            Ast::Add(a, b) => Tree::Add(Box::new(a.tree()), Box::new(b.tree())),
            Ast::Sub(a, b) => Tree::Sub(Box::new(a.tree()), Box::new(b.tree())),
            Ast::And(a, b) => Tree::And(Box::new(a.tree()), Box::new(b.tree())),
            Ast::Or(a, b) => Tree::Or(Box::new(a.tree()), Box::new(b.tree())),
            Ast::Eq(a, b) => Tree::Eq(Box::new(a.tree()), Box::new(b.tree())),
            Ast::Neq(a, b) => Tree::Neq(Box::new(a.tree()), Box::new(b.tree())),
            Ast::Abs(name, body) => Tree::Abs(name@, Box::new(body.tree())),
            Ast::Assign(name, value) => Tree::Assign(name@, Box::new(value.tree())),
            Ast::Source(stmts) => Tree::Source(
                Seq::new(
                    stmts@.len(),
                    |i: int|
                        if 0 <= i < stmts@.len() {
                            stmts@[i].tree()
                        } else {
                            Tree::Num(0)
                        },
                ),
            ),
        }
    }
}

impl View for Ast {
    type V = Tree;

    open spec fn view(&self) -> Tree {
        self.tree()
    }
}

} // verus!
