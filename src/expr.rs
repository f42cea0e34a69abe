//! The expression tree of a dice expression and its leaves.
use vstd::prelude::*;

verus! {

/// A binary operator of the grammar; `Mul` binds tighter than `Add` and
/// `Sub`, and all three associate to the left.
#[derive(Debug, Copy, Clone, PartialEq, Eq, Structural)]
pub enum Op {
    Add,
    Sub,
    Mul,
}

/// A die with a positive number of faces. The roll count and drop counts
/// are carried with their defaults; nothing reads them yet.
#[derive(Debug, Copy, Clone, PartialEq, Eq, Structural)]
pub struct Die {
    edges: u32,
    rolls: u32,
    drop_lowest: u32,
    drop_highest: u32,
}

impl Die {
    #[verifier::type_invariant]
    closed spec fn has_faces(self) -> bool {
        self.edges > 0
    }

    /// The number of faces.
    pub closed spec fn faces(self) -> u32 {
        self.edges
    }

    /// The die with `n` faces and default roll settings.
    pub closed spec fn spec_new(n: u32) -> Die {
        Die { edges: n, rolls: 1, drop_lowest: 0, drop_highest: 0 }
    }

    pub proof fn lemma_new_faces(n: u32)
        ensures
            Die::spec_new(n).faces() == n,
    {
    }

    pub fn new(edges: u32) -> (r: Die)
        requires
            edges > 0,
        ensures
            r == Die::spec_new(edges),
            r.faces() == edges,
    {
        Die { edges, rolls: 1, drop_lowest: 0, drop_highest: 0 }
    }

    pub fn edges(&self) -> (r: u32)
        ensures
            r == self.faces(),
            r > 0,
    {
        proof {
            use_type_invariant(self);
        }
        self.edges
    }
}

/// A leaf operand.
#[derive(Debug, Copy, Clone, PartialEq, Eq, Structural)]
pub enum Val {
    Num(u32),
    Die(Die),
}

/// A binary expression tree; each node owns its children.
#[derive(Debug)]
pub enum Expr {
    Value(Val),
    Expr { op: Op, left: Box<Expr>, right: Box<Expr> },
}

impl Expr {
    /// The tree is a bare die leaf.
    pub open spec fn spec_is_die(self) -> bool {
        self matches Expr::Value(Val::Die(_))
    }

    pub fn is_die(&self) -> (r: bool)
        ensures
            r == self.spec_is_die(),
    {
        if let Expr::Value(Val::Die(_)) = self {
            true
        } else {
            false
        }
    }
}

} // verus!
