//! Operator kinds and the expression tree.
//!
//! `OpType` is the lexical operator: a flat enumeration carrying precedence
//! rank, operand count and the forward/infix distinction.  `Op` is the
//! syntactic tree the builder produces, one node per operator plus a `Number`
//! leaf, each node owning its children.  The two stay separate types on
//! purpose.
use vstd::prelude::*;

verus! {

use crate::rational::{
    Rational,
    Rat,
    rat_add,
    rat_sub,
    rat_mul,
    rat_div,
    rat_rem,
    rat_pow,
    rat_sqrt,
    rat_log,
};

/// A lexical operator.
#[derive(Debug, Clone, Copy, PartialEq, Eq, Structural)]
pub enum OpType {
    Mul,
    Div,
    Add,
    Sub,
    Pow,
    Root,
    Log,
    Mod,
}

impl OpType {
    /// Forward operators precede their operands in the input.
    pub open spec fn spec_is_forward(self) -> bool {
        self is Root || self is Log
    }

    /// Precedence rank: 1 for additive, 2 for multiplicative, 3 for powers.
    pub open spec fn spec_order(self) -> int {
        match self {
            OpType::Pow | OpType::Root | OpType::Log => 3,
            OpType::Mul | OpType::Div | OpType::Mod => 2,
            OpType::Add | OpType::Sub => 1,
        }
    }

    /// How many tokens the operator claims, counting its trailing operands
    /// and, for infix operators, the already-seen left operand.
    pub open spec fn spec_consume_count(self) -> int {
        if self is Root {
            1
        } else {
            2
        }
    }

    /// Whether the operator precedes its operands.
    pub fn is_forward(&self) -> (r: bool)
        ensures
            r == self.spec_is_forward(),
    {
        match self {
            OpType::Root => true,
            OpType::Log => true,
            _ => false,
        }
    }

    /// The precedence rank; see `spec_order`.
    pub fn get_order(&self) -> (r: u8)
        ensures
            r as int == self.spec_order(),
    {
        match self {
            OpType::Pow | OpType::Root | OpType::Log => 3,
            OpType::Mul | OpType::Div | OpType::Mod => 2,
            OpType::Add | OpType::Sub => 1,
        }
    }

    /// The claimed token count; see `spec_consume_count`.
    pub fn get_consume_count(&self) -> (r: u8)
        ensures
            r as int == self.spec_consume_count(),
    {
        match self {
            OpType::Root => 1,
            _ => 2,
        }
    }
}

/// An expression tree node.
#[derive(Debug, PartialEq)]
pub enum Op {
    Mul(Box<Op>, Box<Op>),
    Div(Box<Op>, Box<Op>),
    Add(Box<Op>, Box<Op>),
    Sub(Box<Op>, Box<Op>),
    Pow(Box<Op>, Box<Op>),
    Mod(Box<Op>, Box<Op>),
    Root(Box<Op>),
    Log(Box<Op>, Box<Op>),
    Number(Rational),
}

/// The mathematical shape of an expression tree.
pub enum OpV {
    Mul(Box<OpV>, Box<OpV>),
    Div(Box<OpV>, Box<OpV>),
    Add(Box<OpV>, Box<OpV>),
    Sub(Box<OpV>, Box<OpV>),
    Pow(Box<OpV>, Box<OpV>),
    Mod(Box<OpV>, Box<OpV>),
    Root(Box<OpV>),
    Log(Box<OpV>, Box<OpV>),
    Number(Rat),
}

/// The shape of a tree, node by node.
pub open spec fn op_view(op: Op) -> OpV
    decreases op,
{
    match op {
        Op::Mul(x, y) => OpV::Mul(Box::new(op_view(*x)), Box::new(op_view(*y))),
        Op::Div(x, y) => OpV::Div(Box::new(op_view(*x)), Box::new(op_view(*y))),
        Op::Add(x, y) => OpV::Add(Box::new(op_view(*x)), Box::new(op_view(*y))),
        Op::Sub(x, y) => OpV::Sub(Box::new(op_view(*x)), Box::new(op_view(*y))),
        Op::Pow(x, y) => OpV::Pow(Box::new(op_view(*x)), Box::new(op_view(*y))),
        Op::Mod(x, y) => OpV::Mod(Box::new(op_view(*x)), Box::new(op_view(*y))),
        Op::Root(x) => OpV::Root(Box::new(op_view(*x))),
        Op::Log(x, y) => OpV::Log(Box::new(op_view(*x)), Box::new(op_view(*y))),
        Op::Number(x) => OpV::Number(x@),
    }
}

impl View for Op {
    type V = OpV;

    open spec fn view(&self) -> OpV {
        op_view(*self)
    }
}

/// The value of a tree: children first, then the matching exact operation.
/// A `Log` node holds the base first and the antilogarithm second.
pub open spec fn eval_op(t: OpV) -> Rat
    decreases t,
{
    match t {
        OpV::Number(x) => x,
        OpV::Mul(x, y) => rat_mul(eval_op(*x), eval_op(*y)),
        OpV::Div(x, y) => rat_div(eval_op(*x), eval_op(*y)),
        OpV::Add(x, y) => rat_add(eval_op(*x), eval_op(*y)),
        OpV::Sub(x, y) => rat_sub(eval_op(*x), eval_op(*y)),
        OpV::Pow(x, y) => rat_pow(eval_op(*x), eval_op(*y)),
        OpV::Mod(x, y) => rat_rem(eval_op(*x), eval_op(*y)),
        OpV::Root(x) => rat_sqrt(eval_op(*x)),
        OpV::Log(x, y) => rat_log(eval_op(*y), eval_op(*x)),
    }
}

/// The node kind a tree would get from `from_type`.
pub open spec fn spec_from_type(t: OpType, x: OpV, y: OpV) -> OpV {
    match t {
        OpType::Mul => OpV::Mul(Box::new(x), Box::new(y)),
        OpType::Div => OpV::Div(Box::new(x), Box::new(y)),
        OpType::Add => OpV::Add(Box::new(x), Box::new(y)),
        OpType::Sub => OpV::Sub(Box::new(x), Box::new(y)),
        OpType::Pow => OpV::Pow(Box::new(x), Box::new(y)),
        OpType::Mod => OpV::Mod(Box::new(x), Box::new(y)),
        OpType::Root => OpV::Root(Box::new(x)),
        OpType::Log => OpV::Log(Box::new(x), Box::new(y)),
    }
}

/// A missing operand defaults to the zero leaf.
pub open spec fn opt_or_zero(o: Option<Box<Op>>) -> OpV {
    match o {
        Some(b) => op_view(*b),
        None => OpV::Number(Rat { p: 0, q: 1 }),
    }
}

/// The right child of a tree, where its root has one.
pub open spec fn spec_get_y(t: OpV) -> Option<OpV> {
    match t {
        OpV::Pow(_, y) => Some(*y),
        OpV::Log(_, y) => Some(*y),
        OpV::Mul(_, y) => Some(*y),
        OpV::Div(_, y) => Some(*y),
        OpV::Add(_, y) => Some(*y),
        OpV::Sub(_, y) => Some(*y),
        OpV::Mod(_, y) => Some(*y),
        _ => None,
    }
}

/// The tree with its right child replaced, where its root has one; any other
/// tree is unchanged.
pub open spec fn spec_change_y(t: OpV, new_y: OpV) -> OpV {
    match t {
        OpV::Pow(x, _) => OpV::Pow(x, Box::new(new_y)),
        OpV::Log(x, _) => OpV::Log(x, Box::new(new_y)),
        OpV::Mul(x, _) => OpV::Mul(x, Box::new(new_y)),
        OpV::Div(x, _) => OpV::Div(x, Box::new(new_y)),
        OpV::Add(x, _) => OpV::Add(x, Box::new(new_y)),
        OpV::Sub(x, _) => OpV::Sub(x, Box::new(new_y)),
        OpV::Mod(x, _) => OpV::Mod(x, Box::new(new_y)),
        _ => t,
    }
}

/// The operator at a tree's root, if the root is no leaf.
pub open spec fn spec_get_type(t: OpV) -> Option<OpType> {
    match t {
        OpV::Mul(_, _) => Some(OpType::Mul),
        OpV::Div(_, _) => Some(OpType::Div),
        OpV::Add(_, _) => Some(OpType::Add),
        OpV::Sub(_, _) => Some(OpType::Sub),
        OpV::Pow(_, _) => Some(OpType::Pow),
        OpV::Mod(_, _) => Some(OpType::Mod),
        OpV::Root(_) => Some(OpType::Root),
        OpV::Log(_, _) => Some(OpType::Log),
        OpV::Number(_) => None,
    }
}

/// The precedence rank of a tree's root operator; a leaf ranks zero.
pub open spec fn spec_tree_order(t: OpV) -> int {
    match spec_get_type(t) {
        Some(o) => o.spec_order(),
        None => 0,
    }
}

impl Clone for Op {
    /// A deep copy, equal to the original.
    fn clone(&self) -> (r: Self)
        ensures
            r == *self,
        decreases *self,
    {
        match self {
            Op::Mul(x, y) => Op::Mul(Box::new((&**x).clone()), Box::new((&**y).clone())),
            Op::Div(x, y) => Op::Div(Box::new((&**x).clone()), Box::new((&**y).clone())),
            Op::Add(x, y) => Op::Add(Box::new((&**x).clone()), Box::new((&**y).clone())),
            Op::Sub(x, y) => Op::Sub(Box::new((&**x).clone()), Box::new((&**y).clone())),
            Op::Pow(x, y) => Op::Pow(Box::new((&**x).clone()), Box::new((&**y).clone())),
            Op::Mod(x, y) => Op::Mod(Box::new((&**x).clone()), Box::new((&**y).clone())),
            Op::Root(x) => Op::Root(Box::new((&**x).clone())),
            Op::Log(x, y) => Op::Log(Box::new((&**x).clone()), Box::new((&**y).clone())),
            Op::Number(x) => Op::Number(*x),
        }
    }
}

impl Op {
    /// A node of the given kind over the given children; a missing child
    /// defaults to the zero leaf.
    pub fn from_type(t: OpType, x: Option<Box<Op>>, y: Option<Box<Op>>) -> (r: Self)
        ensures
            r@ == spec_from_type(t, opt_or_zero(x), opt_or_zero(y)),
    {
        let ghost xv = opt_or_zero(x);
        let ghost yv = opt_or_zero(y);
        let xb = match x {
            Some(b) => b,
            None => Box::new(Op::Number(Rational::zero())),
        };
        let yb = match y {
            Some(b) => b,
            None => Box::new(Op::Number(Rational::zero())),
        };
        proof {
            assert(op_view(*xb) == xv);
            assert(op_view(*yb) == yv);
        }
        match t {
            OpType::Mul => Op::Mul(xb, yb),
            OpType::Div => Op::Div(xb, yb),
            OpType::Add => Op::Add(xb, yb),
            OpType::Sub => Op::Sub(xb, yb),
            OpType::Pow => Op::Pow(xb, yb),
            OpType::Mod => Op::Mod(xb, yb),
            OpType::Root => Op::Root(xb),
            OpType::Log => Op::Log(xb, yb),
        }
    }

    /// Evaluates the tree to one exact fraction; see `eval_op`.
    pub fn apply(&self) -> (r: Rational)
        ensures
            r@ == eval_op(self@),
        decreases *self,
    {
        match self {
            Op::Number(x) => *x,
            Op::Mul(x, y) => x.apply().mul(y.apply()),
            Op::Div(x, y) => x.apply().div(y.apply()),
            Op::Add(x, y) => x.apply().add(y.apply()),
            Op::Sub(x, y) => x.apply().sub(y.apply()),
            Op::Pow(x, y) => x.apply().pow(y.apply()),
            Op::Mod(x, y) => x.apply().rem(y.apply()),
            Op::Root(x) => x.apply().sqrt(),
            Op::Log(x, y) => y.apply().log(x.apply()),
        }
    }

    /// The right child, cloned, where the root has one; see `spec_get_y`.
    pub fn get_y(&self) -> (r: Option<Box<Op>>)
        ensures
            match r {
                Some(b) => spec_get_y(self@) == Some(op_view(*b)),
                None => spec_get_y(self@) is None,
            },
    {
        match self {
            Op::Pow(_, y) => Some(y.clone()),
            Op::Log(_, y) => Some(y.clone()),
            Op::Mul(_, y) => Some(y.clone()),
            Op::Div(_, y) => Some(y.clone()),
            Op::Add(_, y) => Some(y.clone()),
            Op::Sub(_, y) => Some(y.clone()),
            Op::Mod(_, y) => Some(y.clone()),
            _ => None,
        }
    }

    /// Replaces the right child where the root has one; see `spec_change_y`.
    pub fn change_y(&mut self, new_y: Box<Op>)
        ensures
            final(self)@ == spec_change_y(old(self)@, op_view(*new_y)),
    {
        match self {
            Op::Pow(_, y) => {
                *y = new_y;
            },
            Op::Log(_, y) => {
                *y = new_y;
            },
            Op::Mul(_, y) => {
                *y = new_y;
            },
            Op::Div(_, y) => {
                *y = new_y;
            },
            Op::Add(_, y) => {
                *y = new_y;
            },
            Op::Sub(_, y) => {
                *y = new_y;
            },
            Op::Mod(_, y) => {
                *y = new_y;
            },
            _ => {},
        }
    }

    /// The operator at the root; see `spec_get_type`.
    pub fn get_type(&self) -> (r: Option<OpType>)
        ensures
            r == spec_get_type(self@),
    {
        match self {
            Op::Mul(_, _) => Some(OpType::Mul),
            Op::Div(_, _) => Some(OpType::Div),
            Op::Add(_, _) => Some(OpType::Add),
            Op::Sub(_, _) => Some(OpType::Sub),
            Op::Pow(_, _) => Some(OpType::Pow),
            Op::Mod(_, _) => Some(OpType::Mod),
            Op::Root(_) => Some(OpType::Root),
            Op::Log(_, _) => Some(OpType::Log),
            Op::Number(_) => None,
        }
    }

    /// The root's precedence rank, zero for a leaf; see `spec_tree_order`.
    pub fn get_order(&self) -> (r: u8)
        ensures
            r as int == spec_tree_order(self@),
    {
        if let Some(o) = self.get_type() {
            o.get_order()
        } else {
            0
        }
    }

    /// Whether the tree is exactly the zero-leaf sentinel the builder starts
    /// from.
    pub fn is_zero_number(&self) -> (r: bool)
        ensures
            r == (self@ == OpV::Number(Rat { p: 0, q: 1 })),
    {
        match self {
            Op::Number(n) => n.num() == 0 && n.den() == 1,
            _ => false,
        }
    }
}

} // verus!
