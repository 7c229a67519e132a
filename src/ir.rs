use vstd::prelude::*;
use crate::util::{Name, IntKind, Width};

verus! {

/// A variable of the IR: a name and, after renaming into SSA form, a generation.
#[derive(PartialEq, Eq, PartialOrd, Ord, Clone, Copy, Debug, Structural)]
pub struct Var {
    pub name: Name,
    pub generation: Option<usize>,
}

#[derive(PartialEq, Eq, Clone, Copy, Debug, Structural)]
pub enum LitNode {
    NumLit(u64, IntKind),
    /// A string literal, by its interned name.
    StringLit(Name),
    BoolLit(bool),
    NullLit,
}

#[derive(PartialEq, Eq, Clone, Copy, Debug, Structural)]
pub enum RValueElem {
    Variable(Var),
    Constant(LitNode),
}

impl RValueElem {
    pub fn is_variable(&self) -> (r: bool)
        ensures
            r == (*self is Variable),
    {
        match self {
            RValueElem::Variable(_) => true,
            _ => false,
        }
    }
}

#[derive(PartialEq, Eq, Clone, Copy, Debug, Structural)]
pub enum BinOpNode {
    PlusOp,
    MinusOp,
    TimesOp,
    DivideOp,
    ModOp,
    BitAndOp,
    BitOrOp,
    BitXorOp,
    LeftShiftOp,
    RightShiftOp,
    OrElseOp,
    AndAlsoOp,
    LessOp,
    LessEqOp,
    GreaterOp,
    GreaterEqOp,
    EqualsOp,
    NotEqualsOp,
}

#[derive(PartialEq, Eq, Clone, Copy, Debug, Structural)]
pub enum UnOpNode {
    Identity,
    Negate,
    BitNot,
    LogNot,
    Deref,
    AddrOf,
}

/// One operation of the three-address IR.
#[derive(PartialEq, Eq, Debug)]
pub enum Op {
    /// Function head: name, parameters, and whether it is extern.
    Func(Name, Vec<Var>, bool),
    Return(RValueElem),
    /// Destination, operator, operands, and whether the operation is signed.
    BinOp(Var, BinOpNode, RValueElem, RValueElem, bool),
    UnOp(Var, UnOpNode, RValueElem),
    /// Load into the first variable from the address held by the second.
    Load(Var, Var, Width),
    /// Store to the address held by the first variable the value of the second.
    Store(Var, Var, Width),
    Alloca(Var, u32),
    Call(Var, RValueElem, Vec<Var>),
    Label(usize, Vec<Var>),
    Goto(usize, Vec<Var>),
    /// Branch when the condition holds (fails, when negated).
    CondGoto(bool, RValueElem, usize, Vec<Var>),
    Nop,
}

/// The mathematical form of an operation: its variable lists as sequences.
pub enum OpV {
    Func(Name, Seq<Var>, bool),
    Return(RValueElem),
    BinOp(Var, BinOpNode, RValueElem, RValueElem, bool),
    UnOp(Var, UnOpNode, RValueElem),
    Load(Var, Var, Width),
    Store(Var, Var, Width),
    Alloca(Var, u32),
    Call(Var, RValueElem, Seq<Var>),
    Label(usize, Seq<Var>),
    Goto(usize, Seq<Var>),
    CondGoto(bool, RValueElem, usize, Seq<Var>),
    Nop,
}

impl View for Op {
    type V = OpV;

    open spec fn view(&self) -> OpV {
        match self {
            Op::Func(n, a, e) => OpV::Func(*n, a@, *e),
            Op::Return(r) => OpV::Return(*r),
            Op::BinOp(v, o, a, b, s) => OpV::BinOp(*v, *o, *a, *b, *s),
            Op::UnOp(v, o, a) => OpV::UnOp(*v, *o, *a),
            Op::Load(a, b, w) => OpV::Load(*a, *b, *w),
            Op::Store(a, b, w) => OpV::Store(*a, *b, *w),
            Op::Alloca(v, n) => OpV::Alloca(*v, *n),
            Op::Call(v, f, a) => OpV::Call(*v, *f, a@),
            Op::Label(l, vs) => OpV::Label(*l, vs@),
            Op::Goto(l, vs) => OpV::Goto(*l, vs@),
            Op::CondGoto(n, c, l, vs) => OpV::CondGoto(*n, *c, *l, vs@),
            Op::Nop => OpV::Nop,
        }
    }
}

/// The operations of a function body, each by its view.
pub open spec fn ops_view(ops: Seq<Op>) -> Seq<OpV> {
    ops.map_values(|o: Op| o@)
}

pub fn copy_vars(v: &Vec<Var>) -> (r: Vec<Var>)
    ensures
        r@ == v@,
{
    let mut r: Vec<Var> = Vec::new();
    let mut i: usize = 0;
    while i < v.len()
        invariant
            i <= v@.len(),
            r@ == v@.subrange(0, i as int),
        decreases v@.len() - i,
    {
        r.push(v[i]);
        i = i + 1;
        assert(r@ =~= v@.subrange(0, i as int));
    }
    assert(v@.subrange(0, v@.len() as int) =~= v@);
    r
}

impl Op {
    /// A copy of this operation.
    pub fn duplicate(&self) -> (r: Op)
        ensures
            r@ == self@,
    {
        match self {
            Op::Func(n, args, e) => Op::Func(*n, copy_vars(args), *e),
            Op::Return(rv) => Op::Return(*rv),
            Op::BinOp(v, op, a, b, s) => Op::BinOp(*v, *op, *a, *b, *s),
            Op::UnOp(v, op, a) => Op::UnOp(*v, *op, *a),
            Op::Load(a, b, w) => Op::Load(*a, *b, *w),
            Op::Store(a, b, w) => Op::Store(*a, *b, *w),
            Op::Alloca(v, n) => Op::Alloca(*v, *n),
            Op::Call(v, f, args) => Op::Call(*v, *f, copy_vars(args)),
            Op::Label(l, vs) => Op::Label(*l, copy_vars(vs)),
            Op::Goto(l, vs) => Op::Goto(*l, copy_vars(vs)),
            Op::CondGoto(n, c, l, vs) => Op::CondGoto(*n, *c, *l, copy_vars(vs)),
            Op::Nop => Op::Nop,
        }
    }
}

} // verus!
