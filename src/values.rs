use vstd::prelude::*;
use crate::ir::{LitNode, BinOpNode, UnOpNode};
use crate::util::{IntKind, reinterpret};

verus! {

/// The 64-bit result of an arithmetic or bitwise operator, or `None` for a
/// division by zero, a shift by 64 or more, or an operator that is not one of these.
pub open spec fn int_op(op: BinOpNode, a: u64, b: u64) -> Option<u64> {
    match op {
        BinOpNode::PlusOp => Some(((a + b) % 0x1_0000_0000_0000_0000) as u64),
        BinOpNode::MinusOp => Some(((a - b) % 0x1_0000_0000_0000_0000) as u64),
        BinOpNode::TimesOp => Some(((a * b) % 0x1_0000_0000_0000_0000) as u64),
        BinOpNode::DivideOp => if b == 0 { None } else { Some(a / b) },
        BinOpNode::ModOp => if b == 0 { None } else { Some(a % b) },
        BinOpNode::BitAndOp => Some(a & b),
        BinOpNode::BitOrOp => Some(a | b),
        BinOpNode::BitXorOp => Some(a ^ b),
        BinOpNode::LeftShiftOp => if b >= 64 { None } else { Some(a << b) },
        BinOpNode::RightShiftOp => if b >= 64 { None } else { Some(a >> b) },
        _ => None,
    }
}

pub open spec fn bool_op(op: BinOpNode, a: bool, b: bool) -> Option<bool> {
    match op {
        BinOpNode::OrElseOp => Some(a || b),
        BinOpNode::AndAlsoOp => Some(a && b),
        _ => None,
    }
}

/// A comparison of the values that `a` and `b` stand for under the kind `k`.
pub open spec fn rel_op(op: BinOpNode, k: IntKind, a: u64, b: u64) -> Option<bool> {
    let a = reinterpret(k, a);
    let b = reinterpret(k, b);
    match op {
        BinOpNode::LessOp => Some(a < b),
        BinOpNode::LessEqOp => Some(a <= b),
        BinOpNode::GreaterOp => Some(a > b),
        BinOpNode::GreaterEqOp => Some(a >= b),
        _ => None,
    }
}

/// The value of `l op r`, or `None` when the operands do not fit the operator.
/// Numbers must be of the same kind; comparisons read them as values of that kind.
pub open spec fn eval_binop_spec(op: BinOpNode, l: LitNode, r: LitNode) -> Option<LitNode> {
    match op {
        BinOpNode::EqualsOp => Some(LitNode::BoolLit(l == r)),
        BinOpNode::NotEqualsOp => Some(LitNode::BoolLit(l != r)),
        BinOpNode::LessOp | BinOpNode::LessEqOp | BinOpNode::GreaterOp | BinOpNode::GreaterEqOp => match (l, r) {
            (LitNode::NumLit(a, ka), LitNode::NumLit(b, kb)) => if ka == kb {
                Some(LitNode::BoolLit(rel_op(op, ka, a, b)->0))
            } else {
                None
            },
            _ => None,
        },
        _ => match (l, r) {
            (LitNode::NumLit(a, ka), LitNode::NumLit(b, kb)) => if ka == kb && int_op(op, a, b) is Some {
                Some(LitNode::NumLit(int_op(op, a, b)->0, kb))
            } else {
                None
            },
            (LitNode::BoolLit(a), LitNode::BoolLit(b)) => match bool_op(op, a, b) {
                Some(c) => Some(LitNode::BoolLit(c)),
                None => None,
            },
            _ => None,
        },
    }
}

/// The value of `op l`; `None` for `*`, `&`, and operand kinds the operator does not take.
pub open spec fn eval_unop_spec(op: UnOpNode, l: LitNode) -> Option<LitNode> {
    match op {
        UnOpNode::Identity => Some(l),
        UnOpNode::Negate => match l {
            LitNode::NumLit(n, k) => Some(LitNode::NumLit(((0 - n) % 0x1_0000_0000_0000_0000) as u64, k)),
            _ => None,
        },
        UnOpNode::BitNot => match l {
            LitNode::NumLit(n, k) => Some(LitNode::NumLit(!n, k)),
            _ => None,
        },
        UnOpNode::LogNot => match l {
            LitNode::BoolLit(b) => Some(LitNode::BoolLit(!b)),
            _ => None,
        },
        _ => None,
    }
}

fn num_op(op: BinOpNode, a: u64, b: u64) -> (r: Option<u64>)
    ensures
        r == int_op(op, a, b),
{
    match op {
        BinOpNode::PlusOp => Some(a.wrapping_add(b)),
        BinOpNode::MinusOp => Some(a.wrapping_sub(b)),
        BinOpNode::TimesOp => Some(a.wrapping_mul(b)),
        BinOpNode::DivideOp => if b == 0 { None } else { Some(a / b) },
        BinOpNode::ModOp => if b == 0 { None } else { Some(a % b) },
        BinOpNode::BitAndOp => Some(a & b),
        BinOpNode::BitOrOp => Some(a | b),
        BinOpNode::BitXorOp => Some(a ^ b),
        BinOpNode::LeftShiftOp => if b >= 64 { None } else { Some(a << b) },
        BinOpNode::RightShiftOp => if b >= 64 { None } else { Some(a >> b) },
        _ => None,
    }
}

/// An arithmetic, bitwise or logical operator on two literals of the same sort.
pub fn generic_op(lhs: &LitNode, rhs: &LitNode, op: BinOpNode) -> (r: Option<LitNode>)
    requires
        !(op is EqualsOp || op is NotEqualsOp || op is LessOp || op is LessEqOp || op is GreaterOp || op is GreaterEqOp),
    ensures
        r == eval_binop_spec(op, *lhs, *rhs),
{
    match (lhs, rhs) {
        (LitNode::NumLit(a, ka), LitNode::NumLit(b, kb)) => {
            if *ka != *kb {
                return None;
            }
            match num_op(op, *a, *b) {
                Some(n) => Some(LitNode::NumLit(n, *kb)),
                None => None,
            }
        },
        (LitNode::BoolLit(a), LitNode::BoolLit(b)) => match op {
            BinOpNode::OrElseOp => Some(LitNode::BoolLit(*a || *b)),
            BinOpNode::AndAlsoOp => Some(LitNode::BoolLit(*a && *b)),
            _ => None,
        },
        _ => None,
    }
}

/// Negation, bitwise not or logical not of a literal.
pub fn generic_unop(l: &LitNode, op: UnOpNode) -> (r: Option<LitNode>)
    requires
        op is Negate || op is BitNot || op is LogNot,
    ensures
        r == eval_unop_spec(op, *l),
{
    match (op, l) {
        (UnOpNode::Negate, LitNode::NumLit(n, k)) => Some(LitNode::NumLit(0u64.wrapping_sub(*n), *k)),
        (UnOpNode::BitNot, LitNode::NumLit(n, k)) => Some(LitNode::NumLit(!*n, *k)),
        (UnOpNode::LogNot, LitNode::BoolLit(b)) => Some(LitNode::BoolLit(!*b)),
        _ => None,
    }
}

/// A comparison of two numbers of the same kind.
pub fn relation_op(lhs: &LitNode, rhs: &LitNode, op: BinOpNode) -> (r: Option<LitNode>)
    requires
        op is LessOp || op is LessEqOp || op is GreaterOp || op is GreaterEqOp,
    ensures
        r == eval_binop_spec(op, *lhs, *rhs),
{
    match (lhs, rhs) {
        (LitNode::NumLit(a, ka), LitNode::NumLit(b, kb)) => {
            if *ka != *kb {
                return None;
            }
            let x = ka.value(*a);
            let y = ka.value(*b);
            let c = match op {
                BinOpNode::LessOp => x < y,
                BinOpNode::LessEqOp => x <= y,
                BinOpNode::GreaterOp => x > y,
                _ => x >= y,
            };
            Some(LitNode::BoolLit(c))
        },
        _ => None,
    }
}

pub fn eval_binop(op: BinOpNode, lit1: LitNode, lit2: LitNode) -> (r: Option<LitNode>)
    ensures
        r == eval_binop_spec(op, lit1, lit2),
{
    match op {
        BinOpNode::EqualsOp => Some(LitNode::BoolLit(lit1 == lit2)),
        BinOpNode::NotEqualsOp => Some(LitNode::BoolLit(lit1 != lit2)),
        BinOpNode::LessOp | BinOpNode::LessEqOp | BinOpNode::GreaterOp | BinOpNode::GreaterEqOp => relation_op(&lit1, &lit2, op),
        _ => generic_op(&lit1, &lit2, op),
    }
}

pub fn eval_unop(op: UnOpNode, lit: LitNode) -> (r: Option<LitNode>)
    ensures
        r == eval_unop_spec(op, lit),
{
    match op {
        UnOpNode::Identity => Some(lit),
        UnOpNode::Negate | UnOpNode::BitNot | UnOpNode::LogNot => generic_unop(&lit, op),
        _ => None,
    }
}

} // verus!
