use vstd::prelude::*;
use crate::util::{Name, is_signed_kind, name_in};
use crate::ir::{Var, LitNode, RValueElem, BinOpNode, UnOpNode, Op, OpV, ops_view, copy_vars};
use crate::values::{eval_binop, eval_unop, eval_binop_spec, eval_unop_spec};
use crate::liveness::op_defs;

verus! {

/// A number literal whose kind is not generic must agree with the operation's signedness.
pub open spec fn signed_ok(l: LitNode, signed: bool) -> bool {
    match l {
        LitNode::NumLit(_, k) => k is GenericInt || signed == is_signed_kind(k),
        _ => true,
    }
}

/// The literal that `a op b` folds to, when both are constants.
pub open spec fn fold_spec(op: BinOpNode, a: RValueElem, b: RValueElem, signed: bool) -> Option<LitNode> {
    match (a, b) {
        (RValueElem::Constant(la), RValueElem::Constant(lb)) => if signed_ok(la, signed) && signed_ok(lb, signed) {
            eval_binop_spec(op, la, lb)
        } else {
            None
        },
        _ => None,
    }
}

/// The literal that `op e` folds to, when `e` is a number or boolean constant.
pub open spec fn fold_unary_spec(op: UnOpNode, e: RValueElem) -> Option<LitNode> {
    match e {
        RValueElem::Constant(l) => match l {
            LitNode::NumLit(..) | LitNode::BoolLit(..) => eval_unop_spec(op, l),
            _ => None,
        },
        _ => None,
    }
}

pub open spec fn is_num(e: RValueElem, x: u64) -> bool {
    e matches RValueElem::Constant(LitNode::NumLit(n, _)) && n == x
}

/// The operand that `op` leaves unchanged when the other one is the constant
/// `1` for `*` and `/`, `0` for `+` and `-`; `+` and `*` work on either side.
pub open spec fn identity_rewrite(op: BinOpNode, a: RValueElem, b: RValueElem) -> Option<RValueElem> {
    let two_sided = op is TimesOp || op is PlusOp;
    let unit: u64 = if op is TimesOp || op is DivideOp { 1 } else { 0 };
    if (two_sided || op is DivideOp || op is MinusOp) && is_num(b, unit) {
        Some(a)
    } else if two_sided && is_num(a, unit) {
        Some(b)
    } else {
        None
    }
}

/// What an operation is rewritten to in place, if anything: a foldable
/// operation becomes a copy of its value, an identity element is dropped.
pub open spec fn immediate(o: OpV) -> Option<OpV> {
    match o {
        OpV::BinOp(v, op, a, b, s) => match fold_spec(op, a, b, s) {
            Some(c) => Some(OpV::UnOp(v, UnOpNode::Identity, RValueElem::Constant(c))),
            None => match identity_rewrite(op, a, b) {
                Some(x) => Some(OpV::UnOp(v, UnOpNode::Identity, x)),
                None => None,
            },
        },
        OpV::UnOp(v, op, a) => if op != UnOpNode::Identity {
            match fold_unary_spec(op, a) {
                Some(c) => Some(OpV::UnOp(v, UnOpNode::Identity, RValueElem::Constant(c))),
                None => None,
            }
        } else {
            None
        },
        _ => None,
    }
}

/// A copy of a constant into a variable that may be substituted away.
pub open spec fn candidate(o: OpV, avoid: Set<Var>, globals: Set<Name>) -> Option<(Var, LitNode)> {
    match o {
        OpV::UnOp(v, UnOpNode::Identity, RValueElem::Constant(c)) =>
            if (c is NumLit || c is BoolLit) && !avoid.contains(v) && !globals.contains(v.name) {
                Some((v, c))
            } else {
                None
            },
        _ => None,
    }
}

pub open spec fn subst_rv(r: RValueElem, v: Var, c: LitNode) -> RValueElem {
    if r == RValueElem::Variable(v) { RValueElem::Constant(c) } else { r }
}

/// The operation with every value read from `v` replaced by `c`. Operands that
/// must stay variables (addresses, memory accesses, argument lists) are kept.
pub open spec fn subst_op(o: OpV, v: Var, c: LitNode) -> OpV {
    match o {
        OpV::BinOp(d, op, a, b, s) => OpV::BinOp(d, op, subst_rv(a, v, c), subst_rv(b, v, c), s),
        OpV::UnOp(d, op, a) => if op == UnOpNode::AddrOf { o } else { OpV::UnOp(d, op, subst_rv(a, v, c)) },
        OpV::Return(a) => OpV::Return(subst_rv(a, v, c)),
        OpV::CondGoto(n, a, l, vs) => OpV::CondGoto(n, subst_rv(a, v, c), l, vs),
        OpV::Call(d, t, args) => OpV::Call(d, subst_rv(t, v, c), args),
        _ => o,
    }
}

/// Variables that must not be replaced by constants: those in label and jump
/// lists, those whose address is taken, both operands of loads and stores,
/// call arguments and function parameters.
pub open spec fn avoid_of(o: OpV) -> Set<Var> {
    match o {
        OpV::Label(_, vs) => vs.to_set(),
        OpV::Goto(_, vs) => vs.to_set(),
        OpV::CondGoto(_, _, _, vs) => vs.to_set(),
        OpV::UnOp(_, UnOpNode::AddrOf, RValueElem::Variable(v)) => set![v],
        OpV::Load(a, b, _) => set![a, b],
        OpV::Store(a, b, _) => set![a, b],
        OpV::Call(_, _, args) => args.to_set(),
        OpV::Func(_, args, _) => args.to_set(),
        _ => Set::empty(),
    }
}

pub open spec fn avoid_set(ops: Seq<OpV>) -> Set<Var> {
    Set::new(|v: Var| exists|i: int| 0 <= i < ops.len() && #[trigger] avoid_of(ops[i]).contains(v))
}

pub open spec fn is_extern(ops: Seq<OpV>) -> bool {
    exists|i: int| 0 <= i < ops.len() && #[trigger] ops[i] is Func && ops[i]->Func_2
}

/// An operation on constants whose folding is undefined: two constants that
/// disagree with the operation's signedness or that the operator does not
/// take (a division by zero, a shift by 64 or more, literals of two kinds),
/// a null constant, or a negation or not of a literal of the wrong sort.
pub open spec fn malformed_fold(o: OpV) -> bool {
    match o {
        OpV::BinOp(_, op, RValueElem::Constant(a), RValueElem::Constant(b), s) =>
            !(signed_ok(a, s) && signed_ok(b, s)) || eval_binop_spec(op, a, b) is None,
        OpV::UnOp(_, op, RValueElem::Constant(l)) => l is NullLit
            || ((l is NumLit || l is BoolLit) && (op is Negate || op is BitNot || op is LogNot) && eval_unop_spec(op, l) is None),
        _ => false,
    }
}

/// The position of the first operation whose folding is undefined.
pub open spec fn first_bad(ops: Seq<OpV>) -> Option<int>
    decreases ops.len(),
{
    if ops.len() == 0 {
        None
    } else if malformed_fold(ops[0]) {
        Some(0)
    } else {
        match first_bad(ops.drop_first()) {
            Some(k) => Some(k + 1),
            None => None,
        }
    }
}

/// The operation after its in-place rewrite, if it has one.
pub open spec fn imm_or(o: OpV) -> OpV {
    match immediate(o) {
        Some(x) => x,
        None => o,
    }
}

pub open spec fn imm_any(ops: Seq<OpV>) -> bool {
    exists|i: int| 0 <= i < ops.len() && #[trigger] immediate(ops[i]) is Some
}

/// The operation reads `v` where a substitution would replace it.
pub open spec fn reads_var(o: OpV, v: Var) -> bool {
    let x = RValueElem::Variable(v);
    match o {
        OpV::BinOp(_, _, a, b, _) => a == x || b == x,
        OpV::UnOp(_, op, a) => op != UnOpNode::AddrOf && a == x,
        OpV::Return(a) => a == x,
        OpV::CondGoto(_, a, _, _) => a == x,
        OpV::Call(_, t, _) => t == x,
        _ => false,
    }
}

pub open spec fn rv_count(r: RValueElem) -> nat {
    if r is Variable { 1 } else { 0 }
}

/// Variables read where a substitution could replace them.
pub open spec fn vreads_op(o: OpV) -> nat {
    match o {
        OpV::BinOp(_, _, a, b, _) => rv_count(a) + rv_count(b),
        OpV::UnOp(_, op, a) => if op == UnOpNode::AddrOf { 0 } else { rv_count(a) },
        OpV::Return(a) => rv_count(a),
        OpV::CondGoto(_, a, _, _) => rv_count(a),
        OpV::Call(_, t, _) => rv_count(t),
        _ => 0,
    }
}

pub open spec fn vreads(ops: Seq<OpV>) -> nat
    decreases ops.len(),
{
    if ops.len() == 0 { 0 } else { vreads(ops.drop_last()) + vreads_op(ops.last()) }
}

/// The substitutions of a pass, from position `k` on: each copy of a constant
/// into a variable that may be substituted has that constant replace every
/// read of the variable. The flag says whether some read was replaced.
pub open spec fn chain(s: Seq<OpV>, k: int, avoid: Set<Var>, globals: Set<Name>) -> (Seq<OpV>, bool)
    decreases s.len() - k,
{
    if k >= s.len() || k < 0 {
        (s, false)
    } else {
        match candidate(s[k], avoid, globals) {
            Some((v, c)) => {
                let t = s.map_values(|o: OpV| subst_op(o, v, c));
                let rest = chain(t, k + 1, avoid, globals);
                (rest.0, rest.1 || exists|j: int| 0 <= j < s.len() && #[trigger] reads_var(s[j], v))
            },
            None => chain(s, k + 1, avoid, globals),
        }
    }
}

/// One pass of the folder: every operation that has an in-place rewrite is
/// rewritten, then every substitutable constant replaces the reads of its
/// variable. The flag says whether anything changed.
pub open spec fn pass(ops: Seq<OpV>, avoid: Set<Var>, globals: Set<Name>) -> (Seq<OpV>, bool) {
    let m = ops.map_values(|o: OpV| imm_or(o));
    let c = chain(m, 0, avoid, globals);
    (c.0, imm_any(ops) || c.1)
}

/// What a rewrite keeps of an operation: what it defines, what it makes the
/// folder avoid, and a function head as it is.
pub open spec fn same_frame(a: OpV, b: OpV) -> bool {
    &&& op_defs(a) == op_defs(b)
    &&& avoid_of(a) == avoid_of(b)
    &&& (a is Func <==> b is Func)
    &&& (a is Func ==> a == b)
    &&& (a is Label || a is Goto) ==> a == b
    &&& a is CondGoto ==> (b is CondGoto && b->CondGoto_0 == a->CondGoto_0 && b->CondGoto_2 == a->CondGoto_2
            && b->CondGoto_3 == a->CondGoto_3)
    &&& b is CondGoto ==> a is CondGoto
    &&& (b is Label || b is Goto) ==> a == b
}

pub open spec fn frames_kept(a: Seq<OpV>, b: Seq<OpV>) -> bool {
    a.len() == b.len() && forall|i: int| 0 <= i < a.len() ==> #[trigger] same_frame(a[i], b[i])
}

pub open spec fn heavy_op(o: OpV) -> nat {
    match o {
        OpV::BinOp(..) => 1,
        OpV::UnOp(_, op, _) => if op == UnOpNode::Identity { 0 } else { 1 },
        _ => 0,
    }
}

/// Operations that an in-place rewrite could still simplify.
pub open spec fn heavy(ops: Seq<OpV>) -> nat
    decreases ops.len(),
{
    if ops.len() == 0 { 0 } else { heavy(ops.drop_last()) + heavy_op(ops.last()) }
}

fn signedness_ok(l: &LitNode, signed: bool) -> (r: bool)
    ensures
        r == signed_ok(*l, signed),
{
    match l {
        LitNode::NumLit(_, kind) => kind.is_generic() || signed == kind.is_signed(),
        _ => true,
    }
}

/// The literal that `e1 op e2` folds to, when both are constants.
pub fn fold(op: &BinOpNode, e1: &RValueElem, e2: &RValueElem, signed: bool) -> (r: Option<LitNode>)
    ensures
        r == fold_spec(*op, *e1, *e2, signed),
{
    let lit1 = match e1 {
        RValueElem::Constant(l) => *l,
        _ => return None,
    };
    let lit2 = match e2 {
        RValueElem::Constant(l) => *l,
        _ => return None,
    };
    if !signedness_ok(&lit1, signed) || !signedness_ok(&lit2, signed) {
        return None;
    }
    eval_binop(*op, lit1, lit2)
}

/// The literal that `op e` folds to, when `e` is a number or boolean constant.
pub fn fold_unary(op: &UnOpNode, e: &RValueElem) -> (r: Option<LitNode>)
    ensures
        r == fold_unary_spec(*op, *e),
{
    match e {
        RValueElem::Constant(l) => match l {
            LitNode::NumLit(..) | LitNode::BoolLit(..) => eval_unop(*op, *l),
            _ => None,
        },
        _ => None,
    }
}

fn is_num_exec(e: &RValueElem, x: u64) -> (r: bool)
    ensures
        r == is_num(*e, x),
{
    match e {
        RValueElem::Constant(LitNode::NumLit(n, _)) => *n == x,
        _ => false,
    }
}

fn immediate_exec(o: &Op) -> (r: Option<Op>)
    ensures
        r matches Some(x) ==> immediate(o@) == Some(x@),
        r is None ==> immediate(o@) is None,
{
    match o {
        Op::BinOp(v, op, a, b, s) => match fold(op, a, b, *s) {
            Some(c) => Some(Op::UnOp(*v, UnOpNode::Identity, RValueElem::Constant(c))),
            None => {
                let two_sided = *op == BinOpNode::TimesOp || *op == BinOpNode::PlusOp;
                let unit: u64 = if *op == BinOpNode::TimesOp || *op == BinOpNode::DivideOp { 1 } else { 0 };
                if (two_sided || *op == BinOpNode::DivideOp || *op == BinOpNode::MinusOp) && is_num_exec(b, unit) {
                    Some(Op::UnOp(*v, UnOpNode::Identity, *a))
                } else if two_sided && is_num_exec(a, unit) {
                    Some(Op::UnOp(*v, UnOpNode::Identity, *b))
                } else {
                    None
                }
            },
        },
        Op::UnOp(v, op, a) => {
            if *op != UnOpNode::Identity {
                match fold_unary(op, a) {
                    Some(c) => Some(Op::UnOp(*v, UnOpNode::Identity, RValueElem::Constant(c))),
                    None => None,
                }
            } else {
                None
            }
        },
        _ => None,
    }
}

fn candidate_exec(o: &Op, avoid: &Vec<Var>, globals: &Vec<Name>) -> (r: Option<(Var, LitNode)>)
    ensures
        r == candidate(o@, avoid@.to_set(), globals@.to_set()),
{
    match o {
        Op::UnOp(v, UnOpNode::Identity, RValueElem::Constant(c)) => {
            let lit_ok = match c {
                LitNode::NumLit(..) | LitNode::BoolLit(..) => true,
                _ => false,
            };
            if lit_ok && !crate::varset::contains(avoid, v) && !name_in(globals, v.name) {
                Some((*v, *c))
            } else {
                None
            }
        },
        _ => None,
    }
}

fn subst_rv_exec(r: &RValueElem, v: &Var, c: &LitNode) -> (o: RValueElem)
    ensures
        o == subst_rv(*r, *v, *c),
{
    if *r == RValueElem::Variable(*v) { RValueElem::Constant(*c) } else { *r }
}

fn subst_exec(o: &Op, v: &Var, c: &LitNode) -> (r: Op)
    ensures
        r@ == subst_op(o@, *v, *c),
{
    match o {
        Op::BinOp(d, op, a, b, s) => Op::BinOp(*d, *op, subst_rv_exec(a, v, c), subst_rv_exec(b, v, c), *s),
        Op::UnOp(d, op, a) => if *op == UnOpNode::AddrOf { Op::UnOp(*d, *op, *a) } else { Op::UnOp(*d, *op, subst_rv_exec(a, v, c)) },
        Op::Return(a) => Op::Return(subst_rv_exec(a, v, c)),
        Op::CondGoto(n, a, l, vs) => Op::CondGoto(*n, subst_rv_exec(a, v, c), *l, copy_vars(vs)),
        Op::Call(d, t, args) => Op::Call(*d, subst_rv_exec(t, v, c), copy_vars(args)),
        _ => o.duplicate(),
    }
}


proof fn lemma_heavy_le(a: Seq<OpV>, b: Seq<OpV>)
    requires
        a.len() == b.len(),
        forall|i: int| 0 <= i < a.len() ==> heavy_op(#[trigger] b[i]) <= heavy_op(a[i]),
    ensures
        heavy(b) <= heavy(a),
        (exists|i: int| 0 <= i < a.len() && heavy_op(#[trigger] b[i]) < heavy_op(a[i])) ==> heavy(b) < heavy(a),
    decreases a.len(),
{
    if a.len() > 0 {
        lemma_heavy_le(a.drop_last(), b.drop_last());
        assert forall|i: int| 0 <= i < a.len() - 1 implies heavy_op(#[trigger] b.drop_last()[i]) <= heavy_op(a.drop_last()[i]) by {
            assert(b.drop_last()[i] == b[i]);
        }
        if exists|i: int| 0 <= i < a.len() && heavy_op(#[trigger] b[i]) < heavy_op(a[i]) {
            let i = choose|i: int| 0 <= i < a.len() && heavy_op(#[trigger] b[i]) < heavy_op(a[i]);
            if i < a.len() - 1 {
                assert(b.drop_last()[i] == b[i]);
                assert(a.drop_last()[i] == a[i]);
            }
        }
    }
}

proof fn lemma_vreads_le(a: Seq<OpV>, b: Seq<OpV>)
    requires
        a.len() == b.len(),
        forall|i: int| 0 <= i < a.len() ==> vreads_op(#[trigger] b[i]) <= vreads_op(a[i]),
    ensures
        vreads(b) <= vreads(a),
        (exists|i: int| 0 <= i < a.len() && vreads_op(#[trigger] b[i]) < vreads_op(a[i])) ==> vreads(b) < vreads(a),
    decreases a.len(),
{
    if a.len() > 0 {
        lemma_vreads_le(a.drop_last(), b.drop_last());
        assert forall|i: int| 0 <= i < a.len() - 1 implies vreads_op(#[trigger] b.drop_last()[i]) <= vreads_op(a.drop_last()[i]) by {
            assert(b.drop_last()[i] == b[i]);
        }
        if exists|i: int| 0 <= i < a.len() && vreads_op(#[trigger] b[i]) < vreads_op(a[i]) {
            let i = choose|i: int| 0 <= i < a.len() && vreads_op(#[trigger] b[i]) < vreads_op(a[i]);
            if i < a.len() - 1 {
                assert(b.drop_last()[i] == b[i]);
                assert(a.drop_last()[i] == a[i]);
            }
        }
    }
}

proof fn lemma_frames_trans(a: Seq<OpV>, b: Seq<OpV>, c: Seq<OpV>)
    requires
        frames_kept(a, b),
        frames_kept(b, c),
    ensures
        frames_kept(a, c),
{
    assert forall|i: int| 0 <= i < a.len() implies #[trigger] same_frame(a[i], c[i]) by {
        assert(same_frame(a[i], b[i]));
        assert(same_frame(b[i], c[i]));
    }
}

proof fn lemma_subst_op(o: OpV, v: Var, c: LitNode)
    ensures
        same_frame(o, subst_op(o, v, c)),
        heavy_op(subst_op(o, v, c)) == heavy_op(o),
        vreads_op(subst_op(o, v, c)) <= vreads_op(o),
        reads_var(o, v) ==> vreads_op(subst_op(o, v, c)) < vreads_op(o),
{
    match o {
        OpV::CondGoto(n, a, l, vs) => {
            assert(avoid_of(o) =~= avoid_of(subst_op(o, v, c)));
        },
        OpV::Call(d, t, args) => {
            assert(avoid_of(o) =~= avoid_of(subst_op(o, v, c)));
        },
        _ => {},
    }
}

proof fn lemma_imm_or(o: OpV)
    ensures
        same_frame(o, imm_or(o)),
        heavy_op(imm_or(o)) <= heavy_op(o),
        immediate(o) is Some ==> heavy_op(imm_or(o)) < heavy_op(o),
        vreads_op(imm_or(o)) <= vreads_op(o),
{
    if immediate(o) is Some {
        assert(avoid_of(o) =~= Set::<Var>::empty());
        assert(avoid_of(imm_or(o)) =~= Set::<Var>::empty());
    }
}

proof fn lemma_chain(s: Seq<OpV>, k: int, avoid: Set<Var>, globals: Set<Name>)
    requires
        0 <= k,
    ensures
        frames_kept(s, chain(s, k, avoid, globals).0),
        heavy(chain(s, k, avoid, globals).0) == heavy(s),
        vreads(chain(s, k, avoid, globals).0) <= vreads(s),
        chain(s, k, avoid, globals).1 ==> vreads(chain(s, k, avoid, globals).0) < vreads(s),
    decreases s.len() - k,
{
    if k < s.len() {
        match candidate(s[k], avoid, globals) {
            Some((v, c)) => {
                let t = s.map_values(|o: OpV| subst_op(o, v, c));
                lemma_chain(t, k + 1, avoid, globals);
                assert forall|i: int| 0 <= i < s.len() implies #[trigger] same_frame(s[i], t[i])
                    && heavy_op(t[i]) <= heavy_op(s[i]) && heavy_op(s[i]) <= heavy_op(t[i])
                    && vreads_op(t[i]) <= vreads_op(s[i])
                    && (reads_var(s[i], v) ==> vreads_op(t[i]) < vreads_op(s[i])) by {
                    lemma_subst_op(s[i], v, c);
                }
                lemma_heavy_le(s, t);
                lemma_heavy_le(t, s);
                lemma_vreads_le(s, t);
                lemma_frames_trans(s, t, chain(t, k + 1, avoid, globals).0);
                if exists|j: int| 0 <= j < s.len() && #[trigger] reads_var(s[j], v) {
                    let j = choose|j: int| 0 <= j < s.len() && #[trigger] reads_var(s[j], v);
                    assert(vreads_op(t[j]) < vreads_op(s[j]));
                }
            },
            None => {
                lemma_chain(s, k + 1, avoid, globals);
            },
        }
    } else {
        assert forall|i: int| 0 <= i < s.len() implies #[trigger] same_frame(s[i], s[i]) by {}
    }
}

/// A pass keeps every operation's definitions and frame, and when it changes
/// anything it simplifies an operation or replaces a read.
proof fn lemma_pass(ops: Seq<OpV>, avoid: Set<Var>, globals: Set<Name>)
    ensures
        frames_kept(ops, pass(ops, avoid, globals).0),
        pass(ops, avoid, globals).1 ==> heavy(pass(ops, avoid, globals).0) < heavy(ops)
            || (heavy(pass(ops, avoid, globals).0) == heavy(ops) && vreads(pass(ops, avoid, globals).0) < vreads(ops)),
        !pass(ops, avoid, globals).1 ==> pass(ops, avoid, globals).0 == ops,
{
    let m = ops.map_values(|o: OpV| imm_or(o));
    assert forall|i: int| 0 <= i < ops.len() implies #[trigger] same_frame(ops[i], m[i])
        && heavy_op(m[i]) <= heavy_op(ops[i]) && vreads_op(m[i]) <= vreads_op(ops[i])
        && (immediate(ops[i]) is Some ==> heavy_op(m[i]) < heavy_op(ops[i])) by {
        lemma_imm_or(ops[i]);
    }
    lemma_heavy_le(ops, m);
    lemma_vreads_le(ops, m);
    lemma_chain(m, 0, avoid, globals);
    lemma_frames_trans(ops, m, chain(m, 0, avoid, globals).0);
    if imm_any(ops) {
        let i = choose|i: int| 0 <= i < ops.len() && #[trigger] immediate(ops[i]) is Some;
        assert(heavy_op(m[i]) < heavy_op(ops[i]));
    } else {
        assert(m =~= ops);
        lemma_chain_unflagged(m, 0, avoid, globals);
    }
}

proof fn lemma_chain_unflagged(s: Seq<OpV>, k: int, avoid: Set<Var>, globals: Set<Name>)
    requires
        0 <= k,
    ensures
        !chain(s, k, avoid, globals).1 ==> chain(s, k, avoid, globals).0 == s,
    decreases s.len() - k,
{
    if k < s.len() {
        match candidate(s[k], avoid, globals) {
            Some((v, c)) => {
                let t = s.map_values(|o: OpV| subst_op(o, v, c));
                lemma_chain_unflagged(t, k + 1, avoid, globals);
                if !chain(s, k, avoid, globals).1 {
                    assert forall|i: int| 0 <= i < s.len() implies t[i] == s[i] by {
                        assert(!reads_var(s[i], v));
                    }
                    assert(t =~= s);
                }
            },
            None => {
                lemma_chain_unflagged(s, k + 1, avoid, globals);
            },
        }
    }
}

#[via_fn]
proof fn fold_fix_decreases(ops: Seq<OpV>, avoid: Set<Var>, globals: Set<Name>) {
    lemma_pass(ops, avoid, globals);
}

/// The body after passes until one changes nothing; `None` when a pass meets
/// an operation whose folding is undefined.
pub open spec fn fold_fix(ops: Seq<OpV>, avoid: Set<Var>, globals: Set<Name>) -> Option<Seq<OpV>>
    decreases heavy(ops), vreads(ops)
    via fold_fix_decreases
{
    if first_bad(ops) is Some {
        None
    } else if pass(ops, avoid, globals).1 {
        fold_fix(pass(ops, avoid, globals).0, avoid, globals)
    } else {
        Some(ops)
    }
}

/// What the folder makes of a body: nothing for an extern function, else
/// passes until none changes anything, never substituting the variables it
/// must avoid.
pub open spec fn folded(ops: Seq<OpV>, globals: Set<Name>) -> Option<Seq<OpV>> {
    if is_extern(ops) { Some(ops) } else { fold_fix(ops, avoid_set(ops), globals) }
}

proof fn lemma_frames_avoid(a: Seq<OpV>, b: Seq<OpV>)
    requires
        frames_kept(a, b),
    ensures
        avoid_set(a) == avoid_set(b),
        is_extern(a) == is_extern(b),
{
    assert forall|v: Var| avoid_set(a).contains(v) <==> avoid_set(b).contains(v) by {
        if avoid_set(a).contains(v) {
            let k = choose|k: int| 0 <= k < a.len() && #[trigger] avoid_of(a[k]).contains(v);
            assert(same_frame(a[k], b[k]));
            assert(avoid_of(b[k]).contains(v));
        }
        if avoid_set(b).contains(v) {
            let k = choose|k: int| 0 <= k < b.len() && #[trigger] avoid_of(b[k]).contains(v);
            assert(same_frame(a[k], b[k]));
            assert(avoid_of(a[k]).contains(v));
        }
    }
    assert(avoid_set(a) =~= avoid_set(b));
    if is_extern(a) {
        let k = choose|k: int| 0 <= k < a.len() && #[trigger] a[k] is Func && a[k]->Func_2;
        assert(same_frame(a[k], b[k]));
        assert(b[k] is Func && b[k]->Func_2);
    }
    if is_extern(b) {
        let k = choose|k: int| 0 <= k < b.len() && #[trigger] b[k] is Func && b[k]->Func_2;
        assert(same_frame(a[k], b[k]));
        assert(a[k] is Func && a[k]->Func_2);
    }
}

proof fn lemma_fix(ops: Seq<OpV>, avoid: Set<Var>, globals: Set<Name>)
    ensures
        fold_fix(ops, avoid, globals) matches Some(y) ==> frames_kept(ops, y)
            && first_bad(y) is None && !pass(y, avoid, globals).1,
    decreases heavy(ops), vreads(ops),
{
    lemma_pass(ops, avoid, globals);
    if first_bad(ops) is None {
        if pass(ops, avoid, globals).1 {
            let n = pass(ops, avoid, globals).0;
            lemma_fix(n, avoid, globals);
            if fold_fix(n, avoid, globals) is Some {
                lemma_frames_trans(ops, n, fold_fix(n, avoid, globals)->0);
            }
        } else {
            assert forall|i: int| 0 <= i < ops.len() implies #[trigger] same_frame(ops[i], ops[i]) by {}
        }
    }
}

/// Folding a body that was already folded leaves it exactly as it is.
pub proof fn lemma_fold_idempotent(ops: Seq<OpV>, globals: Set<Name>)
    requires
        folded(ops, globals) is Some,
    ensures
        folded(folded(ops, globals)->0, globals) == folded(ops, globals),
{
    if !is_extern(ops) {
        let a = avoid_set(ops);
        lemma_fix(ops, a, globals);
        let y = fold_fix(ops, a, globals)->0;
        lemma_frames_avoid(ops, y);
        assert(fold_fix(y, a, globals) == Some(y));
    }
}

proof fn lemma_first_bad_at(ops: Seq<OpV>, i: int)
    requires
        0 <= i <= ops.len(),
        forall|k: int| 0 <= k < i ==> !malformed_fold(#[trigger] ops[k]),
    ensures
        i < ops.len() && malformed_fold(ops[i]) ==> first_bad(ops) == Some(i),
        i == ops.len() ==> first_bad(ops) is None,
    decreases i,
{
    if i > 0 {
        assert forall|k: int| 0 <= k < i - 1 implies !malformed_fold(#[trigger] ops.drop_first()[k]) by {
            assert(ops.drop_first()[k] == ops[k + 1]);
        }
        lemma_first_bad_at(ops.drop_first(), i - 1);
        assert(!malformed_fold(ops[0]));
        if i < ops.len() {
            assert(ops.drop_first()[i - 1] == ops[i]);
        }
    }
}

fn malformed_exec(o: &Op) -> (r: bool)
    ensures
        r == malformed_fold(o@),
{
    match o {
        Op::BinOp(_, op, RValueElem::Constant(a), RValueElem::Constant(b), s) =>
            !(signedness_ok(a, *s) && signedness_ok(b, *s)) || eval_binop(*op, *a, *b).is_none(),
        Op::UnOp(_, op, RValueElem::Constant(l)) => {
            match l {
                LitNode::NullLit => true,
                LitNode::NumLit(..) | LitNode::BoolLit(..) => {
                    (*op == UnOpNode::Negate || *op == UnOpNode::BitNot || *op == UnOpNode::LogNot) && eval_unop(*op, *l).is_none()
                },
                _ => false,
            }
        },
        _ => false,
    }
}

fn subst_flag_exec(o: &Op, v: &Var, c: &LitNode) -> (r: (Op, bool))
    ensures
        r.0@ == subst_op(o@, *v, *c),
        r.1 == reads_var(o@, *v),
{
    let x = RValueElem::Variable(*v);
    let flag = match o {
        Op::BinOp(_, _, a, b, _) => *a == x || *b == x,
        Op::UnOp(_, op, a) => *op != UnOpNode::AddrOf && *a == x,
        Op::Return(a) => *a == x,
        Op::CondGoto(_, a, _, _) => *a == x,
        Op::Call(_, t, _) => *t == x,
        _ => false,
    };
    (subst_exec(o, v, c), flag)
}

/// One pass of the folder (see `pass`), or the position of the first operation
/// whose folding is undefined, in which case nothing is changed.
pub fn constant_fold_once(ops: &mut Vec<Op>, vars_to_avoid: &Vec<Var>, globals: &Vec<Name>) -> (r: Result<bool, usize>)
    ensures
        r matches Err(p) ==> first_bad(ops_view(old(ops)@)) == Some(p as int) && final(ops)@ == old(ops)@,
        r matches Ok(changed) ==> first_bad(ops_view(old(ops)@)) is None
            && ops_view(final(ops)@) == pass(ops_view(old(ops)@), vars_to_avoid@.to_set(), globals@.to_set()).0
            && changed == pass(ops_view(old(ops)@), vars_to_avoid@.to_set(), globals@.to_set()).1,
{
    let ghost ov = ops_view(ops@);
    let ghost avoid = vars_to_avoid@.to_set();
    let ghost gl = globals@.to_set();
    let n = ops.len();
    let mut i: usize = 0;
    while i < n
        invariant
            n == ops@.len(),
            i <= n,
            ops@ == old(ops)@,
            ov == ops_view(ops@),
            forall|k: int| 0 <= k < i ==> !malformed_fold(#[trigger] ov[k]),
        decreases n - i,
    {
        assert(ov[i as int] == ops@[i as int]@);
        if malformed_exec(&ops[i]) {
            proof { lemma_first_bad_at(ov, i as int); }
            return Err(i);
        }
        i = i + 1;
    }
    proof { lemma_first_bad_at(ov, n as int); }
    let ghost m = ov.map_values(|o: OpV| imm_or(o));
    let mut any = false;
    let mut i: usize = 0;
    while i < n
        invariant
            n == ops@.len() == ov.len(),
            i <= n,
            ov == ops_view(old(ops)@),
            m == ov.map_values(|o: OpV| imm_or(o)),
            forall|k: int| 0 <= k < i ==> #[trigger] ops@[k]@ == m[k],
            forall|k: int| i <= k < n ==> #[trigger] ops@[k]@ == ov[k],
            any == exists|k: int| 0 <= k < i && #[trigger] immediate(ov[k]) is Some,
        decreases n - i,
    {
        match immediate_exec(&ops[i]) {
            Some(x) => {
                ops[i] = x;
                any = true;
            },
            None => {},
        }
        i = i + 1;
    }
    assert(ops_view(ops@) =~= m);
    let mut replaced = false;
    let mut k: usize = 0;
    while k < n
        invariant
            n == ops@.len() == m.len(),
            k <= n,
            avoid == vars_to_avoid@.to_set(),
            gl == globals@.to_set(),
            chain(m, 0, avoid, gl).0 == chain(ops_view(ops@), k as int, avoid, gl).0,
            chain(m, 0, avoid, gl).1 == (replaced || chain(ops_view(ops@), k as int, avoid, gl).1),
        decreases n - k,
    {
        let ghost cur = ops_view(ops@);
        assert(cur[k as int] == ops@[k as int]@);
        match candidate_exec(&ops[k], vars_to_avoid, globals) {
            Some((v, c)) => {
                let mut rep = false;
                let mut j: usize = 0;
                while j < n
                    invariant
                        n == ops@.len() == cur.len(),
                        j <= n,
                        forall|q: int| 0 <= q < j ==> #[trigger] ops@[q]@ == subst_op(cur[q], v, c),
                        forall|q: int| j <= q < n ==> #[trigger] ops@[q]@ == cur[q],
                        rep == exists|q: int| 0 <= q < j && #[trigger] reads_var(cur[q], v),
                    decreases n - j,
                {
                    let (x, f) = subst_flag_exec(&ops[j], &v, &c);
                    ops[j] = x;
                    if f {
                        rep = true;
                    }
                    j = j + 1;
                }
                proof {
                    assert(ops_view(ops@) =~= cur.map_values(|o: OpV| subst_op(o, v, c)));
                }
                if rep {
                    replaced = true;
                }
            },
            None => {},
        }
        k = k + 1;
    }
    Ok(any || replaced)
}

pub struct ConstantFolder;

impl ConstantFolder {
    /// Folds constants in a function body, pass after pass, until a pass
    /// changes nothing. Names in `globals` are never substituted, and an
    /// extern function is left alone. Every operation keeps what it defines.
    /// When a pass meets an operation whose folding is undefined, its
    /// position is returned and the body is left as that pass found it.
    pub fn fold(ops: &mut Vec<Op>, globals: &Vec<Name>) -> (r: Result<(), usize>)
        requires
            !is_extern(ops_view(old(ops)@)) ==> first_bad(ops_view(old(ops)@)) is None,
        ensures
            frames_kept(ops_view(old(ops)@), ops_view(final(ops)@)),
            r is Ok <==> folded(ops_view(old(ops)@), globals@.to_set()) is Some,
            r is Ok ==> folded(ops_view(old(ops)@), globals@.to_set()) == Some(ops_view(final(ops)@)),
            r matches Err(p) ==> p < final(ops)@.len() && malformed_fold(final(ops)@[p as int]@),
    {
        let ghost ov = ops_view(ops@);
        let mut vars_to_avoid: Vec<Var> = Vec::new();
        let mut i: usize = 0;
        assert(ov.subrange(0, 0) =~= Seq::<OpV>::empty());
        assert(vars_to_avoid@.to_set() =~= avoid_set(ov.subrange(0, 0)));
        proof {
            assert forall|q: int| 0 <= q < ov.len() implies #[trigger] same_frame(ov[q], ov[q]) by {}
        }
        while i < ops.len()
            invariant
                i <= ops@.len(),
                ops@ == old(ops)@,
                ov == ops_view(ops@),
                ov.len() == ops@.len(),
                frames_kept(ov, ov),
                vars_to_avoid@.to_set() == avoid_set(ov.subrange(0, i as int)),
                forall|k: int| 0 <= k < i ==> !(#[trigger] ov[k] is Func && ov[k]->Func_2),
            decreases ops@.len() - i,
        {
            assert(ov[i as int] == ops@[i as int]@);
            proof {
                lemma_avoid_prefix(ov, i as int);
            }
            let ghost before = vars_to_avoid@;
            match &ops[i] {
                Op::Label(_, vs) | Op::Goto(_, vs) | Op::CondGoto(_, _, _, vs) | Op::Call(_, _, vs) => {
                    let mut c = copy_vars(vs);
                    vars_to_avoid.append(&mut c);
                },
                Op::UnOp(_, UnOpNode::AddrOf, RValueElem::Variable(v)) => {
                    vars_to_avoid.push(*v);
                },
                Op::Store(a, b, _) | Op::Load(a, b, _) => {
                    vars_to_avoid.push(*a);
                    vars_to_avoid.push(*b);
                },
                Op::Func(_, vs, ext) => {
                    if *ext {
                        proof {
                            assert(is_extern(ov));
                        }
                        return Ok(());
                    }
                    let mut c = copy_vars(vs);
                    vars_to_avoid.append(&mut c);
                },
                _ => {},
            }
            proof {
                assert forall|v: Var| vars_to_avoid@.contains(v) <==> (before.to_set() + avoid_of(ov[i as int])).contains(v) by {
                    if vars_to_avoid@.contains(v) {
                        let k = choose|k: int| 0 <= k < vars_to_avoid@.len() && vars_to_avoid@[k] == v;
                        if k < before.len() {
                            assert(before[k] == v);
                        } else {
                            assert(avoid_of(ov[i as int]).contains(v));
                        }
                    }
                    if before.contains(v) {
                        let k = choose|k: int| 0 <= k < before.len() && before[k] == v;
                        assert(vars_to_avoid@[k] == v);
                    }
                    if avoid_of(ov[i as int]).contains(v) {
                        match ops@[i as int] {
                            Op::Label(_, vs) | Op::Goto(_, vs) | Op::CondGoto(_, _, _, vs) | Op::Call(_, _, vs) | Op::Func(_, vs, _) => {
                                let k = choose|k: int| 0 <= k < vs@.len() && vs@[k] == v;
                                assert(vars_to_avoid@[before.len() as int + k] == v);
                            },
                            Op::Store(a, b, _) | Op::Load(a, b, _) => {
                                if v == a {
                                    assert(vars_to_avoid@[before.len() as int] == v);
                                } else {
                                    assert(vars_to_avoid@[before.len() as int + 1] == v);
                                }
                            },
                            _ => {
                                assert(vars_to_avoid@[before.len() as int] == v);
                            },
                        }
                    }
                }
                assert(vars_to_avoid@.to_set() =~= avoid_set(ov.subrange(0, i + 1)));
            }
            i = i + 1;
        }
        proof {
            assert(ov.subrange(0, ov.len() as int) =~= ov);
            assert(!is_extern(ov));
        }
        let ghost avoid = vars_to_avoid@.to_set();
        let ghost gl = globals@.to_set();
        let mut res: Result<(), usize> = Ok(());
        loop
            invariant
                avoid == vars_to_avoid@.to_set(),
                gl == globals@.to_set(),
                avoid == avoid_set(ov),
                !is_extern(ov),
                ov == ops_view(old(ops)@),
                frames_kept(ov, ops_view(ops@)),
                fold_fix(ops_view(ops@), avoid, gl) == fold_fix(ov, avoid, gl),
            ensures
                frames_kept(ov, ops_view(ops@)),
                res is Ok <==> fold_fix(ov, avoid, gl) is Some,
                res is Ok ==> fold_fix(ov, avoid, gl) == Some(ops_view(ops@)),
                res matches Err(p) ==> p < ops@.len() && malformed_fold(ops@[p as int]@),
            decreases heavy(ops_view(ops@)), vreads(ops_view(ops@)),
        {
            let ghost cur = ops_view(ops@);
            proof {
                lemma_pass(cur, avoid, gl);
            }
            match constant_fold_once(ops, &vars_to_avoid, globals) {
                Err(p) => {
                    proof {
                        lemma_first_bad(cur);
                        assert(cur[p as int] == ops@[p as int]@);
                    }
                    res = Err(p);
                    break;
                },
                Ok(changed) => {
                    if !changed {
                        res = Ok(());
                        break;
                    }
                    proof {
                        lemma_frames_trans(ov, cur, ops_view(ops@));
                    }
                },
            }
        }
        res
    }
}

proof fn lemma_first_bad(ops: Seq<OpV>)
    ensures
        first_bad(ops) matches Some(i) ==> 0 <= i < ops.len() && malformed_fold(ops[i]),
    decreases ops.len(),
{
    if ops.len() > 0 {
        lemma_first_bad(ops.drop_first());
        if let Some(k) = first_bad(ops.drop_first()) {
            assert(ops.drop_first()[k] == ops[k + 1]);
        }
    }
}

proof fn lemma_avoid_prefix(ops: Seq<OpV>, i: int)
    requires
        0 <= i < ops.len(),
    ensures
        avoid_set(ops.subrange(0, i + 1)) == avoid_set(ops.subrange(0, i)) + avoid_of(ops[i]),
{
    let p = ops.subrange(0, i);
    let q = ops.subrange(0, i + 1);
    assert forall|v: Var| avoid_set(q).contains(v) <==> (avoid_set(p) + avoid_of(ops[i])).contains(v) by {
        if avoid_set(q).contains(v) {
            let k = choose|k: int| 0 <= k < q.len() && #[trigger] avoid_of(q[k]).contains(v);
            if k < i {
                assert(avoid_of(p[k]).contains(v));
            }
        }
        if avoid_set(p).contains(v) {
            let k = choose|k: int| 0 <= k < p.len() && #[trigger] avoid_of(p[k]).contains(v);
            assert(avoid_of(q[k]).contains(v));
        }
        if avoid_of(ops[i]).contains(v) {
            assert(avoid_of(q[i]).contains(v));
        }
    }
    assert(avoid_set(q) =~= avoid_set(p) + avoid_of(ops[i]));
}


/// Folding keeps every label and jump with its variable list, so jumps that
/// named the same variables as their labels still do.
pub proof fn lemma_fold_keeps_label_agreement(ops: Seq<OpV>, globals: Set<Name>)
    requires
        folded(ops, globals) is Some,
        crate::ssa::labels_agree(ops),
    ensures
        crate::ssa::labels_agree(folded(ops, globals)->0),
{
    let y = folded(ops, globals)->0;
    if !is_extern(ops) {
        lemma_fix(ops, avoid_set(ops), globals);
    } else {
        assert forall|i: int| 0 <= i < ops.len() implies #[trigger] same_frame(ops[i], ops[i]) by {}
    }
    assert forall|i: int, j: int| 0 <= i < y.len() && 0 <= j < y.len() implies #[trigger] crate::ssa::agrees(y[i], y[j]) by {
        assert(same_frame(ops[i], y[i]));
        assert(same_frame(ops[j], y[j]));
        assert(crate::ssa::agrees(ops[i], ops[j]));
        assert(crate::ssa::payload(y[j]) == crate::ssa::payload(ops[j]));
    }
}

} // verus!
