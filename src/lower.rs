use vstd::prelude::*;
use crate::util::Width;
use crate::ir::{Var, RValueElem, UnOpNode, Op, OpV, ops_view};
use crate::regmap::{RegisterColor, ColorMap, color_map};
use crate::conflicts::{ConflictAnalyzer, conflict_edges, uses_count, pair_bound, use_total, must_total, params_fit, must_prefix, referenced_names, info_vars, touches};
use crate::liveness::{Opinfo, info_ok, live_exact, vars_of, op_uses, op_defs, op_touches};
use crate::color::{RegisterColorer, respects, graph_var, edge_has, count_key, color_key, slots_ok, slots_below, slot_taken};
use crate::target::{
    Reg, Pred, AluOp, CompareType, LsuOp, InstNode, JumpTarget, pack_int, pack_spec, NUM_PARAM_REGS, NUM_USABLE_VARS,
    STACK_POINTER, LINK_REGISTER, RETURN_REG, FIRST_CALLEE_SAVED_REG, TRUE_PRED_REG, true_pred, sp, lr,
};
use crate::codegen::{
    usable, var_reg, var_before, var_after, load32, store32, cmp_pred, lsu_width_spec, opt_seq,
    unop_spec, binop_spec, assign_spec, var_to_reg, try_convert_unop, try_convert_binop, assign_vars,
    width_to_lsuwidth, check_usable,
};

verus! {

/// The layout of a function's frame that the lowering needs.
#[derive(Clone, Copy, Debug)]
pub struct Frame {
    /// End of the alloca area, where the spill area starts.
    pub offs: u32,
    /// Highest register index that any variable was given.
    pub max_reg_index: u8,
    /// Highest spill slot that any variable was given.
    pub max_stack_index: i32,
}

/// Number of callee-saved registers that a function saves.
pub open spec fn callee_count(f: Frame) -> int {
    if f.max_reg_index >= FIRST_CALLEE_SAVED_REG { f.max_reg_index - FIRST_CALLEE_SAVED_REG + 1 } else { 0 }
}

pub open spec fn saves_fit(f: Frame) -> bool {
    f.offs + 4 * callee_count(f) <= i32::MAX
}

pub open spec fn callee_saves(f: Frame) -> Seq<InstNode> {
    Seq::new(callee_count(f) as nat, |x: int| InstNode::Store(true_pred(), store32(), sp(), (f.offs + x * 4) as i32,
        Reg { index: (FIRST_CALLEE_SAVED_REG + x) as u8 }))
}

pub open spec fn callee_restores(f: Frame) -> Seq<InstNode> {
    Seq::new(callee_count(f) as nat, |x: int| InstNode::Load(true_pred(), load32(), Reg { index: (FIRST_CALLEE_SAVED_REG + x) as u8 },
        sp(), (f.offs + x * 4) as i32))
}

/// Sum of the sizes of the allocas among `ops`.
pub open spec fn alloca_sum(ops: Seq<OpV>) -> int
    decreases ops.len(),
{
    if ops.len() == 0 {
        0
    } else {
        alloca_sum(ops.drop_last()) + match ops.last() {
            OpV::Alloca(_, n) => n as int,
            _ => 0,
        }
    }
}

/// The frame offset of the object that the alloca at `pos` reserves: allocas
/// are laid out in order after the saved return address.
pub open spec fn alloca_offset(ops: Seq<OpV>, pos: int) -> int {
    4 + alloca_sum(ops.subrange(0, pos))
}

/// The variable list of the first label `id` among `ops`.
pub open spec fn label_payload(ops: Seq<OpV>, id: usize) -> Option<Seq<Var>>
    decreases ops.len(),
{
    if ops.len() == 0 {
        None
    } else if ops[0] is Label && ops[0]->Label_0 == id {
        Some(ops[0]->Label_1)
    } else {
        label_payload(ops.drop_first(), id)
    }
}

/// Jump moves followed by `tail`, when the label exists and every move can be made.
pub open spec fn jump_spec(m: Map<Var, RegisterColor>, f: Frame, ops: Seq<OpV>, id: usize, vars: Seq<Var>, tail: Seq<InstNode>) -> Option<Seq<InstNode>> {
    match label_payload(ops, id) {
        Some(lv) => match assign_spec(m, true_pred(), lv, vars, f.offs) {
            Some(mv) => Some(mv + tail),
            None => None,
        },
        None => None,
    }
}

/// Where the outgoing arguments start: after the spill area.
pub open spec fn stack_arg_offs(f: Frame) -> int {
    f.offs + (f.max_stack_index + 1) * 4
}

/// How far the stack pointer moves for a call with `total` arguments.
pub open spec fn call_bump(f: Frame, total: int) -> int {
    if total >= NUM_PARAM_REGS {
        stack_arg_offs(f) + (total - NUM_PARAM_REGS) * 4
    } else {
        stack_arg_offs(f) + NUM_PARAM_REGS * 4
    }
}

pub open spec fn save_count(total: int) -> int {
    if total < NUM_PARAM_REGS { NUM_PARAM_REGS - total } else { 0 }
}

/// Stores of the argument registers that this call does not use.
pub open spec fn caller_saves(f: Frame, total: int) -> Seq<InstNode> {
    Seq::new(save_count(total) as nat, |i: int| InstNode::Store(true_pred(), store32(), sp(),
        (stack_arg_offs(f) + i * 4) as i32, Reg { index: (total + i) as u8 }))
}

pub open spec fn caller_restores(f: Frame, total: int) -> Seq<InstNode> {
    Seq::new(save_count(total) as nat, |i: int| InstNode::Load(true_pred(), load32(), Reg { index: (total + i) as u8 },
        sp(), (stack_arg_offs(f) + i * 4) as i32))
}

/// Stores of the first `n` arguments that go on the stack.
pub open spec fn stack_args(m: Map<Var, RegisterColor>, f: Frame, vars: Seq<Var>, n: int) -> Option<Seq<InstNode>>
    decreases n,
{
    if n <= 0 {
        Some(Seq::empty())
    } else {
        match stack_args(m, f, vars, n - 1) {
            Some(p) => {
                let v = vars[NUM_PARAM_REGS + n - 1];
                if usable(m, v, f.offs) {
                    Some(p + var_before(m, v, 0, f.offs) + seq![InstNode::Store(true_pred(), store32(), sp(),
                        (stack_arg_offs(f) + (n - 1) * 4) as i32, var_reg(m, v, 0))])
                } else {
                    None
                }
            },
            None => None,
        }
    }
}

pub open spec fn call_spec(m: Map<Var, RegisterColor>, f: Frame, target: RValueElem, vars: Seq<Var>) -> Option<Seq<InstNode>> {
    let total = vars.len() as int;
    let bump = call_bump(f, total);
    if !(target is Variable) || bump > i32::MAX || f.max_stack_index < 0 {
        None
    } else {
        match pack_spec(bump as u32, 10) {
            None => None,
            Some((b, s)) => match stack_args(m, f, vars, total - NUM_PARAM_REGS) {
                None => None,
                Some(args) => Some(caller_saves(f, total) + args + seq![
                    InstNode::Alu2Short(true_pred(), AluOp::AddAluOp, sp(), sp(), b, s),
                    InstNode::BranchImm(true_pred(), true, JumpTarget::FuncLabel(target->Variable_0.name)),
                    InstNode::Alu2Short(true_pred(), AluOp::SubAluOp, sp(), sp(), b, s),
                ] + caller_restores(f, total)),
            },
        }
    }
}

/// What the operation at `pos` lowers to, or `None` when it is malformed.
pub open spec fn lower_op(m: Map<Var, RegisterColor>, f: Frame, ops: Seq<OpV>, pos: int) -> Option<Seq<InstNode>> {
    match ops[pos] {
        OpV::Func(_, _, _) => if saves_fit(f) {
            Some(seq![
                InstNode::Alu2Short(true_pred(), AluOp::AddAluOp, lr(), lr(), 16, 0),
                InstNode::Store(true_pred(), store32(), sp(), 0, lr()),
            ] + callee_saves(f))
        } else {
            None
        },
        OpV::Return(rv) => match unop_spec(m, Reg { index: RETURN_REG }, UnOpNode::Identity, rv, f.offs) {
            Some(p) => if saves_fit(f) {
                Some(p + callee_restores(f) + seq![
                    InstNode::Load(true_pred(), load32(), lr(), sp(), 0),
                    InstNode::BranchReg(true_pred(), false, lr(), 0),
                ])
            } else {
                None
            },
            None => None,
        },
        OpV::BinOp(v, op, a, b, signed) => if usable(m, v, f.offs) {
            match binop_spec(m, var_reg(m, v, 0), op, a, b, signed, f.offs) {
                Some(p) => Some(p + var_after(m, v, 0, f.offs)),
                None => None,
            }
        } else {
            None
        },
        OpV::UnOp(v, op, a) => if usable(m, v, f.offs) {
            match unop_spec(m, var_reg(m, v, 0), op, a, f.offs) {
                Some(p) => Some(p + var_after(m, v, 0, f.offs)),
                None => None,
            }
        } else {
            None
        },
        OpV::Load(d, a, w) => if usable(m, d, f.offs) && usable(m, a, f.offs) && !(w is AnyWidth) {
            Some(var_before(m, a, 1, f.offs) + seq![InstNode::Load(true_pred(), LsuOp { store: false, width: lsu_width_spec(w) },
                var_reg(m, d, 0), var_reg(m, a, 1), 0)] + var_after(m, d, 0, f.offs))
        } else {
            None
        },
        OpV::Store(a, v, w) => if usable(m, a, f.offs) && usable(m, v, f.offs) && !(w is AnyWidth) {
            Some(var_before(m, a, 0, f.offs) + var_before(m, v, 1, f.offs) + seq![InstNode::Store(true_pred(),
                LsuOp { store: true, width: lsu_width_spec(w) }, var_reg(m, a, 0), 0, var_reg(m, v, 1))])
        } else {
            None
        },
        OpV::Alloca(v, _) => if usable(m, v, f.offs) {
            Some(seq![InstNode::Alu2Short(true_pred(), AluOp::AddAluOp, var_reg(m, v, 0), sp(), alloca_offset(ops, pos) as u32, 0)]
                + var_after(m, v, 0, f.offs))
        } else {
            None
        },
        OpV::Call(_, target, vars) => call_spec(m, f, target, vars),
        OpV::Label(_, _) => Some(Seq::empty()),
        OpV::Goto(id, vars) => {
            let next_is_label = pos + 1 < ops.len() && ops[pos + 1] is Label && ops[pos + 1]->Label_0 == id;
            jump_spec(m, f, ops, id, vars, if next_is_label { Seq::empty() } else {
                seq![InstNode::BranchImm(true_pred(), false, JumpTarget::LocalLabel(id))]
            })
        },
        OpV::CondGoto(negated, cond, id, vars) => match cond {
            RValueElem::Variable(c) => if usable(m, c, f.offs) {
                match jump_spec(m, f, ops, id, vars, seq![InstNode::BranchImm(cmp_pred(negated), false, JumpTarget::LocalLabel(id))]) {
                    Some(j) => Some(var_before(m, c, 0, f.offs) + seq![InstNode::CompareShort(true_pred(), cmp_pred(false),
                        var_reg(m, c, 0), CompareType::CmpBS, 1, 0)] + j),
                    None => None,
                }
            } else {
                None
            },
            RValueElem::Constant(_) => None,
        },
        OpV::Nop => Some(Seq::empty()),
    }
}

fn emit_callee_saves(f: &Frame, restore: bool) -> (r: Vec<InstNode>)
    requires
        saves_fit(*f),
    ensures
        r@ == (if restore { callee_restores(*f) } else { callee_saves(*f) }),
{
    let pred = Pred { inverted: false, reg: TRUE_PRED_REG };
    let mut r: Vec<InstNode> = Vec::new();
    if f.max_reg_index < FIRST_CALLEE_SAVED_REG {
        assert(r@ =~= (if restore { callee_restores(*f) } else { callee_saves(*f) }));
        return r;
    }
    let count: u8 = f.max_reg_index - FIRST_CALLEE_SAVED_REG + 1;
    let mut x: u8 = 0;
    while x < count
        invariant
            x <= count,
            count as int == callee_count(*f),
            pred == true_pred(),
            saves_fit(*f),
            r@ == (if restore { callee_restores(*f) } else { callee_saves(*f) }).subrange(0, x as int),
        decreases count - x,
    {
        let reg = Reg { index: FIRST_CALLEE_SAVED_REG + x };
        let off = (f.offs as u64 + x as u64 * 4) as i32;
        if restore {
            r.push(InstNode::Load(pred, LsuOp { store: false, width: crate::target::LsuWidth::LsuWidthL }, reg, Reg { index: STACK_POINTER }, off));
        } else {
            r.push(InstNode::Store(pred, LsuOp { store: true, width: crate::target::LsuWidth::LsuWidthL }, Reg { index: STACK_POINTER }, off, reg));
        }
        proof {
            let want = if restore { callee_restores(*f) } else { callee_saves(*f) };
            assert(want[x as int] == r@[x as int]);
        }
        x = x + 1;
        assert(r@ =~= (if restore { callee_restores(*f) } else { callee_saves(*f) }).subrange(0, x as int));
    }
    assert(r@ =~= (if restore { callee_restores(*f) } else { callee_saves(*f) }));
    r
}

fn label_payload_exec(ops: &Vec<Op>, id: usize) -> (r: Option<&Vec<Var>>)
    ensures
        r matches Some(v) ==> label_payload(ops_view(ops@), id) == Some(v@),
        r is None ==> label_payload(ops_view(ops@), id) is None,
{
    let ghost ov = ops_view(ops@);
    let mut i: usize = 0;
    assert(ov.subrange(0, ov.len() as int) =~= ov);
    while i < ops.len()
        invariant
            i <= ops@.len(),
            ov == ops_view(ops@),
            label_payload(ov, id) == label_payload(ov.subrange(i as int, ov.len() as int), id),
        decreases ops@.len() - i,
    {
        proof {
            let t = ov.subrange(i as int, ov.len() as int);
            assert(t.drop_first() =~= ov.subrange(i + 1, ov.len() as int));
            assert(t[0] == ops@[i as int]@);
        }
        match &ops[i] {
            Op::Label(l, vs) => {
                if *l == id {
                    return Some(vs);
                }
            },
            _ => {},
        }
        i = i + 1;
    }
    None
}

fn jump_exec(ops: &Vec<Op>, regmap: &ColorMap, f: &Frame, id: usize, vars: &Vec<Var>, tail: Vec<InstNode>) -> (r: Option<Vec<InstNode>>)
    ensures
        opt_seq(r) == jump_spec(regmap@, *f, ops_view(ops@), id, vars@, tail@),
{
    let lv = match label_payload_exec(ops, id) {
        Some(lv) => lv,
        None => return None,
    };
    let pred = Pred { inverted: false, reg: TRUE_PRED_REG };
    match assign_vars(regmap, &pred, lv, vars, f.offs) {
        Some(mut mv) => {
            let mut t = tail;
            mv.append(&mut t);
            Some(mv)
        },
        None => None,
    }
}

proof fn lemma_stack_args_none(m: Map<Var, RegisterColor>, f: Frame, vars: Seq<Var>, i: int, n: int)
    requires
        0 <= i <= n,
        stack_args(m, f, vars, i) is None,
    ensures
        stack_args(m, f, vars, n) is None,
    decreases n - i,
{
    if i < n {
        lemma_stack_args_none(m, f, vars, i + 1, n);
    }
}

fn lower_call(regmap: &ColorMap, f: &Frame, target: &RValueElem, vars: &Vec<Var>) -> (r: Option<Vec<InstNode>>)
    ensures
        opt_seq(r) == call_spec(regmap@, *f, *target, vars@),
{
    let total: usize = vars.len();
    let fname = match target {
        RValueElem::Variable(v) => v.name,
        _ => return None,
    };
    if f.max_stack_index < 0 {
        return None;
    }
    let sao: i128 = f.offs as i128 + (f.max_stack_index as i128 + 1) * 4;
    let bump: i128 = if total >= NUM_PARAM_REGS {
        sao + (total as i128 - NUM_PARAM_REGS as i128) * 4
    } else {
        sao + NUM_PARAM_REGS as i128 * 4
    };
    if bump > i32::MAX as i128 {
        return None;
    }
    let (b, sh) = match pack_int(bump as u32, 10) {
        Some(p) => p,
        None => return None,
    };
    let pred = Pred { inverted: false, reg: TRUE_PRED_REG };
    let spr = Reg { index: STACK_POINTER };
    let mut result: Vec<InstNode> = Vec::new();
    let saves: usize = if total < NUM_PARAM_REGS { NUM_PARAM_REGS - total } else { 0 };
    let mut i: usize = 0;
    while i < saves
        invariant
            i <= saves,
            saves == save_count(total as int),
            total == vars@.len(),
            sao == stack_arg_offs(*f),
            bump == call_bump(*f, total as int),
            bump <= i32::MAX,
            f.max_stack_index >= 0,
            pred == true_pred(),
            spr == sp(),
            result@ == caller_saves(*f, total as int).subrange(0, i as int),
        decreases saves - i,
    {
        result.push(InstNode::Store(pred, LsuOp { store: true, width: crate::target::LsuWidth::LsuWidthL }, spr,
            (sao + i as i128 * 4) as i32, Reg { index: (total + i) as u8 }));
        i = i + 1;
        assert(result@ =~= caller_saves(*f, total as int).subrange(0, i as int));
    }
    assert(result@ =~= caller_saves(*f, total as int));
    let ghost saved = result@;
    let nstack: usize = if total > NUM_PARAM_REGS { total - NUM_PARAM_REGS } else { 0 };
    let mut k: usize = 0;
    proof {
        assert(stack_args(regmap@, *f, vars@, 0) == Some(Seq::<InstNode>::empty()));
        assert(saved + Seq::<InstNode>::empty() =~= saved);
    }
    while k < nstack
        invariant
            k <= nstack,
            nstack == (if total > NUM_PARAM_REGS { total - NUM_PARAM_REGS } else { 0 }),
            total == vars@.len(),
            sao == stack_arg_offs(*f),
            bump == call_bump(*f, total as int),
            bump <= i32::MAX,
            f.max_stack_index >= 0,
            pred == true_pred(),
            spr == sp(),
            stack_args(regmap@, *f, vars@, k as int) matches Some(a) && result@ == saved + a,
        decreases nstack - k,
    {
        let v = vars[NUM_PARAM_REGS + k];
        if !check_usable(regmap, &v, f.offs) {
            proof {
                assert(stack_args(regmap@, *f, vars@, k as int + 1) is None);
                lemma_stack_args_none(regmap@, *f, vars@, k as int + 1, nstack as int);
            }
            return None;
        }
        let (reg, mut before, _) = var_to_reg(regmap, &v, 0, f.offs);
        result.append(&mut before);
        result.push(InstNode::Store(pred, LsuOp { store: true, width: crate::target::LsuWidth::LsuWidthL }, spr,
            (sao + k as i128 * 4) as i32, reg));
        k = k + 1;
        proof {
            let a = stack_args(regmap@, *f, vars@, k - 1)->0;
            assert(result@ =~= saved + (a + var_before(regmap@, v, 0, f.offs) + seq![InstNode::Store(true_pred(), store32(), sp(),
                (stack_arg_offs(*f) + (k - 1) * 4) as i32, var_reg(regmap@, v, 0))]));
        }
    }
    result.push(InstNode::Alu2Short(pred, AluOp::AddAluOp, spr, spr, b, sh));
    result.push(InstNode::BranchImm(pred, true, JumpTarget::FuncLabel(fname)));
    result.push(InstNode::Alu2Short(pred, AluOp::SubAluOp, spr, spr, b, sh));
    let ghost mid = result@;
    let mut j: usize = 0;
    while j < saves
        invariant
            j <= saves,
            saves == save_count(total as int),
            total == vars@.len(),
            sao == stack_arg_offs(*f),
            bump == call_bump(*f, total as int),
            bump <= i32::MAX,
            f.max_stack_index >= 0,
            pred == true_pred(),
            spr == sp(),
            result@ == mid + caller_restores(*f, total as int).subrange(0, j as int),
        decreases saves - j,
    {
        result.push(InstNode::Load(pred, LsuOp { store: false, width: crate::target::LsuWidth::LsuWidthL },
            Reg { index: (total + j) as u8 }, spr, (sao + j as i128 * 4) as i32));
        j = j + 1;
        assert(result@ =~= mid + caller_restores(*f, total as int).subrange(0, j as int));
    }
    proof {
        assert(caller_restores(*f, total as int).subrange(0, saves as int) =~= caller_restores(*f, total as int));
        let spec = call_spec(regmap@, *f, *target, vars@);
        assert(spec is Some);
        assert(result@ =~= spec->0);
    }
    Some(result)
}

/// Lowers the operation at `pos`; `alloca_off` is where an alloca there puts its object.
fn lower_op_exec(ops: &Vec<Op>, pos: usize, regmap: &ColorMap, f: &Frame, alloca_off: u32) -> (r: Option<Vec<InstNode>>)
    requires
        pos < ops@.len(),
        alloca_off == alloca_offset(ops_view(ops@), pos as int),
    ensures
        opt_seq(r) == lower_op(regmap@, *f, ops_view(ops@), pos as int),
{
    let pred = Pred { inverted: false, reg: TRUE_PRED_REG };
    let spr = Reg { index: STACK_POINTER };
    let lrr = Reg { index: LINK_REGISTER };
    let ghost ov = ops_view(ops@);
    assert(ov[pos as int] == ops@[pos as int]@);
    match &ops[pos] {
        Op::Func(..) => {
            if f.offs as u64 + 4 * (if f.max_reg_index >= FIRST_CALLEE_SAVED_REG { (f.max_reg_index - FIRST_CALLEE_SAVED_REG + 1) as u64 } else { 0 }) > i32::MAX as u64 {
                return None;
            }
            let mut r = vec![
                InstNode::Alu2Short(pred, AluOp::AddAluOp, lrr, lrr, 16, 0),
                InstNode::Store(pred, LsuOp { store: true, width: crate::target::LsuWidth::LsuWidthL }, spr, 0, lrr),
            ];
            let mut saves = emit_callee_saves(f, false);
            r.append(&mut saves);
            proof {
                assert(r@ =~= lower_op(regmap@, *f, ov, pos as int)->0);
            }
            Some(r)
        },
        Op::Return(rv) => {
            let mut r = match try_convert_unop(regmap, Reg { index: RETURN_REG }, &UnOpNode::Identity, rv, f.offs) {
                Some(r) => r,
                None => return None,
            };
            if f.offs as u64 + 4 * (if f.max_reg_index >= FIRST_CALLEE_SAVED_REG { (f.max_reg_index - FIRST_CALLEE_SAVED_REG + 1) as u64 } else { 0 }) > i32::MAX as u64 {
                return None;
            }
            let mut restores = emit_callee_saves(f, true);
            r.append(&mut restores);
            r.push(InstNode::Load(pred, LsuOp { store: false, width: crate::target::LsuWidth::LsuWidthL }, lrr, spr, 0));
            r.push(InstNode::BranchReg(pred, false, lrr, 0));
            proof {
                assert(r@ =~= lower_op(regmap@, *f, ov, pos as int)->0);
            }
            Some(r)
        },
        Op::BinOp(v, op, a, b, signed) => {
            if !check_usable(regmap, v, f.offs) {
                return None;
            }
            let (reg, _, mut after) = var_to_reg(regmap, v, 0, f.offs);
            match try_convert_binop(regmap, reg, op, a, b, *signed, f.offs) {
                Some(mut r) => {
                    r.append(&mut after);
                    Some(r)
                },
                None => None,
            }
        },
        Op::UnOp(v, op, a) => {
            if !check_usable(regmap, v, f.offs) {
                return None;
            }
            let (reg, _, mut after) = var_to_reg(regmap, v, 0, f.offs);
            match try_convert_unop(regmap, reg, op, a, f.offs) {
                Some(mut r) => {
                    r.append(&mut after);
                    Some(r)
                },
                None => None,
            }
        },
        Op::Load(d, a, w) => {
            if !check_usable(regmap, d, f.offs) || !check_usable(regmap, a, f.offs) || *w == Width::AnyWidth {
                return None;
            }
            let (rd, _, mut after) = var_to_reg(regmap, d, 0, f.offs);
            let (ra, mut r, _) = var_to_reg(regmap, a, 1, f.offs);
            r.push(InstNode::Load(pred, LsuOp { store: false, width: width_to_lsuwidth(w) }, rd, ra, 0));
            r.append(&mut after);
            proof {
                assert(r@ =~= lower_op(regmap@, *f, ov, pos as int)->0);
            }
            Some(r)
        },
        Op::Store(a, v, w) => {
            if !check_usable(regmap, a, f.offs) || !check_usable(regmap, v, f.offs) || *w == Width::AnyWidth {
                return None;
            }
            let (ra, mut r, _) = var_to_reg(regmap, a, 0, f.offs);
            let (rv, mut before, _) = var_to_reg(regmap, v, 1, f.offs);
            r.append(&mut before);
            r.push(InstNode::Store(pred, LsuOp { store: true, width: width_to_lsuwidth(w) }, ra, 0, rv));
            proof {
                assert(r@ =~= lower_op(regmap@, *f, ov, pos as int)->0);
            }
            Some(r)
        },
        Op::Alloca(v, _) => {
            if !check_usable(regmap, v, f.offs) {
                return None;
            }
            let (reg, _, mut after) = var_to_reg(regmap, v, 0, f.offs);
            let mut r = vec![InstNode::Alu2Short(pred, AluOp::AddAluOp, reg, spr, alloca_off, 0)];
            r.append(&mut after);
            proof {
                assert(r@ =~= lower_op(regmap@, *f, ov, pos as int)->0);
            }
            Some(r)
        },
        Op::Call(_, target, vars) => {
            lower_call(regmap, f, target, vars)
        },
        Op::Label(..) => {
            let r: Vec<InstNode> = Vec::new();
            assert(r@ =~= lower_op(regmap@, *f, ov, pos as int)->0);
            Some(r)
        },
        Op::Goto(id, vars) => {
            let mut next_is_label = false;
            if pos < ops.len() - 1 {
                match &ops[pos + 1] {
                    Op::Label(l, _) => {
                        next_is_label = *l == *id;
                    },
                    _ => {},
                }
            }
            proof {
                if pos + 1 < ops@.len() {
                    assert(ov[pos + 1] == ops@[pos + 1]@);
                }
            }
            let tail = if next_is_label { Vec::new() } else { vec![InstNode::BranchImm(pred, false, JumpTarget::LocalLabel(*id))] };
            proof {
                let want = if next_is_label { Seq::<InstNode>::empty() } else {
                    seq![InstNode::BranchImm(true_pred(), false, JumpTarget::LocalLabel(*id))]
                };
                assert(tail@ =~= want);
            }
            jump_exec(ops, regmap, f, *id, vars, tail)
        },
        Op::CondGoto(negated, cond, id, vars) => {
            match cond {
                RValueElem::Variable(c) => {
                    if !check_usable(regmap, c, f.offs) {
                        return None;
                    }
                    let tail = vec![InstNode::BranchImm(Pred { inverted: *negated, reg: 0 }, false, JumpTarget::LocalLabel(*id))];
                    proof {
                        assert(tail@ =~= seq![InstNode::BranchImm(cmp_pred(*negated), false, JumpTarget::LocalLabel(*id))]);
                    }
                    let mut j = match jump_exec(ops, regmap, f, *id, vars, tail) {
                        Some(j) => j,
                        None => return None,
                    };
                    let (reg, mut r, _) = var_to_reg(regmap, c, 0, f.offs);
                    r.push(InstNode::CompareShort(pred, Pred { inverted: false, reg: 0 }, reg, CompareType::CmpBS, 1, 0));
                    r.append(&mut j);
                    proof {
                        assert(r@ =~= lower_op(regmap@, *f, ov, pos as int)->0);
                    }
                    Some(r)
                },
                RValueElem::Constant(_) => None,
            }
        },
        Op::Nop => {
            let r: Vec<InstNode> = Vec::new();
            assert(r@ =~= lower_op(regmap@, *f, ov, pos as int)->0);
            Some(r)
        },
    }
}

/// The instructions for the first `n` operations, or `None` when one of them is malformed.
pub open spec fn lower_prefix(m: Map<Var, RegisterColor>, f: Frame, ops: Seq<OpV>, n: int) -> Option<Seq<InstNode>>
    decreases n,
{
    if n <= 0 {
        Some(Seq::empty())
    } else {
        match lower_prefix(m, f, ops, n - 1) {
            Some(p) => match lower_op(m, f, ops, n - 1) {
                Some(q) => Some(p + q),
                None => None,
            },
            None => None,
        }
    }
}

/// The entries of the label table for the first `n` operations: each
/// function head and each label, with the offset of the next instruction.
pub open spec fn targets_prefix(m: Map<Var, RegisterColor>, f: Frame, ops: Seq<OpV>, n: int) -> Seq<(JumpTarget, usize)>
    decreases n,
{
    if n <= 0 {
        Seq::empty()
    } else {
        let t = targets_prefix(m, f, ops, n - 1);
        let here = lower_prefix(m, f, ops, n - 1)->0.len() as usize;
        match ops[n - 1] {
            OpV::Func(name, _, _) => t.push((JumpTarget::FuncLabel(name), here)),
            OpV::Label(id, _) => t.push((JumpTarget::LocalLabel(id), here)),
            _ => t,
        }
    }
}

proof fn lemma_prefix_none(m: Map<Var, RegisterColor>, f: Frame, ops: Seq<OpV>, i: int, n: int)
    requires
        0 <= i <= n,
        lower_prefix(m, f, ops, i) is None,
    ensures
        lower_prefix(m, f, ops, n) is None,
    decreases n - i,
{
    if i < n {
        lemma_prefix_none(m, f, ops, i + 1, n);
    }
}

proof fn lemma_alloca_prefix(ops: Seq<OpV>, i: int, j: int)
    requires
        0 <= i <= j <= ops.len(),
    ensures
        alloca_sum(ops.subrange(0, i)) <= alloca_sum(ops.subrange(0, j)),
    decreases j - i,
{
    if i < j {
        lemma_alloca_prefix(ops, i, j - 1);
        assert(ops.subrange(0, j).drop_last() =~= ops.subrange(0, j - 1));
    }
}

/// Lowers a function body with the given colors and frame. On success, the
/// instructions and the label table; otherwise the position of the first
/// operation that could not be lowered.
pub fn lower_function(ops: &Vec<Op>, regmap: &ColorMap, f: &Frame) -> (r: Result<(Vec<InstNode>, Vec<(JumpTarget, usize)>), usize>)
    requires
        4 + alloca_sum(ops_view(ops@)) <= u32::MAX,
    ensures
        r is Ok <==> lower_prefix(regmap@, *f, ops_view(ops@), ops@.len() as int) is Some,
        r matches Ok((insts, tg)) ==> lower_prefix(regmap@, *f, ops_view(ops@), ops@.len() as int) == Some(insts@)
            && tg@ == targets_prefix(regmap@, *f, ops_view(ops@), ops@.len() as int),
        r matches Err(p) ==> p < ops@.len() && lower_prefix(regmap@, *f, ops_view(ops@), p as int) is Some
            && lower_op(regmap@, *f, ops_view(ops@), p as int) is None,
{
    let ghost ov = ops_view(ops@);
    let mut result: Vec<InstNode> = Vec::new();
    let mut targets: Vec<(JumpTarget, usize)> = Vec::new();
    let mut alloca_off: u32 = 4;
    let mut pos: usize = 0;
    proof {
        assert(ov.subrange(0, 0) =~= Seq::<OpV>::empty());
        assert(ov.subrange(0, ov.len() as int) =~= ov);
    }
    while pos < ops.len()
        invariant
            pos <= ops@.len(),
            ov == ops_view(ops@),
            ov.len() == ops@.len(),
            4 + alloca_sum(ov) <= u32::MAX,
            alloca_off == 4 + alloca_sum(ov.subrange(0, pos as int)),
            lower_prefix(regmap@, *f, ov, pos as int) == Some(result@),
            targets@ == targets_prefix(regmap@, *f, ov, pos as int),
        decreases ops@.len() - pos,
    {
        match &ops[pos] {
            Op::Func(name, _, _) => {
                targets.push((JumpTarget::FuncLabel(*name), result.len()));
            },
            Op::Label(id, _) => {
                targets.push((JumpTarget::LocalLabel(*id), result.len()));
            },
            _ => {},
        }
        let mut insts = match lower_op_exec(ops, pos, regmap, f, alloca_off) {
            Some(i) => i,
            None => {
                proof {
                    assert(lower_prefix(regmap@, *f, ov, pos as int + 1) is None);
                    lemma_prefix_none(regmap@, *f, ov, pos as int + 1, ov.len() as int);
                }
                return Err(pos);
            },
        };
        proof {
            lemma_alloca_prefix(ov, pos as int + 1, ov.len() as int);
            assert(ov.subrange(0, pos + 1).drop_last() =~= ov.subrange(0, pos as int));
            assert(ov[pos as int] == ops@[pos as int]@);
            assert(ov.subrange(0, ov.len() as int) =~= ov);
        }
        match &ops[pos] {
            Op::Alloca(_, size) => {
                alloca_off = alloca_off + *size;
            },
            _ => {},
        }
        result.append(&mut insts);
        pos = pos + 1;
    }
    Ok((result, targets))
}

/// Why a function body could not be lowered.
#[derive(PartialEq, Eq, Clone, Copy, Debug, Structural)]
pub enum LowerError {
    /// The body, its frame or its graph is beyond what the frame layout can address.
    TooLarge,
    /// The operation at this position is malformed for this stage.
    Malformed(usize),
}

/// The highest register index among the colors.
pub open spec fn max_reg(s: Seq<(Var, RegisterColor)>) -> u8
    decreases s.len(),
{
    if s.len() == 0 {
        0
    } else {
        let m = max_reg(s.drop_last());
        match s.last().1 {
            RegisterColor::RegColor(r) => if r.index > m { r.index } else { m },
            _ => m,
        }
    }
}

/// The highest stack slot among the colors (at least 0).
pub open spec fn max_stack(s: Seq<(Var, RegisterColor)>) -> i32
    decreases s.len(),
{
    if s.len() == 0 {
        0
    } else {
        let m = max_stack(s.drop_last());
        match s.last().1 {
            RegisterColor::StackColor(i) => if i > m { i } else { m },
            _ => m,
        }
    }
}

/// The frame of a function body whose variables have the colors `colors`.
pub open spec fn frame_of(colors: Seq<(Var, RegisterColor)>, ops: Seq<OpV>) -> Frame {
    Frame { offs: (4 + alloca_sum(ops)) as u32, max_reg_index: max_reg(colors), max_stack_index: max_stack(colors) }
}

fn frame_exec(regmap: &ColorMap, ops: &Vec<Op>) -> (r: Option<Frame>)
    ensures
        r matches Some(f) ==> f == frame_of(regmap.entries@, ops_view(ops@)) && 4 + alloca_sum(ops_view(ops@)) <= u32::MAX,
        r is None ==> 4 + alloca_sum(ops_view(ops@)) > u32::MAX,
{
    let ghost ov = ops_view(ops@);
    let mut total: u64 = 4;
    let mut i: usize = 0;
    while i < ops.len()
        invariant
            i <= ops@.len(),
            ov == ops_view(ops@),
            total == 4 + alloca_sum(ov.subrange(0, i as int)),
            total <= u32::MAX,
        decreases ops@.len() - i,
    {
        proof {
            assert(ov.subrange(0, i + 1).drop_last() =~= ov.subrange(0, i as int));
            assert(ov[i as int] == ops@[i as int]@);
        }
        match &ops[i] {
            Op::Alloca(_, size) => {
                if total + *size as u64 > u32::MAX as u64 {
                    proof {
                        lemma_alloca_prefix(ov, i as int + 1, ov.len() as int);
                        assert(ov.subrange(0, ov.len() as int) =~= ov);
                    }
                    return None;
                }
                total = total + *size as u64;
            },
            _ => {},
        }
        i = i + 1;
    }
    assert(ov.subrange(0, ov.len() as int) =~= ov);
    let mut max_r: u8 = 0;
    let mut max_s: i32 = 0;
    let mut k: usize = 0;
    while k < regmap.entries.len()
        invariant
            k <= regmap.entries@.len(),
            max_r == max_reg(regmap.entries@.subrange(0, k as int)),
            max_s == max_stack(regmap.entries@.subrange(0, k as int)),
        decreases regmap.entries@.len() - k,
    {
        proof {
            assert(regmap.entries@.subrange(0, k + 1).drop_last() =~= regmap.entries@.subrange(0, k as int));
        }
        match regmap.entries[k].1 {
            RegisterColor::RegColor(r) => {
                if r.index > max_r {
                    max_r = r.index;
                }
            },
            RegisterColor::StackColor(s) => {
                if s > max_s {
                    max_s = s;
                }
            },
            _ => {},
        }
        k = k + 1;
    }
    assert(regmap.entries@.subrange(0, regmap.entries@.len() as int) =~= regmap.entries@);
    Some(Frame { offs: total as u32, max_reg_index: max_r, max_stack_index: max_s })
}

/// Where a variable may be placed: an address-taken name lives on the stack,
/// a fixed color is kept unless it clashes (then a stack slot), any other
/// register is one the allocator may hand out, and nothing is global. Only
/// fixed colors use negative slots; the others are dense from 0 and fewer
/// than the body's variables.
pub open spec fn placed(ops: Seq<Op>, m: Map<Var, RegisterColor>, v: Var) -> bool {
    let must = must_prefix(ops_view(ops), ops.len() as int);
    &&& referenced_names(ops_view(ops)).contains(v.name) ==> m[v] is StackColor
    &&& must.contains_key(v) ==> (m[v] == must[v] || m[v] is StackColor)
    &&& (!must.contains_key(v) && m[v] is RegColor) ==> m[v]->RegColor_0.index < NUM_USABLE_VARS
    &&& !(m[v] is GlobalColor)
    &&& (m[v] is StackColor && m[v]->StackColor_0 < 0) ==> (must.contains_key(v) && m[v] == must[v])
    &&& (m[v] is StackColor && m[v]->StackColor_0 >= 0) ==> m[v]->StackColor_0 < vars_of(ops).len()
    &&& (m[v] is StackColor && m[v]->StackColor_0 >= 0) ==>
            forall|slot: int| 0 <= slot < m[v]->StackColor_0 ==> #[trigger] slot_taken(m, slot)
}

/// `m` is a register allocation of the body: it colors both ends of every
/// conflict of the body's liveness, differently, places each variable as the
/// calling convention and the address-taken names require, and colors only
/// variables of the body.
pub open spec fn allocation(ops: Seq<Op>, m: Map<Var, RegisterColor>) -> bool {
    &&& exists|infos: Seq<Opinfo>| live_exact(ops, infos)
        && (forall|e: (Var, Var)| #[trigger] conflict_edges(infos).contains(e) ==>
            m.contains_key(e.0) && m.contains_key(e.1) && m[e.0] != m[e.1])
    &&& forall|v: Var| #[trigger] m.contains_key(v) ==> placed(ops, m, v)
    &&& forall|v: Var| #[trigger] m.contains_key(v) ==> vars_of(ops).contains(v)
}

proof fn lemma_len_le_set(s: Seq<Var>, big: Set<Var>)
    requires
        s.no_duplicates(),
        s.to_set().subset_of(big),
        big.finite(),
    ensures
        s.len() <= big.len(),
{
    s.unique_seq_to_set();
    vstd::set_lib::lemma_len_subset(s.to_set(), big);
}

pub struct IrToAsm;

impl IrToAsm {
    /// Allocates registers for a function body in SSA form and lowers it to
    /// target instructions, with a table of where each function head and
    /// label starts.
    pub fn ir_to_asm(ops: &Vec<Op>) -> (r: Result<(Vec<InstNode>, Vec<(JumpTarget, usize)>), LowerError>)
        ensures
            r matches Ok((insts, tg)) ==> exists|colors: Seq<(Var, RegisterColor)>|
                #[trigger] lower_prefix(color_map(colors), frame_of(colors, ops_view(ops@)), ops_view(ops@), ops@.len() as int) == Some(insts@)
                && tg@ == targets_prefix(color_map(colors), frame_of(colors, ops_view(ops@)), ops_view(ops@), ops@.len() as int)
                && allocation(ops@, color_map(colors)),
            r matches Err(LowerError::Malformed(p)) ==> p < ops@.len() && (ops_view(ops@)[p as int] matches OpV::UnOp(_, UnOpNode::AddrOf, RValueElem::Constant(_))
                || exists|colors: Seq<(Var, RegisterColor)>|
                #[trigger] lower_op(color_map(colors), frame_of(colors, ops_view(ops@)), ops_view(ops@), p as int) is None
                && allocation(ops@, color_map(colors))),
            r matches Err(LowerError::TooLarge) ==> ops@.len() >= 0x7fff_ffff || !params_fit(ops_view(ops@))
                || 4 + alloca_sum(ops_view(ops@)) > u32::MAX
                || must_total(ops_view(ops@), ops@.len() as int) >= 0x400_0000
                || exists|infos: Seq<Opinfo>| #[trigger] live_exact(ops@, infos)
                    && (pair_bound(infos) >= 0x400_0000 || use_total(infos) >= 0x400_0000),
    {
        if ops.len() >= 0x7fff_ffff {
            return Err(LowerError::TooLarge);
        }
        let mut i: usize = 0;
        while i < ops.len()
            invariant
                i <= ops@.len(),
                forall|j: int| 0 <= j < i ==> (#[trigger] ops_view(ops@)[j] is Func ==> ops_view(ops@)[j]->Func_1.len() < 0x7fff_ffff),
            decreases ops@.len() - i,
        {
            assert(ops_view(ops@)[i as int] == ops@[i as int]@);
            match &ops[i] {
                Op::Func(_, args, _) => {
                    if args.len() >= 0x7fff_ffff {
                        return Err(LowerError::TooLarge);
                    }
                },
                _ => {},
            }
            i = i + 1;
        }
        let mut i: usize = 0;
        while i < ops.len()
            invariant
                i <= ops@.len(),
                forall|j: int| 0 <= j < i ==> !(#[trigger] ops_view(ops@)[j] matches OpV::UnOp(_, UnOpNode::AddrOf, RValueElem::Constant(_))),
            decreases ops@.len() - i,
        {
            assert(ops_view(ops@)[i as int] == ops@[i as int]@);
            match &ops[i] {
                Op::UnOp(_, UnOpNode::AddrOf, RValueElem::Constant(_)) => {
                    return Err(LowerError::Malformed(i));
                },
                _ => {},
            }
            i = i + 1;
        }
        let (graph, counts, must, referenced) = ConflictAnalyzer::conflicts(ops);
        let ghost infos = choose|infos: Seq<Opinfo>| live_exact(ops@, infos)
            && graph.edges@.to_set() == conflict_edges(infos)
            && (forall|v: Var| #[trigger] counts.count(v) == uses_count(infos, v))
            && graph.edges@.len() <= pair_bound(infos)
            && counts.entries@.len() == use_total(infos)
            && (forall|q: int| 0 <= q < counts.entries@.len() ==> info_vars(infos).contains(#[trigger] counts.entries@[q].0));
        if graph.edges.len() >= 0x400_0000 || counts.entries.len() >= 0x400_0000 || must.entries.len() >= 0x400_0000 {
            proof {
                assert(live_exact(ops@, infos));
            }
            return Err(LowerError::TooLarge);
        }
        proof {
            assert forall|e: int| 0 <= e < graph.edges@.len() implies (#[trigger] graph.edges@[e]).0 != graph.edges@[e].1 by {
                assert(graph.edges@.to_set().contains(graph.edges@[e]));
            }
        }
        let regmap = RegisterColorer::color(&graph, &counts, &must, &referenced, NUM_USABLE_VARS);
        let f = match frame_exec(&regmap, ops) {
            Some(f) => f,
            None => return Err(LowerError::TooLarge),
        };
        proof {
            assert(regmap@ == color_map(regmap.entries@));
            assert forall|e: (Var, Var)| #[trigger] conflict_edges(infos).contains(e) implies
                regmap@.contains_key(e.0) && regmap@.contains_key(e.1) && regmap@[e.0] != regmap@[e.1] by {
                assert(graph.edges@.to_set().contains(e));
                let k = choose|k: int| 0 <= k < graph.edges@.len() && graph.edges@[k] == e;
                assert(graph.edges@[k] == e);
                assert(regmap@.contains_key(graph.edges@[k].0));
                assert(respects(regmap@, must@, referenced@, NUM_USABLE_VARS, e.0));
            }
            let n = choose|n: i32| #[trigger] slots_ok(regmap@, regmap.entries@, must@, n) && slots_below(regmap@, must@, n);
            let keys = regmap.entries@.map_values(|e: (Var, RegisterColor)| e.0);
            assert forall|v: Var| #[trigger] regmap@.contains_key(v) implies vars_of(ops@).contains(v) by {
                assert(graph_var(graph.edges@, counts.entries@, must.entries@, v));
                if exists|e: int| 0 <= e < graph.edges@.len() && #[trigger] edge_has(graph.edges@[e], v) {
                    let e = choose|e: int| 0 <= e < graph.edges@.len() && #[trigger] edge_has(graph.edges@[e], v);
                    let ed = graph.edges@[e];
                    assert(graph.edges@.to_set().contains(ed));
                    assert(conflict_edges(infos).contains(ed));
                    let i = choose|i: int| 0 <= i < infos.len() && (
                        (infos[i].live_in@.contains(ed.0) && infos[i].live_in@.contains(ed.1))
                        || (infos[i].live_out@.contains(ed.0) && infos[i].live_out@.contains(ed.1)));
                    assert(infos[i].live_in@.to_set().subset_of(vars_of(ops@)));
                    assert(infos[i].live_out@.to_set().subset_of(vars_of(ops@)));
                    assert(infos[i].live_in@.to_set().contains(v) || infos[i].live_out@.to_set().contains(v));
                } else if exists|q: int| 0 <= q < counts.entries@.len() && #[trigger] count_key(counts.entries@[q], v) {
                    let q = choose|q: int| 0 <= q < counts.entries@.len() && #[trigger] count_key(counts.entries@[q], v);
                    assert(info_vars(infos).contains(counts.entries@[q].0));
                    let i = choose|i: int| 0 <= i < infos.len() && #[trigger] touches(infos[i], v);
                    assert(info_ok(infos[i], ops@[i]@));
                    assert(infos[i].used@.to_set().contains(v) || infos[i].def@.to_set().contains(v));
                    assert(op_touches(ops@[i]@, v));
                } else {
                    let q = choose|q: int| 0 <= q < must.entries@.len() && #[trigger] color_key(must.entries@[q], v);
                    assert(vars_of(ops@).contains(must.entries@[q].0));
                }
            }
            assert(keys.no_duplicates()) by {
                assert forall|a: int, b: int| 0 <= a < keys.len() && 0 <= b < keys.len() && a != b implies keys[a] != keys[b] by {
                    assert(regmap.entries@[a].0 != regmap.entries@[b].0);
                }
            }
            assert(keys.to_set().subset_of(vars_of(ops@))) by {
                assert forall|v: Var| keys.to_set().contains(v) implies vars_of(ops@).contains(v) by {
                    let q = choose|q: int| 0 <= q < keys.len() && keys[q] == v;
                    crate::regmap::lemma_entry_in_map(regmap.entries@, q);
                    assert(regmap@.contains_key(v));
                }
            }
            assert(vars_of(ops@).finite());
            lemma_len_le_set(keys, vars_of(ops@));
            assert forall|v: Var| #[trigger] regmap@.contains_key(v) implies placed(ops@, regmap@, v) by {
                assert(respects(regmap@, must@, referenced@, NUM_USABLE_VARS, v));
                assert(referenced@.to_set().contains(v.name) == referenced@.contains(v.name));
                if regmap@[v] is StackColor && regmap@[v]->StackColor_0 >= 0 {
                    assert(regmap@[v]->StackColor_0 < n);
                    assert forall|slot: int| 0 <= slot < regmap@[v]->StackColor_0 implies #[trigger] slot_taken(regmap@, slot) by {}
                }
            }
            assert(allocation(ops@, regmap@));
        }
        match lower_function(ops, &regmap, &f) {
            Ok(res) => Ok(res),
            Err(p) => Err(LowerError::Malformed(p)),
        }
    }
}

} // verus!
