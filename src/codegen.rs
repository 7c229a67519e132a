use vstd::prelude::*;
use crate::util::{Width, Name};
use crate::ir::{Var, LitNode, RValueElem, BinOpNode, UnOpNode};
use crate::regmap::{RegisterColor, ColorMap};
use crate::target::{
    Reg, Pred, AluOp, ShiftType, CompareType, LsuWidth, LsuOp, InstNode, pack_int, pack_spec,
    SPILL_REG_BASE, STACK_POINTER, TRUE_PRED_REG, true_pred, sp,
};

verus! {

pub open spec fn load32() -> LsuOp {
    LsuOp { store: false, width: LsuWidth::LsuWidthL }
}

pub open spec fn store32() -> LsuOp {
    LsuOp { store: true, width: LsuWidth::LsuWidthL }
}

/// Predicate register 0, which comparisons write.
pub open spec fn cmp_pred(inverted: bool) -> Pred {
    Pred { inverted, reg: 0 }
}

/// A variable that the lowering can reach: it has a register, or a stack
/// slot whose offset from the stack pointer fits an instruction.
pub open spec fn usable(m: Map<Var, RegisterColor>, v: Var, offs: u32) -> bool {
    m.contains_key(v) && match m[v] {
        RegisterColor::RegColor(_) => true,
        RegisterColor::StackColor(p) => i32::MIN <= offs + p * 4 <= i32::MAX,
        RegisterColor::GlobalColor => false,
    }
}

/// The register through which `v` is read or written.
pub open spec fn var_reg(m: Map<Var, RegisterColor>, v: Var, spill_pos: u8) -> Reg {
    match m[v] {
        RegisterColor::RegColor(r) => r,
        _ => Reg { index: (SPILL_REG_BASE + spill_pos) as u8 },
    }
}

/// Instructions that bring a spilled `v` into its register before a read.
pub open spec fn var_before(m: Map<Var, RegisterColor>, v: Var, spill_pos: u8, offs: u32) -> Seq<InstNode> {
    match m[v] {
        RegisterColor::StackColor(p) => seq![InstNode::Load(true_pred(), load32(), var_reg(m, v, spill_pos), sp(), (offs + p * 4) as i32)],
        _ => Seq::empty(),
    }
}

/// Instructions that write a spilled `v` back to its slot after a write.
pub open spec fn var_after(m: Map<Var, RegisterColor>, v: Var, spill_pos: u8, offs: u32) -> Seq<InstNode> {
    match m[v] {
        RegisterColor::StackColor(p) => seq![InstNode::Store(true_pred(), store32(), sp(), (offs + p * 4) as i32, var_reg(m, v, spill_pos))],
        _ => Seq::empty(),
    }
}

/// The low 32 bits of a number literal.
pub open spec fn lit_bits(l: LitNode) -> u32 {
    match l {
        LitNode::NumLit(n, _) => (n % 0x1_0000_0000) as u32,
        _ => 0,
    }
}

pub fn lit_to_u32(lit: &LitNode) -> (r: u32)
    requires
        lit is NumLit,
    ensures
        r == lit_bits(*lit),
{
    match lit {
        LitNode::NumLit(num, _) => (*num % 0x1_0000_0000) as u32,
        _ => 0,
    }
}

pub open spec fn lsu_width_spec(w: Width) -> LsuWidth {
    match w {
        Width::Width16 => LsuWidth::LsuWidthH,
        Width::Width8 => LsuWidth::LsuWidthB,
        _ => LsuWidth::LsuWidthL,
    }
}

/// The memory access width for a load or store of width `w` (which must be known).
pub fn width_to_lsuwidth(width: &Width) -> (r: LsuWidth)
    requires
        !(*width is AnyWidth),
    ensures
        r == lsu_width_spec(*width),
{
    match width {
        Width::Width16 => LsuWidth::LsuWidthH,
        Width::Width8 => LsuWidth::LsuWidthB,
        _ => LsuWidth::LsuWidthL,
    }
}

/// The comparison for a relational operator, and whether the result must be
/// negated. `swapped` says the operands were exchanged.
pub open spec fn cmpop_spec(op: BinOpNode, signed: bool, swapped: bool) -> Option<(CompareType, bool)> {
    let lt = if signed { CompareType::CmpLTS } else { CompareType::CmpLTU };
    let le = if signed { CompareType::CmpLES } else { CompareType::CmpLEU };
    match op {
        BinOpNode::EqualsOp => Some((CompareType::CmpEQ, false)),
        BinOpNode::NotEqualsOp => Some((CompareType::CmpEQ, true)),
        BinOpNode::LessOp => if swapped { Some((le, true)) } else { Some((lt, false)) },
        BinOpNode::GreaterEqOp => if swapped { Some((le, false)) } else { Some((lt, true)) },
        BinOpNode::LessEqOp => if swapped { Some((lt, true)) } else { Some((le, false)) },
        BinOpNode::GreaterOp => if swapped { Some((lt, false)) } else { Some((le, true)) },
        _ => None,
    }
}

pub fn binop_to_cmpop(op: &BinOpNode, signed: bool, swapped: bool) -> (r: Option<(CompareType, bool)>)
    requires
        !(*op is AndAlsoOp || *op is OrElseOp),
    ensures
        r == cmpop_spec(*op, signed, swapped),
{
    match op {
        BinOpNode::EqualsOp => Some((CompareType::CmpEQ, false)),
        BinOpNode::NotEqualsOp => Some((CompareType::CmpEQ, true)),
        BinOpNode::GreaterEqOp | BinOpNode::LessOp => if swapped {
            Some((if signed { CompareType::CmpLES } else { CompareType::CmpLEU }, *op == BinOpNode::LessOp))
        } else {
            Some((if signed { CompareType::CmpLTS } else { CompareType::CmpLTU }, *op != BinOpNode::LessOp))
        },
        BinOpNode::GreaterOp | BinOpNode::LessEqOp => if swapped {
            Some((if signed { CompareType::CmpLTS } else { CompareType::CmpLTU }, *op == BinOpNode::LessEqOp))
        } else {
            Some((if signed { CompareType::CmpLES } else { CompareType::CmpLEU }, *op != BinOpNode::LessEqOp))
        },
        _ => None,
    }
}

pub open spec fn aluop_spec(op: BinOpNode, swapped: bool) -> Option<AluOp> {
    match op {
        BinOpNode::PlusOp => Some(AluOp::AddAluOp),
        BinOpNode::MinusOp => Some(if swapped { AluOp::RsbAluOp } else { AluOp::SubAluOp }),
        BinOpNode::BitAndOp => Some(AluOp::AndAluOp),
        BinOpNode::BitOrOp => Some(AluOp::OrAluOp),
        BinOpNode::BitXorOp => Some(AluOp::XorAluOp),
        _ => None,
    }
}

/// The ALU operation for an arithmetic operator; `None` for the operators
/// this target has no single instruction for.
pub fn binop_to_aluop(op: &BinOpNode, swapped: bool) -> (r: Option<AluOp>)
    ensures
        r == aluop_spec(*op, swapped),
{
    match op {
        BinOpNode::PlusOp => Some(AluOp::AddAluOp),
        BinOpNode::MinusOp => Some(if swapped { AluOp::RsbAluOp } else { AluOp::SubAluOp }),
        BinOpNode::BitAndOp => Some(AluOp::AndAluOp),
        BinOpNode::BitOrOp => Some(AluOp::OrAluOp),
        BinOpNode::BitXorOp => Some(AluOp::XorAluOp),
        _ => None,
    }
}

/// The register that holds `var`, with the instructions to run before a read
/// and after a write of it. A spilled variable goes through spill register
/// `spill_pos`; `offs` is where the spill area starts in the frame.
pub fn var_to_reg(regmap: &ColorMap, var: &Var, spill_pos: u8, offs: u32) -> (r: (Reg, Vec<InstNode>, Vec<InstNode>))
    requires
        usable(regmap@, *var, offs),
        spill_pos <= 2,
    ensures
        r.0 == var_reg(regmap@, *var, spill_pos),
        r.1@ == var_before(regmap@, *var, spill_pos, offs),
        r.2@ == var_after(regmap@, *var, spill_pos, offs),
{
    match regmap.find(var) {
        Some(RegisterColor::StackColor(pos)) => {
            let reg = Reg { index: SPILL_REG_BASE + spill_pos };
            let pred = Pred { inverted: false, reg: TRUE_PRED_REG };
            let off = (offs as i64 + pos as i64 * 4) as i32;
            let before = vec![InstNode::Load(pred, LsuOp { store: false, width: LsuWidth::LsuWidthL }, reg, Reg { index: STACK_POINTER }, off)];
            let after = vec![InstNode::Store(pred, LsuOp { store: true, width: LsuWidth::LsuWidthL }, Reg { index: STACK_POINTER }, off, reg)];
            proof {
                assert(before@ =~= var_before(regmap@, *var, spill_pos, offs));
                assert(after@ =~= var_after(regmap@, *var, spill_pos, offs));
            }
            (reg, before, after)
        },
        Some(RegisterColor::RegColor(reg)) => {
            let r = (reg, Vec::new(), Vec::new());
            assert(r.1@ =~= var_before(regmap@, *var, spill_pos, offs));
            assert(r.2@ =~= var_after(regmap@, *var, spill_pos, offs));
            r
        },
        _ => (Reg { index: 0 }, Vec::new(), Vec::new()),
    }
}

pub open spec fn opt_seq(r: Option<Vec<InstNode>>) -> Option<Seq<InstNode>> {
    match r {
        Some(v) => Some(v@),
        None => None,
    }
}

/// A move of a 32-bit constant into `dest`: short when it packs in 15 bits.
pub open spec fn mov_const(dest: Reg, num: u32) -> Seq<InstNode> {
    match pack_spec(num, 15) {
        Some((v, rot)) => seq![InstNode::Alu1Short(true_pred(), AluOp::MovAluOp, dest, v, rot)],
        None => seq![InstNode::Alu1Long(true_pred(), AluOp::MovAluOp, dest), InstNode::Long(num)],
    }
}

/// The instructions for a unary operator applied to register `x`.
pub open spec fn unop_insts(op: UnOpNode, dest: Reg, x: Reg) -> Seq<InstNode> {
    match op {
        UnOpNode::Negate => seq![InstNode::Alu2Short(true_pred(), AluOp::RsbAluOp, dest, x, 0, 0)],
        UnOpNode::LogNot => seq![InstNode::Alu2Short(true_pred(), AluOp::XorAluOp, dest, x, 1, 0)],
        UnOpNode::BitNot => seq![InstNode::Alu1Reg(true_pred(), AluOp::MvnAluOp, dest, x, ShiftType::SllShift, 0)],
        _ => if dest == x {
            Seq::empty()
        } else {
            seq![InstNode::Alu1Reg(true_pred(), AluOp::MovAluOp, dest, x, ShiftType::SllShift, 0)]
        },
    }
}

/// What `dest = op rhs` lowers to, or `None` when the operation is malformed
/// for this stage: `&` of anything but a variable in a stack slot, `*`, an
/// operator other than the identity on a constant, or a constant that is not
/// a number.
pub open spec fn unop_spec(m: Map<Var, RegisterColor>, dest: Reg, op: UnOpNode, rhs: RValueElem, offs: u32) -> Option<Seq<InstNode>> {
    if op == UnOpNode::AddrOf {
        match rhs {
            RValueElem::Variable(v) => if m.contains_key(v) && m[v] is StackColor
                && 0 <= offs + m[v]->StackColor_0 * 4 <= u32::MAX {
                Some(seq![InstNode::Alu2Short(true_pred(), AluOp::AddAluOp, dest, sp(),
                    (offs + m[v]->StackColor_0 * 4) as u32, 0)])
            } else {
                None
            },
            RValueElem::Constant(_) => None,
        }
    } else if op == UnOpNode::Deref {
        None
    } else {
        match rhs {
            RValueElem::Variable(v) => if usable(m, v, offs) {
                Some(var_before(m, v, 2, offs) + unop_insts(op, dest, var_reg(m, v, 2)))
            } else {
                None
            },
            RValueElem::Constant(l) => if op == UnOpNode::Identity && l is NumLit {
                Some(mov_const(dest, lit_bits(l)))
            } else {
                None
            },
        }
    }
}

/// The instructions for `dest = op rhs`, for an operation this stage can
/// lower (see `unop_spec`): no `*`, `&` only of a variable in a stack slot,
/// and only the identity on a constant, which must be a number.
pub fn convert_unop(regmap: &ColorMap, dest: Reg, op: &UnOpNode, rhs: &RValueElem, offs: u32) -> (r: Vec<InstNode>)
    requires
        unop_spec(regmap@, dest, *op, *rhs, offs) is Some,
    ensures
        r@ == unop_spec(regmap@, dest, *op, *rhs, offs)->0,
{
    match try_convert_unop(regmap, dest, op, rhs, offs) {
        Some(r) => r,
        None => Vec::new(),
    }
}

/// `convert_unop`, or `None` when the operation is malformed for this stage.
pub(crate) fn try_convert_unop(regmap: &ColorMap, dest: Reg, op: &UnOpNode, rhs: &RValueElem, offs: u32) -> (r: Option<Vec<InstNode>>)
    ensures
        opt_seq(r) == unop_spec(regmap@, dest, *op, *rhs, offs),
{
    let pred = Pred { inverted: false, reg: TRUE_PRED_REG };
    if *op == UnOpNode::AddrOf {
        match rhs {
            RValueElem::Variable(v) => {
                match regmap.find(v) {
                    Some(RegisterColor::StackColor(n)) => {
                        let off = offs as i64 + n as i64 * 4;
                        if 0 <= off && off <= u32::MAX as i64 {
                            let r = vec![InstNode::Alu2Short(pred, AluOp::AddAluOp, dest, Reg { index: STACK_POINTER }, off as u32, 0)];
                            assert(r@ =~= unop_spec(regmap@, dest, *op, *rhs, offs)->0);
                            return Some(r);
                        }
                        return None;
                    },
                    _ => return None,
                }
            },
            RValueElem::Constant(_) => return None,
        }
    }
    if *op == UnOpNode::Deref {
        return None;
    }
    match rhs {
        RValueElem::Variable(var) => {
            match regmap.find(var) {
                Some(RegisterColor::RegColor(_)) => {},
                Some(RegisterColor::StackColor(p)) => {
                    let off = offs as i64 + p as i64 * 4;
                    if off < i32::MIN as i64 || off > i32::MAX as i64 {
                        return None;
                    }
                },
                _ => return None,
            }
            let (x, mut before, _) = var_to_reg(regmap, var, 2, offs);
            let mut tail: Vec<InstNode> = match op {
                UnOpNode::Negate => vec![InstNode::Alu2Short(pred, AluOp::RsbAluOp, dest, x, 0, 0)],
                UnOpNode::LogNot => vec![InstNode::Alu2Short(pred, AluOp::XorAluOp, dest, x, 1, 0)],
                UnOpNode::BitNot => vec![InstNode::Alu1Reg(pred, AluOp::MvnAluOp, dest, x, ShiftType::SllShift, 0)],
                _ => if dest == x {
                    Vec::new()
                } else {
                    vec![InstNode::Alu1Reg(pred, AluOp::MovAluOp, dest, x, ShiftType::SllShift, 0)]
                },
            };
            assert(tail@ =~= unop_insts(*op, dest, x));
            before.append(&mut tail);
            Some(before)
        },
        RValueElem::Constant(val) => {
            if *op != UnOpNode::Identity {
                return None;
            }
            match val {
                LitNode::NumLit(..) => {},
                _ => return None,
            }
            let r = mov_const_exec(dest, lit_to_u32(val));
            Some(r)
        },
    }
}

fn mov_const_exec(dest: Reg, num: u32) -> (r: Vec<InstNode>)
    ensures
        r@ == mov_const(dest, num),
{
    let pred = Pred { inverted: false, reg: TRUE_PRED_REG };
    let r = match pack_int(num, 15) {
        Some((v, rot)) => vec![InstNode::Alu1Short(pred, AluOp::MovAluOp, dest, v, rot)],
        None => vec![InstNode::Alu1Long(pred, AluOp::MovAluOp, dest), InstNode::Long(num)],
    };
    assert(r@ =~= mov_const(dest, num));
    r
}

/// The two instructions that turn predicate 0 into 1 or 0 in `dest`.
pub open spec fn set_from_pred(dest: Reg, negated: bool) -> Seq<InstNode> {
    seq![
        InstNode::Alu1Short(cmp_pred(negated), AluOp::MovAluOp, dest, 1, 0),
        InstNode::Alu1Short(cmp_pred(!negated), AluOp::MovAluOp, dest, 0, 0),
    ]
}

/// The instructions that compute `dest` from two registers.
pub open spec fn tail_reg(dest: Reg, reg_l: Reg, reg_r: Reg, cmp: Option<(CompareType, bool)>, alu: Option<AluOp>) -> Option<Seq<InstNode>> {
    match cmp {
        Some((ct, neg)) => Some(seq![InstNode::CompareReg(true_pred(), cmp_pred(false), reg_l, ct, reg_r, ShiftType::SllShift, 0)]
            + set_from_pred(dest, neg)),
        None => match alu {
            Some(a) => Some(seq![InstNode::Alu2Reg(true_pred(), a, dest, reg_l, reg_r, ShiftType::SllShift, 0)]),
            None => None,
        },
    }
}

/// The instructions that compute `dest` from a register and a constant.
pub open spec fn tail_const(dest: Reg, reg_l: Reg, num: u32, cmp: Option<(CompareType, bool)>, alu: Option<AluOp>) -> Option<Seq<InstNode>> {
    match cmp {
        Some((ct, neg)) => Some(match pack_spec(num, 10) {
            Some((v, rot)) => seq![InstNode::CompareShort(true_pred(), cmp_pred(false), reg_l, ct, v, rot)],
            None => seq![InstNode::CompareLong(true_pred(), cmp_pred(false), reg_l, ct), InstNode::Long(num)],
        } + set_from_pred(dest, neg)),
        None => match alu {
            Some(a) => Some(match pack_spec(num, 10) {
                Some((v, rot)) => seq![InstNode::Alu2Short(true_pred(), a, dest, reg_l, v, rot)],
                None => seq![InstNode::Alu2Long(true_pred(), a, dest, reg_l), InstNode::Long(num)],
            }),
            None => None,
        },
    }
}

/// What `dest = l op r` lowers to, or `None` when it is malformed for this
/// stage: two constants, a constant that is not a number, an operand without
/// a usable location, or an operator the target cannot do in one step.
/// A constant left operand is moved to the right, and the operator adjusted.
pub open spec fn binop_spec(
    m: Map<Var, RegisterColor>,
    dest: Reg,
    op: BinOpNode,
    l: RValueElem,
    r: RValueElem,
    signed: bool,
    offs: u32,
) -> Option<Seq<InstNode>> {
    let swapped = !(l is Variable);
    let (a, b) = if swapped { (r, l) } else { (l, r) };
    let cmp = cmpop_spec(op, signed, swapped);
    let alu = aluop_spec(op, swapped);
    match a {
        RValueElem::Constant(_) => None,
        RValueElem::Variable(va) => if !usable(m, va, offs) {
            None
        } else {
            let reg_l = var_reg(m, va, 1);
            let pre = var_before(m, va, 1, offs);
            match b {
                RValueElem::Variable(vb) => if !usable(m, vb, offs) {
                    None
                } else {
                    match tail_reg(dest, reg_l, var_reg(m, vb, 2), cmp, alu) {
                        Some(t) => Some(pre + var_before(m, vb, 2, offs) + t),
                        None => None,
                    }
                },
                RValueElem::Constant(lit) => if !(lit is NumLit) {
                    None
                } else {
                    match tail_const(dest, reg_l, lit_bits(lit), cmp, alu) {
                        Some(t) => Some(pre + t),
                        None => None,
                    }
                },
            }
        },
    }
}

pub(crate) fn check_usable(regmap: &ColorMap, v: &Var, offs: u32) -> (r: bool)
    ensures
        r == usable(regmap@, *v, offs),
{
    match regmap.find(v) {
        Some(RegisterColor::RegColor(_)) => true,
        Some(RegisterColor::StackColor(p)) => {
            let off = offs as i64 + p as i64 * 4;
            i32::MIN as i64 <= off && off <= i32::MAX as i64
        },
        _ => false,
    }
}

fn binop_tail_reg(dest: Reg, reg_l: Reg, reg_r: Reg, cmp: Option<(CompareType, bool)>, alu: Option<AluOp>) -> (r: Vec<InstNode>)
    requires
        tail_reg(dest, reg_l, reg_r, cmp, alu) is Some,
    ensures
        r@ == tail_reg(dest, reg_l, reg_r, cmp, alu)->0,
{
    let pred = Pred { inverted: false, reg: TRUE_PRED_REG };
    let flag = Pred { inverted: false, reg: 0 };
    let r = match cmp {
        Some((cmptype, negated)) => vec![
            InstNode::CompareReg(pred, flag, reg_l, cmptype, reg_r, ShiftType::SllShift, 0),
            InstNode::Alu1Short(Pred { inverted: negated, reg: 0 }, AluOp::MovAluOp, dest, 1, 0),
            InstNode::Alu1Short(Pred { inverted: !negated, reg: 0 }, AluOp::MovAluOp, dest, 0, 0),
        ],
        None => vec![InstNode::Alu2Reg(pred, alu.unwrap(), dest, reg_l, reg_r, ShiftType::SllShift, 0)],
    };
    assert(r@ =~= tail_reg(dest, reg_l, reg_r, cmp, alu)->0);
    r
}

fn binop_tail_const(dest: Reg, reg_l: Reg, num: u32, cmp: Option<(CompareType, bool)>, alu: Option<AluOp>) -> (r: Vec<InstNode>)
    requires
        tail_const(dest, reg_l, num, cmp, alu) is Some,
    ensures
        r@ == tail_const(dest, reg_l, num, cmp, alu)->0,
{
    let pred = Pred { inverted: false, reg: TRUE_PRED_REG };
    let flag = Pred { inverted: false, reg: 0 };
    let packed = pack_int(num, 10);
    let mut r: Vec<InstNode> = Vec::new();
    match cmp {
        Some((cmptype, negated)) => {
            match packed {
                Some((v, rot)) => {
                    r.push(InstNode::CompareShort(pred, flag, reg_l, cmptype, v, rot));
                },
                None => {
                    r.push(InstNode::CompareLong(pred, flag, reg_l, cmptype));
                    r.push(InstNode::Long(num));
                },
            }
            r.push(InstNode::Alu1Short(Pred { inverted: negated, reg: 0 }, AluOp::MovAluOp, dest, 1, 0));
            r.push(InstNode::Alu1Short(Pred { inverted: !negated, reg: 0 }, AluOp::MovAluOp, dest, 0, 0));
        },
        None => {
            let alu_op = alu.unwrap();
            match packed {
                Some((v, rot)) => {
                    r.push(InstNode::Alu2Short(pred, alu_op, dest, reg_l, v, rot));
                },
                None => {
                    r.push(InstNode::Alu2Long(pred, alu_op, dest, reg_l));
                    r.push(InstNode::Long(num));
                },
            }
        },
    }
    assert(r@ =~= tail_const(dest, reg_l, num, cmp, alu)->0);
    r
}

/// The instructions for `dest = op_l op op_r`, for an operation this stage
/// can lower (see `binop_spec`): not two constants, numbers only, operands
/// with usable locations, an operator the target has.
pub fn convert_binop(
    regmap: &ColorMap,
    dest: Reg,
    op: &BinOpNode,
    op_l: &RValueElem,
    op_r: &RValueElem,
    signed: bool,
    offs: u32,
) -> (r: Vec<InstNode>)
    requires
        binop_spec(regmap@, dest, *op, *op_l, *op_r, signed, offs) is Some,
    ensures
        r@ == binop_spec(regmap@, dest, *op, *op_l, *op_r, signed, offs)->0,
{
    match try_convert_binop(regmap, dest, op, op_l, op_r, signed, offs) {
        Some(r) => r,
        None => Vec::new(),
    }
}

/// `convert_binop`, or `None` when the operation is malformed for this stage.
pub(crate) fn try_convert_binop(
    regmap: &ColorMap,
    dest: Reg,
    op: &BinOpNode,
    op_l: &RValueElem,
    op_r: &RValueElem,
    signed: bool,
    offs: u32,
) -> (r: Option<Vec<InstNode>>)
    ensures
        opt_seq(r) == binop_spec(regmap@, dest, *op, *op_l, *op_r, signed, offs),
{
    if *op == BinOpNode::AndAlsoOp || *op == BinOpNode::OrElseOp {
        return None;
    }
    let swapped = !op_l.is_variable();
    let (a, b) = if swapped { (op_r, op_l) } else { (op_l, op_r) };
    let var_l = match a {
        RValueElem::Variable(v) => *v,
        RValueElem::Constant(_) => return None,
    };
    if !check_usable(regmap, &var_l, offs) {
        return None;
    }
    let cmp = binop_to_cmpop(op, signed, swapped);
    let alu = binop_to_aluop(op, swapped);
    if cmp.is_none() && alu.is_none() {
        return None;
    }
    let (reg_l, mut result, _) = var_to_reg(regmap, &var_l, 1, offs);
    match b {
        RValueElem::Variable(var) => {
            if !check_usable(regmap, var, offs) {
                return None;
            }
            let (reg_r, mut before_r, _) = var_to_reg(regmap, var, 2, offs);
            result.append(&mut before_r);
            let mut tail = binop_tail_reg(dest, reg_l, reg_r, cmp, alu);
            result.append(&mut tail);
        },
        RValueElem::Constant(val) => {
            match val {
                LitNode::NumLit(..) => {},
                _ => return None,
            }
            let num = lit_to_u32(val);
            let mut tail = binop_tail_const(dest, reg_l, num, cmp, alu);
            result.append(&mut tail);
        },
    }
    Some(result)
}

/// The first variable of `s` with name `n`.
pub open spec fn find_by_name(s: Seq<Var>, n: Name) -> Option<Var>
    decreases s.len(),
{
    if s.len() == 0 {
        None
    } else if s[0].name == n {
        Some(s[0])
    } else {
        find_by_name(s.drop_first(), n)
    }
}

/// The move of `v` into the generation of its name that the label expects.
pub open spec fn move_one(m: Map<Var, RegisterColor>, pred: Pred, label_vars: Seq<Var>, v: Var, offs: u32) -> Option<Seq<InstNode>> {
    match find_by_name(label_vars, v.name) {
        Some(t) => {
            let nv = Var { name: v.name, generation: t.generation };
            if t.generation is Some && usable(m, v, offs) && usable(m, nv, offs) {
                let src = var_reg(m, v, 1);
                let dst = var_reg(m, nv, 1);
                Some(var_before(m, v, 1, offs)
                    + (if src != dst { seq![InstNode::Alu1Reg(pred, AluOp::MovAluOp, dst, src, ShiftType::SllShift, 0)] } else { Seq::empty() })
                    + var_after(m, nv, 1, offs))
            } else {
                None
            }
        },
        None => None,
    }
}

/// The moves of all `vars`, in order, at a jump to a label whose variable list is `label_vars`.
pub open spec fn assign_spec(m: Map<Var, RegisterColor>, pred: Pred, label_vars: Seq<Var>, vars: Seq<Var>, offs: u32) -> Option<Seq<InstNode>>
    decreases vars.len(),
{
    if vars.len() == 0 {
        Some(Seq::empty())
    } else {
        match assign_spec(m, pred, label_vars, vars.drop_last(), offs) {
            Some(p) => match move_one(m, pred, label_vars, vars.last(), offs) {
                Some(q) => Some(p + q),
                None => None,
            },
            None => None,
        }
    }
}

proof fn lemma_assign_none(m: Map<Var, RegisterColor>, pred: Pred, lv: Seq<Var>, vars: Seq<Var>, i: int, offs: u32)
    requires
        0 <= i <= vars.len(),
        assign_spec(m, pred, lv, vars.subrange(0, i), offs) is None,
    ensures
        assign_spec(m, pred, lv, vars, offs) is None,
    decreases vars.len() - i,
{
    if i < vars.len() {
        assert(vars.subrange(0, i + 1).drop_last() =~= vars.subrange(0, i));
        lemma_assign_none(m, pred, lv, vars, i + 1, offs);
    } else {
        assert(vars.subrange(0, i) =~= vars);
    }
}

fn find_by_name_exec(s: &Vec<Var>, n: Name) -> (r: Option<Var>)
    ensures
        r == find_by_name(s@, n),
{
    let mut i: usize = 0;
    assert(s@.subrange(0, s@.len() as int) =~= s@);
    while i < s.len()
        invariant
            i <= s@.len(),
            find_by_name(s@, n) == find_by_name(s@.subrange(i as int, s@.len() as int), n),
        decreases s@.len() - i,
    {
        proof {
            let t = s@.subrange(i as int, s@.len() as int);
            assert(t.drop_first() =~= s@.subrange(i + 1, s@.len() as int));
        }
        if s[i].name == n {
            return Some(s[i]);
        }
        i = i + 1;
    }
    None
}

/// Copies each of `vars` into the generation that the target label expects
/// for its name (resolution of the label's joins on one edge).
pub fn assign_vars(regmap: &ColorMap, pred: &Pred, label_vars: &Vec<Var>, vars: &Vec<Var>, offs: u32) -> (r: Option<Vec<InstNode>>)
    ensures
        opt_seq(r) == assign_spec(regmap@, *pred, label_vars@, vars@, offs),
{
    let mut result: Vec<InstNode> = Vec::new();
    let mut i: usize = 0;
    while i < vars.len()
        invariant
            i <= vars@.len(),
            assign_spec(regmap@, *pred, label_vars@, vars@.subrange(0, i as int), offs) == Some(result@),
        decreases vars@.len() - i,
    {
        let var = vars[i];
        proof {
            assert(vars@.subrange(0, i + 1).drop_last() =~= vars@.subrange(0, i as int));
        }
        let t = match find_by_name_exec(label_vars, var.name) {
            Some(t) => t,
            None => {
                proof { lemma_assign_none(regmap@, *pred, label_vars@, vars@, i + 1, offs); }
                return None;
            },
        };
        let new_var = Var { name: var.name, generation: t.generation };
        if t.generation.is_none() || !check_usable(regmap, &var, offs) || !check_usable(regmap, &new_var, offs) {
            proof { lemma_assign_none(regmap@, *pred, label_vars@, vars@, i + 1, offs); }
            return None;
        }
        let (src_reg, mut src_insts, _) = var_to_reg(regmap, &var, 1, offs);
        let (dest_reg, _, mut dest_insts) = var_to_reg(regmap, &new_var, 1, offs);
        let ghost before = result@;
        result.append(&mut src_insts);
        if src_reg != dest_reg {
            result.push(InstNode::Alu1Reg(*pred, AluOp::MovAluOp, dest_reg, src_reg, ShiftType::SllShift, 0));
        }
        result.append(&mut dest_insts);
        i = i + 1;
        proof {
            let q = move_one(regmap@, *pred, label_vars@, var, offs)->0;
            assert(result@ =~= before + q);
        }
    }
    assert(vars@.subrange(0, vars@.len() as int) =~= vars@);
    Some(result)
}

} // verus!
