use mc::codegen::{binop_to_cmpop, convert_binop, convert_unop, var_to_reg};
use mc::ir::{BinOpNode, LitNode, Op, RValueElem, UnOpNode, Var};
use mc::lower::{lower_function, Frame, IrToAsm, LowerError};
use mc::regmap::{ColorMap, RegisterColor};
use mc::target::{pack_int, AluOp, CompareType, InstNode, JumpTarget, LsuOp, LsuWidth, Pred, Reg, ShiftType};
use mc::util::{IntKind, Name};

fn tp() -> Pred {
    Pred { inverted: false, reg: 3 }
}

fn var(n: usize, g: usize) -> Var {
    Var { name: Name(n), generation: Some(g) }
}

fn num(n: u64) -> RValueElem {
    RValueElem::Constant(LitNode::NumLit(n, IntKind::GenericInt))
}

#[test]
fn return_constant_zero() {
    let ops = vec![Op::Return(num(0))];
    let f = Frame { offs: 4, max_reg_index: 0, max_stack_index: 0 };
    let (insts, targets) = lower_function(&ops, &ColorMap::new(), &f).unwrap();
    let lr = Reg { index: 31 };
    assert_eq!(insts, vec![
        InstNode::Alu1Short(tp(), AluOp::MovAluOp, Reg { index: 0 }, 0, 0),
        InstNode::Load(tp(), LsuOp { store: false, width: LsuWidth::LsuWidthL }, lr, Reg { index: 30 }, 0),
        InstNode::BranchReg(tp(), false, lr, 0),
    ]);
    assert!(targets.is_empty());
}

#[test]
fn pack_int_encodings() {
    assert_eq!(pack_int(0, 10), Some((0, 0)));
    assert_eq!(pack_int(1023, 10), Some((1023, 0)));
    assert_eq!(pack_int(1024, 10), Some((256, 1)));
    assert_eq!(pack_int(0xffff_ffff, 10), None);
}

#[test]
fn spilled_variable_goes_through_spill_register() {
    let mut m = ColorMap::new();
    let v = var(1, 1);
    m.insert(v, RegisterColor::StackColor(2));
    let (reg, before, after) = var_to_reg(&m, &v, 1, 8);
    assert_eq!(reg, Reg { index: 28 });
    assert_eq!(before, vec![InstNode::Load(tp(), LsuOp { store: false, width: LsuWidth::LsuWidthL }, reg, Reg { index: 30 }, 16)]);
    assert_eq!(after, vec![InstNode::Store(tp(), LsuOp { store: true, width: LsuWidth::LsuWidthL }, Reg { index: 30 }, 16, reg)]);
}

#[test]
fn comparison_with_constant_on_left_is_swapped() {
    let mut m = ColorMap::new();
    let x = var(1, 1);
    m.insert(x, RegisterColor::RegColor(Reg { index: 4 }));
    let dest = Reg { index: 5 };
    let r = convert_binop(&m, dest, &BinOpNode::LessOp, &num(3), &RValueElem::Variable(x), false, 4);
    assert_eq!(binop_to_cmpop(&BinOpNode::LessOp, false, true), Some((CompareType::CmpLEU, true)));
    assert_eq!(r, vec![
        InstNode::CompareShort(tp(), Pred { inverted: false, reg: 0 }, Reg { index: 4 }, CompareType::CmpLEU, 3, 0),
        InstNode::Alu1Short(Pred { inverted: true, reg: 0 }, AluOp::MovAluOp, dest, 1, 0),
        InstNode::Alu1Short(Pred { inverted: false, reg: 0 }, AluOp::MovAluOp, dest, 0, 0),
    ]);
}

#[test]
fn subtraction_from_constant_uses_reverse_subtract() {
    let mut m = ColorMap::new();
    let x = var(1, 1);
    m.insert(x, RegisterColor::RegColor(Reg { index: 4 }));
    let dest = Reg { index: 5 };
    let r = convert_binop(&m, dest, &BinOpNode::MinusOp, &num(7), &RValueElem::Variable(x), false, 4);
    assert_eq!(r, vec![InstNode::Alu2Short(tp(), AluOp::RsbAluOp, dest, Reg { index: 4 }, 7, 0)]);
}

#[test]
fn unary_lowering() {
    let mut m = ColorMap::new();
    let x = var(1, 1);
    let s = var(2, 1);
    m.insert(x, RegisterColor::RegColor(Reg { index: 4 }));
    m.insert(s, RegisterColor::StackColor(1));
    let d = Reg { index: 5 };
    assert_eq!(convert_unop(&m, d, &UnOpNode::Negate, &RValueElem::Variable(x), 8),
        vec![InstNode::Alu2Short(tp(), AluOp::RsbAluOp, d, Reg { index: 4 }, 0, 0)]);
    assert_eq!(convert_unop(&m, Reg { index: 4 }, &UnOpNode::Identity, &RValueElem::Variable(x), 8), vec![]);
    assert_eq!(convert_unop(&m, d, &UnOpNode::AddrOf, &RValueElem::Variable(s), 8),
        vec![InstNode::Alu2Short(tp(), AluOp::AddAluOp, d, Reg { index: 30 }, 12, 0)]);
    assert_eq!(convert_unop(&m, d, &UnOpNode::Identity, &num(0x12345678), 8),
        vec![InstNode::Alu1Long(tp(), AluOp::MovAluOp, d), InstNode::Long(0x12345678)]);
}

#[test]
fn whole_function_lowers_with_labels() {
    let p = var(1, 1);
    let q = var(1, 2);
    let ops = vec![
        Op::Func(Name(9), vec![p], false),
        Op::Goto(0, vec![p]),
        Op::Label(0, vec![q]),
        Op::Return(RValueElem::Variable(q)),
    ];
    let (insts, targets) = IrToAsm::ir_to_asm(&ops).unwrap();
    assert_eq!(targets[0], (JumpTarget::FuncLabel(Name(9)), 0));
    assert_eq!(targets[1].0, JumpTarget::LocalLabel(0));
    assert_eq!(insts[0], InstNode::Alu2Short(tp(), AluOp::AddAluOp, Reg { index: 31 }, Reg { index: 31 }, 16, 0));
    assert_eq!(*insts.last().unwrap(), InstNode::BranchReg(tp(), false, Reg { index: 31 }, 0));
    // The jump falls through to its label, so no branch is emitted for it.
    assert!(!insts.iter().any(|i| matches!(i, InstNode::BranchImm(..))));
}

#[test]
fn malformed_operation_is_reported_with_its_position() {
    let t = var(1, 1);
    let ops = vec![
        Op::Func(Name(9), vec![], false),
        Op::UnOp(t, UnOpNode::Deref, num(0)),
        Op::Return(RValueElem::Variable(t)),
    ];
    assert_eq!(IrToAsm::ir_to_asm(&ops), Err(LowerError::Malformed(1)));
}

#[test]
fn call_saves_unused_argument_registers() {
    let f = var(20, 0);
    let a = var(1, 1);
    let r = var(2, 1);
    let ops = vec![
        Op::Func(Name(9), vec![], false),
        Op::UnOp(a, UnOpNode::Identity, num(1)),
        Op::Call(r, RValueElem::Variable(f), vec![a]),
        Op::Return(RValueElem::Variable(r)),
    ];
    let (insts, _) = IrToAsm::ir_to_asm(&ops).unwrap();
    let saves = insts.iter().filter(|i| matches!(i, InstNode::Store(_, _, Reg { index: 30 }, _, Reg { index: k }) if *k >= 1 && *k < 8)).count();
    assert_eq!(saves, 7);
    assert!(insts.contains(&InstNode::BranchImm(tp(), true, JumpTarget::FuncLabel(Name(20)))));
    let _ = ShiftType::SllShift;
}

#[test]
fn operations_this_stage_cannot_lower_are_malformed() {
    let t = var(1, 1);
    let x = var(2, 1);
    let times = vec![
        Op::Func(Name(9), vec![x], false),
        Op::BinOp(t, BinOpNode::TimesOp, num(7), RValueElem::Variable(x), false),
        Op::Return(RValueElem::Variable(t)),
    ];
    assert_eq!(IrToAsm::ir_to_asm(&times), Err(LowerError::Malformed(1)));
    let addr_of_const = vec![
        Op::Func(Name(9), vec![], false),
        Op::UnOp(t, UnOpNode::AddrOf, num(3)),
        Op::Return(RValueElem::Variable(t)),
    ];
    assert_eq!(IrToAsm::ir_to_asm(&addr_of_const), Err(LowerError::Malformed(1)));
}
