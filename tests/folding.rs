use mc::constant_fold::{constant_fold_once, fold, ConstantFolder};
use mc::ir::{BinOpNode, LitNode, Op, RValueElem, UnOpNode, Var};
use mc::util::{IntKind, Name, Width};
use mc::values::{eval_binop, eval_unop};

fn var(n: usize, g: usize) -> Var {
    Var { name: Name(n), generation: Some(g) }
}

fn num(n: u64) -> RValueElem {
    RValueElem::Constant(LitNode::NumLit(n, IntKind::GenericInt))
}

#[test]
fn fold_zero_plus_var_is_identity() {
    let t = var(1, 1);
    let x = var(2, 1);
    let mut ops = vec![Op::BinOp(t, BinOpNode::PlusOp, num(0), RValueElem::Variable(x), false)];
    let changed = constant_fold_once(&mut ops, &vec![], &vec![]);
    assert_eq!(changed, Ok(true));
    assert_eq!(ops[0], Op::UnOp(t, UnOpNode::Identity, RValueElem::Variable(x)));
}

#[test]
fn fold_three_times_four() {
    let t = var(1, 1);
    let mut ops = vec![Op::BinOp(t, BinOpNode::TimesOp, num(3), num(4), false)];
    assert_eq!(constant_fold_once(&mut ops, &vec![], &vec![]), Ok(true));
    assert_eq!(ops[0], Op::UnOp(t, UnOpNode::Identity, num(12)));
}

#[test]
fn right_identities_only() {
    let t = var(1, 1);
    let x = RValueElem::Variable(var(2, 1));
    let mut ops = vec![
        Op::BinOp(t, BinOpNode::MinusOp, x, num(0), false),
        Op::BinOp(var(3, 1), BinOpNode::MinusOp, num(0), x, false),
        Op::BinOp(var(4, 1), BinOpNode::DivideOp, x, num(1), false),
    ];
    assert_eq!(constant_fold_once(&mut ops, &vec![], &vec![]), Ok(true));
    assert_eq!(ops[0], Op::UnOp(t, UnOpNode::Identity, x));
    assert_eq!(ops[1], Op::BinOp(var(3, 1), BinOpNode::MinusOp, num(0), x, false));
    assert_eq!(ops[2], Op::UnOp(var(4, 1), UnOpNode::Identity, x));
}

#[test]
fn folder_substitutes_and_reaches_fixed_point() {
    let a = var(1, 1);
    let b = var(2, 1);
    let p = var(3, 1);
    let mut ops = vec![
        Op::Func(Name(9), vec![p], false),
        Op::BinOp(a, BinOpNode::PlusOp, num(2), num(3), false),
        Op::BinOp(b, BinOpNode::TimesOp, RValueElem::Variable(a), RValueElem::Variable(p), false),
        Op::Return(RValueElem::Variable(b)),
    ];
    assert_eq!(ConstantFolder::fold(&mut ops, &vec![]), Ok(()));
    assert_eq!(ops[1], Op::UnOp(a, UnOpNode::Identity, num(5)));
    assert_eq!(ops[2], Op::BinOp(b, BinOpNode::TimesOp, num(5), RValueElem::Variable(p), false));
    assert_eq!(ops[3], Op::Return(RValueElem::Variable(b)));
    let snapshot: Vec<String> = ops.iter().map(|o| format!("{:?}", o)).collect();
    assert_eq!(ConstantFolder::fold(&mut ops, &vec![]), Ok(()));
    let again: Vec<String> = ops.iter().map(|o| format!("{:?}", o)).collect();
    assert_eq!(snapshot, again);
}

#[test]
fn folder_keeps_avoided_and_global_variables() {
    let a = var(1, 1);
    let g = var(7, 1);
    let mut ops = vec![
        Op::Func(Name(9), vec![], false),
        Op::UnOp(a, UnOpNode::Identity, num(4)),
        Op::UnOp(g, UnOpNode::Identity, num(5)),
        Op::Goto(0, vec![a]),
        Op::Label(0, vec![a]),
        Op::Return(RValueElem::Variable(g)),
    ];
    assert_eq!(ConstantFolder::fold(&mut ops, &vec![Name(7)]), Ok(()));
    assert_eq!(ops[1], Op::UnOp(a, UnOpNode::Identity, num(4)));
    assert_eq!(ops[2], Op::UnOp(g, UnOpNode::Identity, num(5)));
    assert_eq!(ops[5], Op::Return(RValueElem::Variable(g)));
}

#[test]
fn extern_function_is_left_alone() {
    let t = var(1, 1);
    let mut ops = vec![
        Op::Func(Name(9), vec![], true),
        Op::BinOp(t, BinOpNode::PlusOp, num(1), num(1), false),
    ];
    assert_eq!(ConstantFolder::fold(&mut ops, &vec![]), Ok(()));
    assert_eq!(ops[1], Op::BinOp(t, BinOpNode::PlusOp, num(1), num(1), false));
}

#[test]
fn signedness_mismatch_is_not_folded() {
    let l = RValueElem::Constant(LitNode::NumLit(1, IntKind::UnsignedInt(Width::Width32)));
    assert_eq!(fold(&BinOpNode::PlusOp, &l, &l, true), None);
    assert_eq!(fold(&BinOpNode::PlusOp, &l, &l, false), Some(LitNode::NumLit(2, IntKind::UnsignedInt(Width::Width32))));
}

#[test]
fn literal_evaluation() {
    let n = |x: u64| LitNode::NumLit(x, IntKind::GenericInt);
    assert_eq!(eval_binop(BinOpNode::MinusOp, n(1), n(2)), Some(n(u64::MAX)));
    assert_eq!(eval_binop(BinOpNode::DivideOp, n(7), n(0)), None);
    assert_eq!(eval_binop(BinOpNode::ModOp, n(7), n(3)), Some(n(1)));
    assert_eq!(eval_binop(BinOpNode::LeftShiftOp, n(1), n(4)), Some(n(16)));
    assert_eq!(eval_binop(BinOpNode::LessOp, n(1), n(2)), Some(LitNode::BoolLit(true)));
    assert_eq!(eval_binop(BinOpNode::LessOp, n(u64::MAX), n(0)), Some(LitNode::BoolLit(true)));
    let u = |x: u64| LitNode::NumLit(x, IntKind::UnsignedInt(Width::Width32));
    assert_eq!(eval_binop(BinOpNode::LessOp, u(0xffff_ffff), u(0)), Some(LitNode::BoolLit(false)));
    assert_eq!(eval_binop(BinOpNode::EqualsOp, n(1), n(2)), Some(LitNode::BoolLit(false)));
    assert_eq!(eval_binop(BinOpNode::AndAlsoOp, LitNode::BoolLit(true), LitNode::BoolLit(false)), Some(LitNode::BoolLit(false)));
    assert_eq!(eval_unop(UnOpNode::Negate, n(1)), Some(n(u64::MAX)));
    assert_eq!(eval_unop(UnOpNode::LogNot, LitNode::BoolLit(false)), Some(LitNode::BoolLit(true)));
    assert_eq!(eval_unop(UnOpNode::AddrOf, n(1)), None);
}

#[test]
fn numbers_print_by_kind() {
    assert_eq!(IntKind::GenericInt.num_to_string(u64::MAX), "-1");
    assert_eq!(IntKind::UnsignedInt(Width::Width8).num_to_string(300), "44");
    assert_eq!(IntKind::SignedInt(Width::Width16).num_to_string(0xffff), "-1");
    assert_eq!(IntKind::UnsignedInt(Width::AnyWidth).num_to_string(4294967295), "4294967295");
    assert_eq!(IntKind::SignedInt(Width::Width8).num_to_string(127), "127");
    assert!(IntKind::GenericInt.is_signed());
    assert!(!IntKind::UnsignedInt(Width::Width8).is_signed());
    assert!(IntKind::GenericInt.is_generic());
    assert_eq!(Name(5).as_usize(), 5);
}

#[test]
fn kinds_and_widths_as_text() {
    assert_eq!(Width::Width16.to_text(), "16");
    assert_eq!(Width::AnyWidth.to_text(), "");
    assert_eq!(IntKind::SignedInt(Width::Width32).to_text(), "i32");
    assert_eq!(IntKind::UnsignedInt(Width::Width8).to_text(), "u8");
    assert_eq!(IntKind::GenericInt.to_text(), "");
}

#[test]
fn three_times_four_keeps_its_copy_and_substitutes() {
    let t = var(1, 1);
    let mut ops = vec![
        Op::Func(Name(9), vec![], false),
        Op::BinOp(t, BinOpNode::TimesOp, num(3), num(4), false),
        Op::Return(RValueElem::Variable(t)),
    ];
    assert_eq!(ConstantFolder::fold(&mut ops, &vec![]), Ok(()));
    assert_eq!(ops[1], Op::UnOp(t, UnOpNode::Identity, num(12)));
    assert_eq!(ops[2], Op::Return(num(12)));
}

#[test]
fn one_pass_folds_every_foldable_operation() {
    let a = var(1, 1);
    let b = var(2, 1);
    let mut ops = vec![
        Op::BinOp(a, BinOpNode::PlusOp, num(1), num(2), false),
        Op::BinOp(b, BinOpNode::PlusOp, num(3), num(4), false),
    ];
    assert_eq!(constant_fold_once(&mut ops, &vec![a, b], &vec![]), Ok(true));
    assert_eq!(ops[0], Op::UnOp(a, UnOpNode::Identity, num(3)));
    assert_eq!(ops[1], Op::UnOp(b, UnOpNode::Identity, num(7)));
    assert_eq!(constant_fold_once(&mut ops, &vec![a, b], &vec![]), Ok(false));
}

#[test]
fn undefined_folds_are_reported() {
    let t = var(1, 1);
    let a = var(2, 1);
    let mut ops = vec![
        Op::Func(Name(9), vec![], false),
        Op::UnOp(a, UnOpNode::Identity, num(0)),
        Op::BinOp(t, BinOpNode::DivideOp, num(3), RValueElem::Variable(a), false),
        Op::Return(RValueElem::Variable(t)),
    ];
    assert_eq!(ConstantFolder::fold(&mut ops, &vec![]), Err(2));
    assert_eq!(ops[2], Op::BinOp(t, BinOpNode::DivideOp, num(3), num(0), false));
    let s = RValueElem::Constant(LitNode::NumLit(1, IntKind::UnsignedInt(Width::Width32)));
    let mut ops2 = vec![Op::BinOp(t, BinOpNode::PlusOp, s, s, true)];
    assert_eq!(constant_fold_once(&mut ops2, &vec![], &vec![]), Err(0));
}
