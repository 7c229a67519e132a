use mc::ir::{BinOpNode, LitNode, Op, RValueElem, UnOpNode, Var};
use mc::ssa::{SsaError, ToSSA};
use mc::util::{IntKind, Name};

fn plain(n: usize) -> Var {
    Var { name: Name(n), generation: None }
}

fn num(n: u64) -> RValueElem {
    RValueElem::Constant(LitNode::NumLit(n, IntKind::GenericInt))
}

fn defs(op: &Op) -> Vec<Var> {
    match op {
        Op::Func(_, args, _) | Op::Label(_, args) => args.clone(),
        Op::BinOp(d, ..) | Op::UnOp(d, ..) | Op::Load(d, ..) | Op::Alloca(d, ..) | Op::Call(d, ..) => vec![*d],
        _ => vec![],
    }
}

#[test]
fn reassignment_gets_a_new_generation() {
    let x = plain(1);
    let ops = vec![
        Op::Func(Name(9), vec![], false),
        Op::UnOp(x, UnOpNode::Identity, num(1)),
        Op::BinOp(x, BinOpNode::PlusOp, RValueElem::Variable(x), num(1), false),
        Op::Return(RValueElem::Variable(x)),
    ];
    let out = ToSSA::to_ssa(&ops).unwrap();
    let first = match &out[1] {
        Op::UnOp(d, _, _) => *d,
        _ => panic!("expected a copy"),
    };
    let second = match &out[2] {
        Op::BinOp(d, _, a, _, _) => {
            assert_eq!(*a, RValueElem::Variable(first));
            *d
        },
        _ => panic!("expected an addition"),
    };
    assert_eq!(first.name, second.name);
    assert_ne!(first.generation, second.generation);
    assert_eq!(out[3], Op::Return(RValueElem::Variable(second)));
}

#[test]
fn definitions_are_unique_and_jumps_agree_with_labels() {
    let x = plain(1);
    let c = plain(2);
    let ops = vec![
        Op::Func(Name(9), vec![c], false),
        Op::UnOp(x, UnOpNode::Identity, num(0)),
        Op::Goto(0, vec![]),
        Op::Label(0, vec![]),
        Op::BinOp(x, BinOpNode::PlusOp, RValueElem::Variable(x), num(1), false),
        Op::CondGoto(false, RValueElem::Variable(c), 0, vec![]),
        Op::Return(RValueElem::Variable(x)),
    ];
    let out = ToSSA::to_ssa(&ops).unwrap();
    let mut seen: Vec<Var> = Vec::new();
    for op in out.iter() {
        for d in defs(op) {
            assert!(d.generation.is_some());
            assert!(!seen.contains(&d));
            seen.push(d);
        }
    }
    let label_names: Vec<Name> = match &out[3] {
        Op::Label(_, vs) => vs.iter().map(|v| v.name).collect(),
        _ => panic!("expected the label"),
    };
    for op in out.iter() {
        match op {
            Op::Goto(0, vs) | Op::CondGoto(_, _, 0, vs) => {
                let names: Vec<Name> = vs.iter().map(|v| v.name).collect();
                assert_eq!(names, label_names);
            },
            _ => {},
        }
    }
    assert!(label_names.contains(&Name(1)));
}

#[test]
fn short_circuit_operator_is_rejected() {
    let x = plain(1);
    let ops = vec![
        Op::Func(Name(9), vec![], false),
        Op::BinOp(x, BinOpNode::AndAlsoOp, num(1), num(0), false),
    ];
    assert_eq!(ToSSA::to_ssa(&ops), Err(SsaError::Malformed(1)));
    let ops2 = vec![Op::UnOp(x, UnOpNode::AddrOf, num(3))];
    assert_eq!(ToSSA::to_ssa(&ops2), Err(SsaError::Malformed(0)));
}
