use mc::color::RegisterColorer;
use mc::conflicts::ConflictAnalyzer;
use mc::ir::{BinOpNode, Op, RValueElem, UnOpNode, Var};
use mc::ir2::{Dest, IRConverter, Temp};
use mc::liveness::analyze;
use mc::regmap::RegisterColor;
use mc::target::Reg;
use mc::util::Name;

fn var(n: usize, g: usize) -> Var {
    Var { name: Name(n), generation: Some(g) }
}

fn body() -> Vec<Op> {
    let a = var(1, 1);
    let b = var(2, 1);
    let c = var(3, 1);
    vec![
        Op::Func(Name(9), vec![a, b], false),
        Op::BinOp(c, BinOpNode::PlusOp, RValueElem::Variable(a), RValueElem::Variable(b), false),
        Op::UnOp(var(4, 1), UnOpNode::AddrOf, RValueElem::Variable(c)),
        Op::Return(RValueElem::Variable(c)),
    ]
}

#[test]
fn liveness_is_sound() {
    let ops = body();
    let infos = analyze(&ops);
    assert_eq!(infos.len(), ops.len());
    for info in infos.iter() {
        for v in info.used.iter() {
            assert!(info.live_in.contains(v));
        }
        for v in info.live_out.iter() {
            if !info.def.contains(v) {
                assert!(info.live_in.contains(v));
            }
        }
    }
    assert!(infos[1].live_in.contains(&var(1, 1)));
    assert!(infos[1].live_out.contains(&var(3, 1)));
    assert!(!infos[3].live_out.contains(&var(3, 1)));
}

#[test]
fn conflicts_pins_and_references() {
    let ops = body();
    let (graph, counts, must, refs) = ConflictAnalyzer::conflicts(&ops);
    assert!(graph.edges.contains(&(var(1, 1), var(2, 1))));
    assert!(graph.edges.contains(&(var(2, 1), var(1, 1))));
    assert_eq!(counts.get(&var(3, 1)), 3);
    assert_eq!(must.find(&var(2, 1)), Some(RegisterColor::RegColor(Reg { index: 1 })));
    assert_eq!(refs, vec![Name(3)]);
}

#[test]
fn coloring_is_legal() {
    let ops = body();
    let (graph, counts, must, refs) = ConflictAnalyzer::conflicts(&ops);
    let colors = RegisterColorer::color(&graph, &counts, &must, &refs, 27);
    for (u, v) in graph.edges.iter() {
        assert_ne!(colors.find(u), colors.find(v));
    }
    assert_eq!(colors.find(&var(1, 1)), Some(RegisterColor::RegColor(Reg { index: 0 })));
    assert!(matches!(colors.find(&var(3, 1)), Some(RegisterColor::StackColor(_))));
}

#[test]
fn coloring_spills_when_registers_run_out() {
    let ops = body();
    let (graph, counts, must, refs) = ConflictAnalyzer::conflicts(&ops);
    let colors = RegisterColorer::color(&graph, &counts, &mc::regmap::ColorMap::new(), &refs, 1);
    let a = colors.find(&var(1, 1)).unwrap();
    let b = colors.find(&var(2, 1)).unwrap();
    assert_ne!(a, b);
    assert!(matches!(a, RegisterColor::StackColor(_)) || matches!(b, RegisterColor::StackColor(_)));
    let _ = must;
}

#[test]
fn temporaries_are_fresh_and_reused_per_node() {
    let mut c = IRConverter::new();
    let t0 = c.new_temp();
    let d = c.new_dest(4);
    assert_eq!(t0, Temp(0));
    assert_eq!(d, Dest::Local(Temp(1), 4));
    assert_eq!(d.size(), 4);
    let x = c.temp_for(17);
    let y = c.temp_for(17);
    let z = c.temp_for(18);
    assert_eq!(x, y);
    assert_ne!(x, z);
}
