use vstd::prelude::*;
use crate::ir::{Var, RValueElem, Op, OpV, ops_view, copy_vars};
use crate::varset::{insert_var, insert_all, difference, lemma_single_to_set, lemma_len_within};

verus! {

/// What liveness knows of one operation: the variables it writes and reads,
/// and those live on entry to it and on exit from it.
pub struct Opinfo {
    pub def: Vec<Var>,
    pub used: Vec<Var>,
    pub live_in: Vec<Var>,
    pub live_out: Vec<Var>,
}

pub open spec fn rv_vars(r: RValueElem) -> Seq<Var> {
    match r {
        RValueElem::Variable(v) => seq![v],
        RValueElem::Constant(_) => Seq::empty(),
    }
}

/// The variables an operation writes. A label defines the generations that
/// join there; a function head defines its parameters.
pub open spec fn op_defs(o: OpV) -> Set<Var> {
    match o {
        OpV::Func(_, args, _) => args.to_set(),
        OpV::BinOp(v, _, _, _, _) => set![v],
        OpV::UnOp(v, _, _) => set![v],
        OpV::Load(v, _, _) => set![v],
        OpV::Alloca(v, _) => set![v],
        OpV::Call(v, _, _) => set![v],
        OpV::Label(_, vs) => vs.to_set(),
        _ => Set::empty(),
    }
}

/// The variables an operation reads, including those that a jump hands to its label.
pub open spec fn op_uses(o: OpV) -> Set<Var> {
    match o {
        OpV::Return(r) => rv_vars(r).to_set(),
        OpV::BinOp(_, _, a, b, _) => rv_vars(a).to_set() + rv_vars(b).to_set(),
        OpV::UnOp(_, _, a) => rv_vars(a).to_set(),
        OpV::Load(_, a, _) => set![a],
        OpV::Store(a, v, _) => set![a, v],
        OpV::Call(_, _, args) => args.to_set(),
        OpV::Goto(_, vs) => vs.to_set(),
        OpV::CondGoto(_, c, _, vs) => rv_vars(c).to_set() + vs.to_set(),
        _ => Set::empty(),
    }
}

pub open spec fn info_ok(info: Opinfo, o: OpV) -> bool {
    &&& info.def@.no_duplicates()
    &&& info.used@.no_duplicates()
    &&& info.live_in@.no_duplicates()
    &&& info.live_out@.no_duplicates()
    &&& info.def@.to_set() == op_defs(o)
    &&& info.used@.to_set() == op_uses(o)
    &&& info.live_in@.to_set() == info.used@.to_set() + (info.live_out@.to_set() - info.def@.to_set())
}

/// The index of the first label `id`.
pub open spec fn label_index(ops: Seq<OpV>, id: usize) -> Option<int>
    decreases ops.len(),
{
    if ops.len() == 0 {
        None
    } else if ops[0] is Label && ops[0]->Label_0 == id {
        Some(0)
    } else {
        match label_index(ops.drop_first(), id) {
            Some(k) => Some(k + 1),
            None => None,
        }
    }
}

pub open spec fn next_of(ops: Seq<OpV>, i: int) -> Set<int> {
    if i + 1 < ops.len() { set![i + 1] } else { Set::empty() }
}

pub open spec fn label_of(ops: Seq<OpV>, id: usize) -> Set<int> {
    match label_index(ops, id) {
        Some(k) => set![k],
        None => Set::empty(),
    }
}

/// The operations that control can reach from `i` in one step.
pub open spec fn succs(ops: Seq<OpV>, i: int) -> Set<int> {
    match ops[i] {
        OpV::Return(_) => Set::empty(),
        OpV::Goto(id, _) => label_of(ops, id),
        OpV::CondGoto(_, _, id, _) => label_of(ops, id) + next_of(ops, i),
        _ => next_of(ops, i),
    }
}

proof fn lemma_label_index_bound(ops: Seq<OpV>, id: usize)
    ensures
        label_index(ops, id) matches Some(k) ==> 0 <= k < ops.len(),
    decreases ops.len(),
{
    if ops.len() > 0 {
        lemma_label_index_bound(ops.drop_first(), id);
    }
}

fn label_index_exec(ops: &Vec<Op>, id: usize) -> (r: Option<usize>)
    ensures
        r matches Some(k) ==> label_index(ops_view(ops@), id) == Some(k as int) && k < ops@.len(),
        r is None ==> label_index(ops_view(ops@), id) is None,
{
    let ghost ov = ops_view(ops@);
    let mut i: usize = 0;
    assert(ov.subrange(0, ov.len() as int) =~= ov);
    while i < ops.len()
        invariant
            i <= ops@.len(),
            ov == ops_view(ops@),
            ov.len() == ops@.len(),
            label_index(ov, id) == match label_index(ov.subrange(i as int, ov.len() as int), id) {
                Some(k) => Some(k + i),
                None => None,
            },
        decreases ops@.len() - i,
    {
        proof {
            let t = ov.subrange(i as int, ov.len() as int);
            assert(t.drop_first() =~= ov.subrange(i + 1, ov.len() as int));
            assert(t[0] == ops@[i as int]@);
        }
        match &ops[i] {
            Op::Label(l, _) => {
                if *l == id {
                    return Some(i);
                }
            },
            _ => {},
        }
        i = i + 1;
    }
    None
}

fn add_rv(s: &mut Vec<Var>, r: &RValueElem)
    requires
        old(s)@.no_duplicates(),
    ensures
        final(s)@.no_duplicates(),
        final(s)@.to_set() == old(s)@.to_set() + rv_vars(*r).to_set(),
{
    match r {
        RValueElem::Variable(v) => {
            insert_var(s, *v);
            proof { lemma_single_to_set(*v); }
            assert(old(s)@.to_set().insert(*v) =~= old(s)@.to_set() + set![*v]);
        },
        RValueElem::Constant(_) => {
            assert(rv_vars(*r).to_set() =~= Set::<Var>::empty());
            assert(old(s)@.to_set() + Set::<Var>::empty() =~= old(s)@.to_set());
        },
    }
}

fn set_of(v: &Vec<Var>) -> (r: Vec<Var>)
    ensures
        r@.no_duplicates(),
        r@.to_set() == v@.to_set(),
{
    let mut r: Vec<Var> = Vec::new();
    insert_all(&mut r, v);
    assert(Seq::<Var>::empty().to_set() + v@.to_set() =~= v@.to_set());
    r
}

fn defs_of(op: &Op) -> (r: Vec<Var>)
    ensures
        r@.no_duplicates(),
        r@.to_set() == op_defs(op@),
{
    let mut r: Vec<Var> = Vec::new();
    match op {
        Op::Func(_, args, _) => { return set_of(args); },
        Op::Label(_, vs) => { return set_of(vs); },
        Op::BinOp(v, ..) | Op::UnOp(v, ..) | Op::Load(v, ..) | Op::Alloca(v, ..) | Op::Call(v, ..) => {
            insert_var(&mut r, *v);
        },
        _ => {},
    }
    assert(r@.to_set() =~= op_defs(op@));
    r
}

fn uses_of(op: &Op) -> (r: Vec<Var>)
    ensures
        r@.no_duplicates(),
        r@.to_set() == op_uses(op@),
{
    let mut r: Vec<Var> = Vec::new();
    let ghost e = Seq::<Var>::empty().to_set();
    assert(e =~= Set::<Var>::empty());
    match op {
        Op::Return(a) => {
            add_rv(&mut r, a);
        },
        Op::BinOp(_, _, a, b, _) => {
            add_rv(&mut r, a);
            add_rv(&mut r, b);
        },
        Op::UnOp(_, _, a) => {
            add_rv(&mut r, a);
        },
        Op::Load(_, a, _) => {
            insert_var(&mut r, *a);
        },
        Op::Store(a, v, _) => {
            insert_var(&mut r, *a);
            insert_var(&mut r, *v);
        },
        Op::Call(_, _, args) => {
            return set_of(args);
        },
        Op::Goto(_, vs) => {
            return set_of(vs);
        },
        Op::CondGoto(_, c, _, vs) => {
            add_rv(&mut r, c);
            insert_all(&mut r, vs);
        },
        _ => {},
    }
    assert(r@.to_set() =~= op_uses(op@));
    r
}

/// The successors of the operation at `i`.
fn succs_exec(ops: &Vec<Op>, i: usize) -> (r: Vec<usize>)
    requires
        i < ops@.len(),
    ensures
        forall|k: int| 0 <= k < r@.len() ==> r@[k] < ops@.len(),
        forall|j: int| succs(ops_view(ops@), i as int).contains(j) <==> exists|k: int| 0 <= k < r@.len() && r@[k] == j,
{
    let ghost ov = ops_view(ops@);
    assert(ov[i as int] == ops@[i as int]@);
    let mut r: Vec<usize> = Vec::new();
    let mut to_label: Option<usize> = None;
    let mut falls = true;
    match &ops[i] {
        Op::Return(_) => { falls = false; },
        Op::Goto(id, _) => { falls = false; to_label = Some(*id); },
        Op::CondGoto(_, _, id, _) => { to_label = Some(*id); },
        _ => {},
    }
    match to_label {
        Some(id) => {
            match label_index_exec(ops, id) {
                Some(k) => { r.push(k); },
                None => {},
            }
        },
        None => {},
    }
    if falls && i < ops.len() - 1 {
        r.push(i + 1);
    }
    proof {
        assert forall|j: int| succs(ov, i as int).contains(j) <==> exists|k: int| 0 <= k < r@.len() && r@[k] == j by {
            if succs(ov, i as int).contains(j) {
                if r@.len() > 0 && r@[0] == j {
                } else {
                    assert(r@[r@.len() - 1] == j);
                }
            }
        }
    }
    r
}

/// Liveness of every operation of a function body, by backward dataflow
/// repeated until no set changes.
pub fn analyze(ops: &Vec<Op>) -> (r: Vec<Opinfo>)
    ensures
        r@.len() == ops@.len(),
        forall|i: int| 0 <= i < ops@.len() ==> #[trigger] info_ok(r@[i], ops@[i]@),
        forall|i: int| 0 <= i < ops@.len() ==> live_sound(#[trigger] r@[i]),
        forall|i: int, s: int| 0 <= i < ops@.len() && #[trigger] succs(ops_view(ops@), i).contains(s) ==>
            r@[s].live_in@.to_set().subset_of(r@[i].live_out@.to_set()),
        forall|i: int, v: Var| 0 <= i < ops@.len() && #[trigger] r@[i].live_out@.to_set().contains(v) ==>
            exists|s: int| #[trigger] succs(ops_view(ops@), i).contains(s) && r@[s].live_in@.to_set().contains(v),
        live_exact(ops@, r@),
{
    let n = ops.len();
    let mut defs: Vec<Vec<Var>> = Vec::new();
    let mut uses: Vec<Vec<Var>> = Vec::new();
    let mut ins: Vec<Vec<Var>> = Vec::new();
    let mut outs: Vec<Vec<Var>> = Vec::new();
    let mut i: usize = 0;
    while i < n
        invariant
            n == ops@.len(),
            i <= n,
            defs@.len() == i && uses@.len() == i && ins@.len() == i && outs@.len() == i,
            forall|k: int| 0 <= k < i ==> #[trigger] slot_ok(defs@[k], uses@[k], ins@[k], outs@[k], ops@[k]@),
            forall|k: int| 0 <= k < i ==> (#[trigger] outs@[k])@.len() == 0,
        decreases n - i,
    {
        let d = defs_of(&ops[i]);
        let u = uses_of(&ops[i]);
        let lin = set_of(&u);
        defs.push(d);
        uses.push(u);
        ins.push(lin);
        outs.push(Vec::new());
        proof {
            let k = i as int;
            assert(outs@[k]@.to_set() =~= Set::<Var>::empty());
            assert(ins@[k]@.to_set() =~= uses@[k]@.to_set() + (outs@[k]@.to_set() - defs@[k]@.to_set()));
            assert(slot_ok(defs@[k], uses@[k], ins@[k], outs@[k], ops@[k]@));
        }
        i = i + 1;
    }
    // Every live set stays within the variables that some operation reads or writes.
    let mut univ: Vec<Var> = Vec::new();
    let mut q: usize = 0;
    while q < n
        invariant
            n == ops@.len(),
            q <= n,
            defs@.len() == n && uses@.len() == n,
            univ@.no_duplicates(),
            univ@.to_set().subset_of(vars_of(ops@)),
            forall|k: int| 0 <= k < n ==> #[trigger] slot_ok(defs@[k], uses@[k], ins@[k], outs@[k], ops@[k]@),
            forall|k: int| 0 <= k < q ==> (#[trigger] uses@[k])@.to_set().subset_of(univ@.to_set()),
            forall|k: int| 0 <= k < q ==> (#[trigger] defs@[k])@.to_set().subset_of(univ@.to_set()),
        decreases n - q,
    {
        let ghost before = univ@.to_set();
        proof {
            assert(slot_ok(defs@[q as int], uses@[q as int], ins@[q as int], outs@[q as int], ops@[q as int]@));
            assert forall|v: Var| uses@[q as int]@.to_set().contains(v) || defs@[q as int]@.to_set().contains(v) implies vars_of(ops@).contains(v) by {
                assert(op_touches(ops@[q as int]@, v));
            }
        }
        insert_all(&mut univ, &uses[q]);
        let ghost mid = univ@.to_set();
        insert_all(&mut univ, &defs[q]);
        proof {
            assert(uses@[q as int]@.to_set().subset_of(mid));
            assert(mid.subset_of(univ@.to_set()));
            assert(before.subset_of(univ@.to_set()));
            assert forall|k: int| 0 <= k < q + 1 implies (#[trigger] uses@[k])@.to_set().subset_of(univ@.to_set()) by {
                if k < q {
                    assert(uses@[k]@.to_set().subset_of(before));
                    assert forall|x: Var| uses@[k]@.to_set().contains(x) implies univ@.to_set().contains(x) by {
                        assert(before.contains(x));
                    }
                } else {
                    assert forall|x: Var| uses@[k]@.to_set().contains(x) implies univ@.to_set().contains(x) by {
                        assert(mid.contains(x));
                    }
                }
            }
            assert forall|k: int| 0 <= k < q + 1 implies (#[trigger] defs@[k])@.to_set().subset_of(univ@.to_set()) by {
                if k < q {
                    assert(defs@[k]@.to_set().subset_of(before));
                    assert forall|x: Var| defs@[k]@.to_set().contains(x) implies univ@.to_set().contains(x) by {
                        assert(before.contains(x));
                    }
                }
            }
        }
        q = q + 1;
    }
    let ghost u = univ@.to_set();
    let ghost cap = univ@.len() as int;
    proof {
        assert forall|v: Var| vars_of(ops@).contains(v) implies u.contains(v) by {
            let i = choose|i: int| 0 <= i < ops@.len() && #[trigger] op_touches(ops@[i]@, v);
            assert(slot_ok(defs@[i], uses@[i], ins@[i], outs@[i], ops@[i]@));
            assert(uses@[i]@.to_set().subset_of(u));
            assert(defs@[i]@.to_set().subset_of(u));
        }
        assert(vars_of(ops@) =~= u);
        vstd::seq_lib::seq_to_set_is_finite(univ@);
        assert forall|k: int| 0 <= k < n implies (#[trigger] outs@[k])@.to_set().subset_of(u) && ins@[k]@.to_set().subset_of(u) by {
            assert(slot_ok(defs@[k], uses@[k], ins@[k], outs@[k], ops@[k]@));
            assert(outs@[k]@ =~= Seq::<Var>::empty());
            assert(outs@[k]@.to_set() =~= Set::<Var>::empty());
        }
        assert forall|k: int| 0 <= k < outs@.len() implies (#[trigger] outs@[k])@.no_duplicates() && outs@[k]@.to_set().subset_of(univ@.to_set()) by {
            assert(slot_ok(defs@[k], uses@[k], ins@[k], outs@[k], ops@[k]@));
        }
        lemma_slack_nonneg(outs@, univ@);
        assert forall|sin: Seq<Set<Var>>, sout: Seq<Set<Var>>| #[trigger] solution(ops@, sin, sout) implies below(ins@, outs@, sin, sout) by {
            assert forall|k: int| 0 <= k < ins@.len() implies (#[trigger] ins@[k])@.to_set().subset_of(sin[k]) && outs@[k]@.to_set().subset_of(sout[k]) by {
                assert(slot_ok(defs@[k], uses@[k], ins@[k], outs@[k], ops@[k]@));
                assert(outs@[k]@.to_set() =~= Set::<Var>::empty());
                assert(op_uses(ops@[k]@).subset_of(sin[k]));
            }
        }
    }
    let mut changed = true;
    while changed
        invariant
            n == ops@.len(),
            defs@.len() == n && uses@.len() == n && ins@.len() == n && outs@.len() == n,
            univ@.no_duplicates(),
            u == univ@.to_set(),
            u == vars_of(ops@),
            u.finite(),
            cap == univ@.len(),
            forall|k: int| 0 <= k < n ==> #[trigger] slot_ok(defs@[k], uses@[k], ins@[k], outs@[k], ops@[k]@),
            forall|k: int| 0 <= k < n ==> (#[trigger] uses@[k])@.to_set().subset_of(u) && defs@[k]@.to_set().subset_of(u),
            forall|k: int| 0 <= k < n ==> (#[trigger] outs@[k])@.to_set().subset_of(u) && ins@[k]@.to_set().subset_of(u),
            slack(outs@, cap) >= 0,
            !changed ==> fixed_point(ops_view(ops@), ins@, outs@),
            forall|k: int| 0 <= k < n ==> #[trigger] out_from_succs(ops_view(ops@), ins@, outs@, k),
            forall|sin: Seq<Set<Var>>, sout: Seq<Set<Var>>| #[trigger] solution(ops@, sin, sout) ==> below(ins@, outs@, sin, sout),
        decreases slack(outs@, cap) * 2 + if changed { 1int } else { 0int },
    {
        changed = false;
        let ghost slack0 = slack(outs@, cap);
        let ghost ins0 = ins@;
        let ghost outs0 = outs@;
        let mut j: usize = n;
        while j > 0
            invariant
                n == ops@.len(),
                j <= n,
                defs@.len() == n && uses@.len() == n && ins@.len() == n && outs@.len() == n,
                ins0.len() == n && outs0.len() == n,
                forall|k: int| 0 <= k < n ==> #[trigger] slot_ok(defs@[k], uses@[k], ins0[k], outs0[k], ops@[k]@),
                univ@.no_duplicates(),
                u == univ@.to_set(),
                cap == univ@.len(),
                forall|k: int| 0 <= k < n ==> #[trigger] slot_ok(defs@[k], uses@[k], ins@[k], outs@[k], ops@[k]@),
                forall|k: int| 0 <= k < n ==> (#[trigger] uses@[k])@.to_set().subset_of(u) && defs@[k]@.to_set().subset_of(u),
                forall|k: int| 0 <= k < n ==> (#[trigger] outs@[k])@.to_set().subset_of(u) && ins@[k]@.to_set().subset_of(u),
                slack(outs@, cap) >= 0,
                slack(outs@, cap) <= slack0,
                changed ==> slack(outs@, cap) < slack0,
                !changed ==> forall|k: int| 0 <= k < n ==> (#[trigger] ins@[k])@.to_set() == ins0[k]@.to_set() && outs@[k]@ == outs0[k]@,
                !changed ==> forall|k: int| j <= k < n ==> #[trigger] flows_into(ops_view(ops@), ins@, outs@, k),
                forall|k: int| 0 <= k < n ==> #[trigger] out_from_succs(ops_view(ops@), ins@, outs@, k),
                forall|sin: Seq<Set<Var>>, sout: Seq<Set<Var>>| #[trigger] solution(ops@, sin, sout) ==> below(ins@, outs@, sin, sout),
            decreases j,
        {
            j = j - 1;
            let ss = succs_exec(ops, j);
            let mut out = copy_vars(&outs[j]);
            let mut grew = false;
            let mut t: usize = 0;
            assert(slot_ok(defs@[j as int], uses@[j as int], ins@[j as int], outs@[j as int], ops@[j as int]@));
            let ghost out0 = out@;
            while t < ss.len()
                invariant
                    n == ops@.len(),
                    j < n,
                    t <= ss@.len(),
                    ins@.len() == n,
                    forall|k: int| 0 <= k < ss@.len() ==> ss@[k] < n,
                    out@.no_duplicates(),
                    out0.to_set().subset_of(out@.to_set()),
                    !grew ==> out@ == out0,
                    grew ==> out@.len() > out0.len(),
                    out@.len() >= out0.len(),
                    forall|k: int| 0 <= k < n ==> (#[trigger] ins@[k])@.to_set().subset_of(u),
                    out0.to_set().subset_of(u),
                    out@.to_set().subset_of(u),
                    forall|k: int| 0 <= k < t ==> (#[trigger] ins@[ss@[k] as int])@.to_set().subset_of(out@.to_set()),
                    forall|v: Var| #[trigger] out@.to_set().contains(v) ==> out0.to_set().contains(v)
                        || exists|q: int| 0 <= q < t && (#[trigger] ins@[ss@[q] as int])@.to_set().contains(v),
                    forall|sin: Seq<Set<Var>>, sout: Seq<Set<Var>>| #[trigger] solution(ops@, sin, sout) ==>
                        below(ins@, outs@, sin, sout) && out@.to_set().subset_of(sout[j as int]),
                    forall|j2: int| #[trigger] succs(ops_view(ops@), j as int).contains(j2) <==> exists|k: int| 0 <= k < ss@.len() && ss@[k] == j2,
                    ins@.len() == n && outs@.len() == n && j < n,
                    out0 == outs@[j as int]@,
                decreases ss@.len() - t,
            {
                let s = ss[t];
                let ghost before = out@;
                let g = insert_all(&mut out, &ins[s]);
                if g {
                    grew = true;
                }
                proof {
                    assert forall|sin: Seq<Set<Var>>, sout: Seq<Set<Var>>| #[trigger] solution(ops@, sin, sout) implies
                        below(ins@, outs@, sin, sout) && out@.to_set().subset_of(sout[j as int]) by {
                        assert(exists|k: int| 0 <= k < ss@.len() && ss@[k] == s);
                        assert(succs(ops_view(ops@), j as int).contains(s as int));
                        assert(ins@[s as int]@.to_set().subset_of(sin[s as int]));
                    }
                    assert forall|v: Var| #[trigger] out@.to_set().contains(v) implies out0.to_set().contains(v)
                        || exists|q: int| 0 <= q < t + 1 && (#[trigger] ins@[ss@[q] as int])@.to_set().contains(v) by {
                        if !before.to_set().contains(v) {
                            assert(ins@[ss@[t as int] as int]@.to_set().contains(v));
                        } else if !out0.to_set().contains(v) {
                            let q = choose|q: int| 0 <= q < t && (#[trigger] ins@[ss@[q] as int])@.to_set().contains(v);
                            assert(ins@[ss@[q] as int]@.to_set().contains(v));
                        }
                    }
                    assert(before.to_set().subset_of(out@.to_set()));
                    assert forall|k: int| 0 <= k < t + 1 implies (#[trigger] ins@[ss@[k] as int])@.to_set().subset_of(out@.to_set()) by {
                        if k < t {
                            assert(ins@[ss@[k] as int]@.to_set().subset_of(before.to_set()));
                        }
                    }
                    if g {
                        assert(out@.len() > before.len()) by {
                            assert(out@.len() != before.len());
                            assert(before.to_set().subset_of(out@.to_set()));
                            lemma_len_within(before, out@);
                        }
                    }
                }
                t = t + 1;
            }
            let mut lin = set_of(&uses[j]);
            let extra = difference(&out, &defs[j]);
            insert_all(&mut lin, &extra);
            proof {
                assert(lin@.to_set() == uses@[j as int]@.to_set() + (out@.to_set() - defs@[j as int]@.to_set()));
                lemma_len_within(out@, univ@);
                lemma_slack_update(outs@, j as int, out, cap);
            }
            let ghost ins_before = ins@;
            let ghost outs_before = outs@;
            ins[j] = lin;
            outs[j] = out;
            if grew {
                changed = true;
            }
            proof {
                let ov = ops_view(ops@);
                assert forall|sin: Seq<Set<Var>>, sout: Seq<Set<Var>>| #[trigger] solution(ops@, sin, sout) implies below(ins@, outs@, sin, sout) by {
                    assert(below(ins_before, outs_before, sin, sout));
                    assert(slot_ok(defs@[j as int], uses@[j as int], ins@[j as int], outs@[j as int], ops@[j as int]@));
                    assert(op_uses(ops@[j as int]@).subset_of(sin[j as int]));
                    assert((sout[j as int] - op_defs(ops@[j as int]@)).subset_of(sin[j as int]));
                    assert forall|k: int| 0 <= k < ins@.len() implies (#[trigger] ins@[k])@.to_set().subset_of(sin[k]) && outs@[k]@.to_set().subset_of(sout[k]) by {
                        if k != j {
                            assert(ins@[k] == ins_before[k]);
                            assert(outs@[k] == outs_before[k]);
                        }
                    }
                }
                assert(slot_ok(defs@[j as int], uses@[j as int], ins_before[j as int], outs_before[j as int], ops@[j as int]@));
                assert(out0 == outs_before[j as int]@);
                assert(ins_before[j as int]@.to_set().subset_of(ins@[j as int]@.to_set()));
                assert forall|k: int| 0 <= k < n implies #[trigger] out_from_succs(ov, ins@, outs@, k) by {
                    assert(out_from_succs(ov, ins_before, outs_before, k));
                    assert forall|v: Var| #[trigger] outs@[k]@.to_set().contains(v) implies in_some_succ(ov, ins@, k, v) by {
                        if k != j || out0.to_set().contains(v) {
                            assert(outs_before[k]@.to_set().contains(v));
                            let s2 = choose|s2: int| #[trigger] succs(ov, k).contains(s2) && ins_before[s2]@.to_set().contains(v);
                            lemma_succs_bound(ov, k, s2);
                            if s2 != j {
                                assert(ins@[s2] == ins_before[s2]);
                            }
                            assert(ins@[s2]@.to_set().contains(v));
                        } else {
                            let q = choose|q: int| 0 <= q < ss@.len() && (#[trigger] ins_before[ss@[q] as int])@.to_set().contains(v);
                            let s2 = ss@[q] as int;
                            assert(exists|kk: int| 0 <= kk < ss@.len() && ss@[kk] == s2);
                            assert(succs(ov, j as int).contains(s2));
                            assert(ins_before[s2]@.to_set().contains(v));
                            if s2 != j {
                                assert(ins@[s2] == ins_before[s2]);
                            }
                            assert(ins@[s2]@.to_set().contains(v));
                        }
                    }
                }
                assert(slot_ok(defs@[j as int], uses@[j as int], ins@[j as int], outs@[j as int], ops@[j as int]@));
                assert forall|k: int| 0 <= k < n implies (#[trigger] outs@[k])@.to_set().subset_of(u) && ins@[k]@.to_set().subset_of(u) by {
                    if k != j {
                        assert(outs@[k] == outs_before[k]);
                        assert(ins@[k] == ins_before[k]);
                    }
                }
                assert forall|k: int| 0 <= k < outs@.len() implies (#[trigger] outs@[k])@.no_duplicates() && outs@[k]@.to_set().subset_of(univ@.to_set()) by {
                    assert(slot_ok(defs@[k], uses@[k], ins@[k], outs@[k], ops@[k]@));
                }
                lemma_slack_nonneg(outs@, univ@);
                if !changed {
                    assert(slot_ok(defs@[j as int], uses@[j as int], ins0[j as int], outs0[j as int], ops@[j as int]@));
                    assert(out@ == outs0[j as int]@);
                    assert(ins@[j as int]@.to_set() =~= ins0[j as int]@.to_set());
                    assert forall|k: int| 0 <= k < n implies (#[trigger] ins@[k])@.to_set() == ins0[k]@.to_set() && outs@[k]@ == outs0[k]@ by {
                        if k != j {
                            assert(outs@[k] == outs_before[k]);
                            assert(ins@[k] == ins_before[k]);
                        }
                    }
                    assert forall|k: int| j <= k < n implies #[trigger] flows_into(ops_view(ops@), ins@, outs@, k) by {
                        if k == j {
                            assert(ops_view(ops@)[k] == ops@[k]@);
                            assert forall|s2: int| #[trigger] succs(ops_view(ops@), k).contains(s2) implies ins@[s2]@.to_set().subset_of(outs@[k]@.to_set()) by {
                                let m = choose|m: int| 0 <= m < ss@.len() && ss@[m] == s2;
                                assert(ins_before[s2]@.to_set().subset_of(out@.to_set()));
                                assert(ins@[s2]@.to_set() == ins0[s2]@.to_set());
                                assert(ins_before[s2]@.to_set() == ins0[s2]@.to_set());
                            }
                        } else {
                            assert(flows_into(ops_view(ops@), ins_before, outs_before, k));
                            assert forall|s2: int| #[trigger] succs(ops_view(ops@), k).contains(s2) implies ins@[s2]@.to_set().subset_of(outs@[k]@.to_set()) by {
                                lemma_succs_bound(ops_view(ops@), k, s2);
                                assert(ins_before[s2]@.to_set().subset_of(outs_before[k]@.to_set()));
                                assert(ins@[s2]@.to_set() == ins0[s2]@.to_set());
                                assert(ins_before[s2]@.to_set() == ins0[s2]@.to_set());
                            }
                        }
                    }
                }
            }
        }
        proof {
            if !changed {
                assert forall|k: int| 0 <= k < n implies #[trigger] flows_into(ops_view(ops@), ins@, outs@, k) by {}
            }
        }
    }
    let mut r: Vec<Opinfo> = Vec::new();
    let mut k: usize = 0;
    while k < n
        invariant
            n == ops@.len(),
            k <= n,
            defs@.len() == n && uses@.len() == n && ins@.len() == n && outs@.len() == n,
            forall|m: int| 0 <= m < n ==> #[trigger] slot_ok(defs@[m], uses@[m], ins@[m], outs@[m], ops@[m]@),
            r@.len() == k,
            forall|m: int| 0 <= m < k ==> #[trigger] info_ok(r@[m], ops@[m]@),
            fixed_point(ops_view(ops@), ins@, outs@),
            forall|sin: Seq<Set<Var>>, sout: Seq<Set<Var>>| #[trigger] solution(ops@, sin, sout) ==> below(ins@, outs@, sin, sout),
            u == vars_of(ops@),
            u.finite(),
            forall|k: int| 0 <= k < n ==> (#[trigger] outs@[k])@.to_set().subset_of(u) && ins@[k]@.to_set().subset_of(u),
            forall|m: int| 0 <= m < n ==> #[trigger] out_from_succs(ops_view(ops@), ins@, outs@, m),
            forall|m: int| 0 <= m < k ==> (#[trigger] r@[m]).live_in@ == ins@[m]@ && r@[m].live_out@ == outs@[m]@,
        decreases n - k,
    {
        let info = Opinfo {
            def: copy_vars(&defs[k]),
            used: copy_vars(&uses[k]),
            live_in: copy_vars(&ins[k]),
            live_out: copy_vars(&outs[k]),
        };
        assert(slot_ok(defs@[k as int], uses@[k as int], ins@[k as int], outs@[k as int], ops@[k as int]@));
        r.push(info);
        k = k + 1;
    }
    proof {
        assert forall|i: int| 0 <= i < ops@.len() implies live_sound(#[trigger] r@[i]) by {
            assert(info_ok(r@[i], ops@[i]@));
        }
        assert forall|i: int, s: int| 0 <= i < ops@.len() && #[trigger] succs(ops_view(ops@), i).contains(s) implies
            r@[s].live_in@.to_set().subset_of(r@[i].live_out@.to_set()) by {
            assert(flows_into(ops_view(ops@), ins@, outs@, i));
            lemma_succs_bound(ops_view(ops@), i, s);
            assert(r@[s].live_in@ == ins@[s]@);
        }
        assert forall|sin: Seq<Set<Var>>, sout: Seq<Set<Var>>| #[trigger] solution(ops@, sin, sout) implies
            forall|i: int| 0 <= i < ops@.len() ==> (#[trigger] r@[i]).live_in@.to_set().subset_of(sin[i])
                && r@[i].live_out@.to_set().subset_of(sout[i]) by {
            assert(below(ins@, outs@, sin, sout));
            assert forall|i: int| 0 <= i < ops@.len() implies (#[trigger] r@[i]).live_in@.to_set().subset_of(sin[i])
                && r@[i].live_out@.to_set().subset_of(sout[i]) by {
                assert(ins@[i]@.to_set().subset_of(sin[i]));
            }
        }
        assert forall|i: int| 0 <= i < ops@.len() implies (#[trigger] r@[i]).live_in@.to_set().subset_of(vars_of(ops@))
            && r@[i].live_out@.to_set().subset_of(vars_of(ops@)) by {
            assert(outs@[i]@.to_set().subset_of(u) && ins@[i]@.to_set().subset_of(u));
        }
        assert forall|i: int, v: Var| 0 <= i < ops@.len() && #[trigger] r@[i].live_out@.to_set().contains(v) implies
            exists|s: int| #[trigger] succs(ops_view(ops@), i).contains(s) && r@[s].live_in@.to_set().contains(v) by {
            assert(out_from_succs(ops_view(ops@), ins@, outs@, i));
            assert(outs@[i]@.to_set().contains(v));
            let s = choose|s: int| #[trigger] succs(ops_view(ops@), i).contains(s) && ins@[s]@.to_set().contains(v);
            lemma_succs_bound(ops_view(ops@), i, s);
            assert(r@[s].live_in@ == ins@[s]@);
        }
    }
    r
}

/// Every variable an operation reads is live on entry to it, and so is every
/// variable live on exit that it does not write.
pub open spec fn live_sound(info: Opinfo) -> bool {
    &&& info.used@.to_set().subset_of(info.live_in@.to_set())
    &&& (info.live_out@.to_set() - info.def@.to_set()).subset_of(info.live_in@.to_set())
}

/// The variables live on entry to each successor of `k` are live on exit from `k`.
pub open spec fn flows_into(ops: Seq<OpV>, ins: Seq<Vec<Var>>, outs: Seq<Vec<Var>>, k: int) -> bool {
    forall|s: int| #[trigger] succs(ops, k).contains(s) ==> ins[s]@.to_set().subset_of(outs[k]@.to_set())
}

/// The variables that some operation of the body reads or writes.
pub open spec fn vars_of(ops: Seq<Op>) -> Set<Var> {
    Set::new(|v: Var| exists|i: int| 0 <= i < ops.len() && #[trigger] op_touches(ops[i]@, v))
}

/// The operation reads or writes `v`.
pub open spec fn op_touches(o: OpV, v: Var) -> bool {
    op_uses(o).contains(v) || op_defs(o).contains(v)
}

/// The liveness of a body: each operation's sets are consistent, they hold
/// only variables of the body, and what is
/// live on exit from an operation is exactly what is live on entry to one of
/// its successors.
pub open spec fn live_exact(ops: Seq<Op>, infos: Seq<Opinfo>) -> bool {
    &&& infos.len() == ops.len()
    &&& forall|i: int| 0 <= i < ops.len() ==> #[trigger] info_ok(infos[i], ops[i]@)
    &&& vars_of(ops).finite()
    &&& forall|i: int| 0 <= i < ops.len() ==> (#[trigger] infos[i]).live_in@.to_set().subset_of(vars_of(ops))
            && infos[i].live_out@.to_set().subset_of(vars_of(ops))
    &&& forall|i: int, s: int| 0 <= i < ops.len() && #[trigger] succs(ops_view(ops), i).contains(s) ==>
            infos[s].live_in@.to_set().subset_of(infos[i].live_out@.to_set())
    &&& forall|i: int, v: Var| 0 <= i < ops.len() && #[trigger] infos[i].live_out@.to_set().contains(v) ==>
            exists|s: int| #[trigger] succs(ops_view(ops), i).contains(s) && infos[s].live_in@.to_set().contains(v)
    &&& forall|sin: Seq<Set<Var>>, sout: Seq<Set<Var>>| #[trigger] solution(ops, sin, sout) ==>
            forall|i: int| 0 <= i < ops.len() ==> (#[trigger] infos[i]).live_in@.to_set().subset_of(sin[i])
                && infos[i].live_out@.to_set().subset_of(sout[i])
}

/// Sets that satisfy the dataflow constraints of the body: each entry set
/// holds the reads and what is live on exit but not written, and each exit
/// set holds the entry sets of the successors.
pub open spec fn solution(ops: Seq<Op>, sin: Seq<Set<Var>>, sout: Seq<Set<Var>>) -> bool {
    &&& sin.len() == ops.len() && sout.len() == ops.len()
    &&& forall|i: int| 0 <= i < ops.len() ==> op_uses(ops[i]@).subset_of(#[trigger] sin[i])
            && (sout[i] - op_defs(ops[i]@)).subset_of(sin[i])
    &&& forall|i: int, s: int| 0 <= i < ops.len() && #[trigger] succs(ops_view(ops), i).contains(s) ==> sin[s].subset_of(sout[i])
}

/// The sets of `ins` and `outs` lie within those of `sin` and `sout`.
pub open spec fn below(ins: Seq<Vec<Var>>, outs: Seq<Vec<Var>>, sin: Seq<Set<Var>>, sout: Seq<Set<Var>>) -> bool {
    forall|k: int| 0 <= k < ins.len() ==> (#[trigger] ins[k])@.to_set().subset_of(sin[k]) && outs[k]@.to_set().subset_of(sout[k])
}

/// `v` is live on entry to some successor of `k`.
pub open spec fn in_some_succ(ops: Seq<OpV>, ins: Seq<Vec<Var>>, k: int, v: Var) -> bool {
    exists|s: int| #[trigger] succs(ops, k).contains(s) && ins[s]@.to_set().contains(v)
}

/// Whatever is live on exit from `k` is live on entry to one of its successors.
pub open spec fn out_from_succs(ops: Seq<OpV>, ins: Seq<Vec<Var>>, outs: Seq<Vec<Var>>, k: int) -> bool {
    forall|v: Var| #[trigger] outs[k]@.to_set().contains(v) ==> in_some_succ(ops, ins, k, v)
}

pub open spec fn fixed_point(ops: Seq<OpV>, ins: Seq<Vec<Var>>, outs: Seq<Vec<Var>>) -> bool {
    forall|k: int| 0 <= k < ops.len() ==> #[trigger] flows_into(ops, ins, outs, k)
}

/// Room left for the exit sets to grow, when none can exceed `cap`.
pub open spec fn slack(outs: Seq<Vec<Var>>, cap: int) -> int
    decreases outs.len(),
{
    if outs.len() == 0 { 0 } else { slack(outs.drop_last(), cap) + (cap - outs.last()@.len()) }
}

proof fn lemma_slack_update(outs: Seq<Vec<Var>>, j: int, x: Vec<Var>, cap: int)
    requires
        0 <= j < outs.len(),
    ensures
        slack(outs.update(j, x), cap) == slack(outs, cap) + outs[j]@.len() - x@.len(),
    decreases outs.len(),
{
    if j == outs.len() - 1 {
        assert(outs.update(j, x).drop_last() =~= outs.drop_last());
    } else {
        assert(outs.update(j, x).drop_last() =~= outs.drop_last().update(j, x));
        lemma_slack_update(outs.drop_last(), j, x, cap);
    }
}

proof fn lemma_slack_nonneg(outs: Seq<Vec<Var>>, univ: Seq<Var>)
    requires
        univ.no_duplicates(),
        forall|k: int| 0 <= k < outs.len() ==> (#[trigger] outs[k])@.no_duplicates() && outs[k]@.to_set().subset_of(univ.to_set()),
    ensures
        slack(outs, univ.len() as int) >= 0,
    decreases outs.len(),
{
    if outs.len() > 0 {
        lemma_slack_nonneg(outs.drop_last(), univ);
        lemma_len_within(outs.last()@, univ);
    }
}

proof fn lemma_succs_bound(ops: Seq<OpV>, k: int, s: int)
    requires
        0 <= k < ops.len(),
        succs(ops, k).contains(s),
    ensures
        0 <= s < ops.len(),
{
    match ops[k] {
        OpV::Goto(id, _) => { lemma_label_index_bound(ops, id); },
        OpV::CondGoto(_, _, id, _) => { lemma_label_index_bound(ops, id); },
        _ => {},
    }
}

pub open spec fn slot_ok(d: Vec<Var>, u: Vec<Var>, li: Vec<Var>, lo: Vec<Var>, o: OpV) -> bool {
    info_ok(Opinfo { def: d, used: u, live_in: li, live_out: lo }, o)
}


/// The liveness of a body is unique: two results that both meet `live_exact`
/// have the same entry and exit sets at every operation.
pub proof fn lemma_live_exact_unique(ops: Seq<Op>, a: Seq<Opinfo>, b: Seq<Opinfo>)
    requires
        live_exact(ops, a),
        live_exact(ops, b),
    ensures
        forall|i: int| 0 <= i < ops.len() ==> (#[trigger] a[i]).live_in@.to_set() == b[i].live_in@.to_set()
            && a[i].live_out@.to_set() == b[i].live_out@.to_set(),
{
    let ain = Seq::new(ops.len(), |i: int| a[i].live_in@.to_set());
    let aout = Seq::new(ops.len(), |i: int| a[i].live_out@.to_set());
    let bin = Seq::new(ops.len(), |i: int| b[i].live_in@.to_set());
    let bout = Seq::new(ops.len(), |i: int| b[i].live_out@.to_set());
    assert forall|i: int| 0 <= i < ops.len() implies op_uses(ops[i]@).subset_of(#[trigger] ain[i])
        && (aout[i] - op_defs(ops[i]@)).subset_of(ain[i]) by {
        assert(info_ok(a[i], ops[i]@));
    }
    assert forall|i: int| 0 <= i < ops.len() implies op_uses(ops[i]@).subset_of(#[trigger] bin[i])
        && (bout[i] - op_defs(ops[i]@)).subset_of(bin[i]) by {
        assert(info_ok(b[i], ops[i]@));
    }
    assert forall|i: int, s: int| 0 <= i < ops.len() && #[trigger] succs(ops_view(ops), i).contains(s) implies ain[s].subset_of(aout[i]) by {
        lemma_succs_bound(ops_view(ops), i, s);
    }
    assert forall|i: int, s: int| 0 <= i < ops.len() && #[trigger] succs(ops_view(ops), i).contains(s) implies bin[s].subset_of(bout[i]) by {
        lemma_succs_bound(ops_view(ops), i, s);
    }
    assert(solution(ops, ain, aout));
    assert(solution(ops, bin, bout));
    assert forall|i: int| 0 <= i < ops.len() implies (#[trigger] a[i]).live_in@.to_set() == b[i].live_in@.to_set()
        && a[i].live_out@.to_set() == b[i].live_out@.to_set() by {
        assert(a[i].live_in@.to_set().subset_of(bin[i]));
        assert(b[i].live_in@.to_set().subset_of(ain[i]));
        assert(a[i].live_out@.to_set().subset_of(bout[i]));
        assert(b[i].live_out@.to_set().subset_of(aout[i]));
        assert(a[i].live_in@.to_set() =~= b[i].live_in@.to_set());
        assert(a[i].live_out@.to_set() =~= b[i].live_out@.to_set());
    }
}

} // verus!
