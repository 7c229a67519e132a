use vstd::prelude::*;
use crate::util::Name;
use crate::ir::{Var, RValueElem, UnOpNode, Op, OpV, ops_view};
use crate::liveness::{Opinfo, analyze, info_ok, live_exact, vars_of, op_touches, op_defs, op_uses};
use crate::regmap::{RegisterColor, ColorMap, keys_within};
use crate::target::{Reg, NUM_PARAM_REGS};

verus! {

/// The interference graph, as a list of directed edges; each conflict is
/// listed in both directions.
pub struct ConflictGraph {
    pub edges: Vec<(Var, Var)>,
}

/// Two distinct variables conflict when both are live on entry to some
/// operation, or both live on exit from it.
pub open spec fn conflict_edges(infos: Seq<Opinfo>) -> Set<(Var, Var)> {
    Set::new(|e: (Var, Var)| e.0 != e.1 && exists|i: int| 0 <= i < infos.len() && (
        (infos[i].live_in@.contains(e.0) && infos[i].live_in@.contains(e.1))
        || (infos[i].live_out@.contains(e.0) && infos[i].live_out@.contains(e.1))))
}

/// The entry for `k` that was made last, as a count (0 when there is none).
pub open spec fn count_lookup(s: Seq<(Var, u32)>, k: Var) -> nat
    decreases s.len(),
{
    if s.len() == 0 {
        0
    } else if s.last().0 == k {
        s.last().1 as nat
    } else {
        count_lookup(s.drop_last(), k)
    }
}

/// How many times each variable is read or written.
pub struct UseCounts {
    pub entries: Vec<(Var, u32)>,
}

impl UseCounts {
    pub open spec fn count(&self, v: Var) -> nat {
        count_lookup(self.entries@, v)
    }

    pub fn get(&self, k: &Var) -> (r: u32)
        ensures
            r == self.count(*k),
    {
        let mut i: usize = self.entries.len();
        assert(self.entries@.subrange(0, i as int) =~= self.entries@);
        while i > 0
            invariant
                i <= self.entries@.len(),
                count_lookup(self.entries@, *k) == count_lookup(self.entries@.subrange(0, i as int), *k),
            decreases i,
        {
            let e = self.entries[i - 1];
            proof {
                let s = self.entries@.subrange(0, i as int);
                assert(s.drop_last() =~= self.entries@.subrange(0, i - 1));
            }
            if e.0 == *k {
                return e.1;
            }
            i = i - 1;
        }
        0
    }

    fn bump(&mut self, k: Var)
        requires
            old(self).count(k) < u32::MAX,
        ensures
            final(self).count(k) == old(self).count(k) + 1,
            forall|o: Var| o != k ==> final(self).count(o) == old(self).count(o),
            final(self).entries@.len() == old(self).entries@.len() + 1,
            final(self).entries@.drop_last() == old(self).entries@,
            final(self).entries@.last().0 == k,
    {
        let c = self.get(&k);
        self.entries.push((k, c + 1));
        assert(final(self).entries@.drop_last() == old(self).entries@);
    }
}

/// The variables that the analysis records as read or written somewhere.
pub open spec fn info_vars(infos: Seq<Opinfo>) -> Set<Var> {
    Set::new(|v: Var| exists|i: int| 0 <= i < infos.len() && #[trigger] touches(infos[i], v))
}

pub open spec fn touches(info: Opinfo, v: Var) -> bool {
    info.used@.contains(v) || info.def@.contains(v)
}

/// Occurrences of `v` among the read and written sets of `infos`.
pub open spec fn uses_count(infos: Seq<Opinfo>, v: Var) -> nat
    decreases infos.len(),
{
    if infos.len() == 0 {
        0
    } else {
        uses_count(infos.drop_last(), v)
            + (if infos.last().used@.contains(v) { 1nat } else { 0nat })
            + (if infos.last().def@.contains(v) { 1nat } else { 0nat })
    }
}

/// Pins the first `k` of a call's arguments to the argument registers.
pub open spec fn pin_args(m: Map<Var, RegisterColor>, args: Seq<Var>, k: int) -> Map<Var, RegisterColor>
    decreases k,
{
    if k <= 0 {
        m
    } else {
        let m2 = pin_args(m, args, k - 1);
        if k - 1 < NUM_PARAM_REGS {
            m2.insert(args[k - 1], RegisterColor::RegColor(Reg { index: (k - 1) as u8 }))
        } else {
            m2
        }
    }
}

/// Pins the first `k` of a function's parameters: to the argument registers,
/// and beyond them to the stack slots below the frame where the caller left them.
pub open spec fn pin_params(m: Map<Var, RegisterColor>, args: Seq<Var>, k: int) -> Map<Var, RegisterColor>
    decreases k,
{
    if k <= 0 {
        m
    } else {
        let m2 = pin_params(m, args, k - 1);
        let i = k - 1;
        if i < NUM_PARAM_REGS {
            m2.insert(args[i], RegisterColor::RegColor(Reg { index: i as u8 }))
        } else {
            m2.insert(args[i], RegisterColor::StackColor((i - 1 - args.len()) as i32))
        }
    }
}

/// The colors that the calling convention fixes, from the first `n` operations.
pub open spec fn must_prefix(ops: Seq<OpV>, n: int) -> Map<Var, RegisterColor>
    decreases n,
{
    if n <= 0 {
        Map::empty()
    } else {
        let m = must_prefix(ops, n - 1);
        match ops[n - 1] {
            OpV::Call(v, _, args) => pin_args(m, args, args.len() as int).insert(v, RegisterColor::RegColor(Reg { index: 0 })),
            OpV::Func(_, args, _) => pin_params(m, args, args.len() as int),
            _ => m,
        }
    }
}

/// No operation takes the address of a constant.
pub open spec fn no_addr_of_constant(ops: Seq<OpV>) -> bool {
    forall|i: int| 0 <= i < ops.len() ==> !(#[trigger] ops[i] matches OpV::UnOp(_, UnOpNode::AddrOf, RValueElem::Constant(_)))
}

/// No function head has more parameters than a stack slot index can count.
pub open spec fn params_fit(ops: Seq<OpV>) -> bool {
    forall|i: int| 0 <= i < ops.len() ==> (#[trigger] ops[i] is Func ==> ops[i]->Func_1.len() < 0x7fff_ffff)
}

/// The names whose address some operation takes.
pub open spec fn referenced_names(ops: Seq<OpV>) -> Set<Name> {
    Set::new(|n: Name| exists|i: int| 0 <= i < ops.len() && #[trigger] addr_name(ops[i]) == Some(n))
}

/// The name whose address the operation takes, if it takes one.
pub open spec fn addr_name(o: OpV) -> Option<Name> {
    match o {
        OpV::UnOp(_, UnOpNode::AddrOf, RValueElem::Variable(v)) => Some(v.name),
        _ => None,
    }
}

/// Conflicts, use counts, fixed colors and address-taken names, given the
/// liveness of each operation.
pub fn conflicts_with(ops: &Vec<Op>, opinfo: &Vec<Opinfo>) -> (r: (ConflictGraph, UseCounts, ColorMap, Vec<Name>))
    requires
        opinfo@.len() == ops@.len(),
        ops@.len() < 0x7fff_ffff,
        params_fit(ops_view(ops@)),
        no_addr_of_constant(ops_view(ops@)),
        forall|i: int| 0 <= i < ops@.len() ==> #[trigger] info_ok(opinfo@[i], ops@[i]@),
    ensures
        r.0.edges@.to_set() == conflict_edges(opinfo@),
        forall|v: Var| #[trigger] r.1.count(v) == uses_count(opinfo@, v),
        r.2@ == must_prefix(ops_view(ops@), ops@.len() as int),
        r.3@.to_set() == referenced_names(ops_view(ops@)),
        r.0.edges@.len() <= pair_bound(opinfo@),
        r.1.entries@.len() == use_total(opinfo@),
        r.2.entries@.len() == must_total(ops_view(ops@), ops@.len() as int),
        keys_within(r.2.entries@, vars_of(ops@)),
        forall|q: int| 0 <= q < r.1.entries@.len() ==> info_vars(opinfo@).contains(#[trigger] r.1.entries@[q].0),
{
    assert forall|i: int| 0 <= i < opinfo@.len() implies (#[trigger] opinfo@[i]).used@.no_duplicates() && opinfo@[i].def@.no_duplicates() by {
        assert(info_ok(opinfo@[i], ops@[i]@));
    }
    let (must_colors, referenced_vars) = pins_and_refs(ops);
    let edges = edges_of(opinfo);
    let counts = counts_of(opinfo);
    (edges, counts, must_colors, referenced_vars)
}

proof fn lemma_push_contains<T>(t: Seq<T>, x: T, v: T)
    ensures
        t.push(x).contains(v) <==> t.contains(v) || x == v,
{
    if t.push(x).contains(v) {
        let k = choose|k: int| 0 <= k < t.len() + 1 && #[trigger] t.push(x)[k] == v;
        if k < t.len() {
            assert(t[k] == v);
        }
    }
    if t.contains(v) {
        let k = choose|k: int| 0 <= k < t.len() && #[trigger] t[k] == v;
        assert(t.push(x)[k] == v);
    }
    if x == v {
        assert(t.push(x)[t.len() as int] == v);
    }
}

proof fn lemma_sub_push<T>(s: Seq<T>, j: int, v: T)
    requires
        0 <= j < s.len(),
    ensures
        s.subrange(0, j + 1).contains(v) <==> s.subrange(0, j).contains(v) || s[j] == v,
{
    let t = s.subrange(0, j);
    assert(s.subrange(0, j + 1) =~= t.push(s[j]));
    if t.push(s[j]).contains(v) {
        let k = choose|k: int| 0 <= k < t.len() + 1 && #[trigger] t.push(s[j])[k] == v;
        if k < t.len() {
            assert(t[k] == v);
        }
    }
    if t.contains(v) {
        let k = choose|k: int| 0 <= k < t.len() && #[trigger] t[k] == v;
        assert(t.push(s[j])[k] == v);
    }
    if s[j] == v {
        assert(t.push(s[j])[t.len() as int] == v);
    }
}

/// Adds every ordered pair of distinct elements of `s` to `edges`.
fn add_pairs(edges: &mut Vec<(Var, Var)>, s: &Vec<Var>)
    ensures
        forall|e: (Var, Var)| #[trigger] final(edges)@.contains(e) <==> old(edges)@.contains(e)
            || (e.0 != e.1 && s@.contains(e.0) && s@.contains(e.1)),
        final(edges)@.len() <= old(edges)@.len() + s@.len() * s@.len(),
{
    let ghost start = edges@;
    let mut i: usize = 0;
    while i < s.len()
        invariant
            i <= s@.len(),
            forall|e: (Var, Var)| #[trigger] edges@.contains(e) <==> start.contains(e)
                || (e.0 != e.1 && s@.subrange(0, i as int).contains(e.0) && s@.contains(e.1)),
            edges@.len() <= start.len() + i * s@.len(),
        decreases s@.len() - i,
    {
        let a = s[i];
        let ghost mid = edges@;
        let mut j: usize = 0;
        while j < s.len()
            invariant
                i < s@.len(),
                a == s@[i as int],
                j <= s@.len(),
                forall|e: (Var, Var)| #[trigger] edges@.contains(e) <==> mid.contains(e)
                    || (e.0 == a && e.0 != e.1 && s@.subrange(0, j as int).contains(e.1)),
                edges@.len() <= mid.len() + j,
            decreases s@.len() - j,
        {
            let b = s[j];
            let ghost before = edges@;
            if a != b {
                edges.push((a, b));
            }
            proof {
                assert forall|e: (Var, Var)| #[trigger] edges@.contains(e) <==> mid.contains(e)
                    || (e.0 == a && e.0 != e.1 && s@.subrange(0, j + 1).contains(e.1)) by {
                    lemma_sub_push(s@, j as int, e.1);
                    if a != b {
                        assert(edges@ == before.push((a, b)));
                        lemma_push_contains(before, (a, b), e);
                    }
                }
            }
            j = j + 1;
        }
        proof {
            assert(s@.subrange(0, s@.len() as int) =~= s@);
            assert(i * s@.len() + s@.len() == (i + 1) * s@.len()) by (nonlinear_arith);
            assert forall|e: (Var, Var)| #[trigger] edges@.contains(e) <==> start.contains(e)
                || (e.0 != e.1 && s@.subrange(0, i + 1).contains(e.0) && s@.contains(e.1)) by {
                lemma_sub_push(s@, i as int, e.0);
            }
        }
        i = i + 1;
    }
    assert(s@.subrange(0, s@.len() as int) =~= s@);
}

/// An upper bound on the number of ordered pairs that the live sets give.
pub open spec fn pair_bound(infos: Seq<Opinfo>) -> int
    decreases infos.len(),
{
    if infos.len() == 0 {
        0
    } else {
        pair_bound(infos.drop_last()) + infos.last().live_in@.len() * infos.last().live_in@.len()
            + infos.last().live_out@.len() * infos.last().live_out@.len()
    }
}

/// The number of reads and writes that the analysis records.
pub open spec fn use_total(infos: Seq<Opinfo>) -> int
    decreases infos.len(),
{
    if infos.len() == 0 {
        0
    } else {
        use_total(infos.drop_last()) + infos.last().used@.len() + infos.last().def@.len()
    }
}

/// The number of fixed colors that the first `n` operations record.
pub open spec fn must_total(ops: Seq<OpV>, n: int) -> int
    decreases n,
{
    if n <= 0 {
        0
    } else {
        must_total(ops, n - 1) + match ops[n - 1] {
            OpV::Call(_, _, args) => (if args.len() < NUM_PARAM_REGS { args.len() as int } else { NUM_PARAM_REGS as int }) + 1,
            OpV::Func(_, args, _) => args.len() as int,
            _ => 0,
        }
    }
}

fn edges_of(opinfo: &Vec<Opinfo>) -> (r: ConflictGraph)
    ensures
        r.edges@.to_set() == conflict_edges(opinfo@),
        r.edges@.len() <= pair_bound(opinfo@),
{
    let mut edges: Vec<(Var, Var)> = Vec::new();
    let mut i: usize = 0;
    while i < opinfo.len()
        invariant
            i <= opinfo@.len(),
            forall|e: (Var, Var)| #[trigger] edges@.contains(e) <==> conflict_edges(opinfo@.subrange(0, i as int)).contains(e),
            edges@.len() <= pair_bound(opinfo@.subrange(0, i as int)),
        decreases opinfo@.len() - i,
    {
        add_pairs(&mut edges, &opinfo[i].live_in);
        add_pairs(&mut edges, &opinfo[i].live_out);
        proof {
            assert(opinfo@.subrange(0, i + 1).drop_last() =~= opinfo@.subrange(0, i as int));
            let p = opinfo@.subrange(0, i as int);
            let q = opinfo@.subrange(0, i + 1);
            assert forall|e: (Var, Var)| #[trigger] edges@.contains(e) <==> conflict_edges(q).contains(e) by {
                if conflict_edges(q).contains(e) {
                    let k = choose|k: int| 0 <= k < q.len() && (
                        (q[k].live_in@.contains(e.0) && q[k].live_in@.contains(e.1))
                        || (q[k].live_out@.contains(e.0) && q[k].live_out@.contains(e.1)));
                    if k < i {
                        assert(p[k] == q[k]);
                        assert(conflict_edges(p).contains(e));
                    }
                }
                if conflict_edges(p).contains(e) {
                    let k = choose|k: int| 0 <= k < p.len() && (
                        (p[k].live_in@.contains(e.0) && p[k].live_in@.contains(e.1))
                        || (p[k].live_out@.contains(e.0) && p[k].live_out@.contains(e.1)));
                    assert(p[k] == q[k]);
                }
                if e.0 != e.1 && ((opinfo@[i as int].live_in@.contains(e.0) && opinfo@[i as int].live_in@.contains(e.1))
                    || (opinfo@[i as int].live_out@.contains(e.0) && opinfo@[i as int].live_out@.contains(e.1))) {
                    assert(q[i as int] == opinfo@[i as int]);
                }
            }
        }
        i = i + 1;
    }
    proof {
        assert(opinfo@.subrange(0, opinfo@.len() as int) =~= opinfo@);
        assert(edges@.to_set() =~= conflict_edges(opinfo@));
        assert(opinfo@.subrange(0, 0) =~= Seq::<Opinfo>::empty());
    }
    ConflictGraph { edges }
}

proof fn lemma_prefix_contains(s: Seq<Var>, j: int, v: Var)
    requires
        0 <= j < s.len(),
        s.no_duplicates(),
    ensures
        s.subrange(0, j + 1).contains(v) <==> s.subrange(0, j).contains(v) || s[j] == v,
        s.subrange(0, j).contains(s[j]) == false,
{
    lemma_sub_push(s, j, v);
    if s.subrange(0, j).contains(s[j]) {
        let k = choose|k: int| 0 <= k < j && #[trigger] s.subrange(0, j)[k] == s[j];
        assert(s[k] == s[j]);
    }
}

proof fn lemma_uses_count_bound(infos: Seq<Opinfo>, v: Var)
    ensures
        uses_count(infos, v) <= 2 * infos.len(),
    decreases infos.len(),
{
    if infos.len() > 0 {
        lemma_uses_count_bound(infos.drop_last(), v);
    }
}

fn counts_of(opinfo: &Vec<Opinfo>) -> (r: UseCounts)
    requires
        opinfo@.len() < 0x7fff_ffff,
        forall|i: int| 0 <= i < opinfo@.len() ==> (#[trigger] opinfo@[i]).used@.no_duplicates() && opinfo@[i].def@.no_duplicates(),
    ensures
        forall|v: Var| #[trigger] r.count(v) == uses_count(opinfo@, v),
        r.entries@.len() == use_total(opinfo@),
        forall|q: int| 0 <= q < r.entries@.len() ==> info_vars(opinfo@).contains(#[trigger] r.entries@[q].0),
{
    let mut counts = UseCounts { entries: Vec::new() };
    let mut i: usize = 0;
    assert(opinfo@.subrange(0, 0) =~= Seq::<Opinfo>::empty());
    while i < opinfo.len()
        invariant
            i <= opinfo@.len() < 0x7fff_ffff,
            forall|k: int| 0 <= k < opinfo@.len() ==> (#[trigger] opinfo@[k]).used@.no_duplicates() && opinfo@[k].def@.no_duplicates(),
            forall|v: Var| #[trigger] counts.count(v) == uses_count(opinfo@.subrange(0, i as int), v),
            counts.entries@.len() == use_total(opinfo@.subrange(0, i as int)),
            forall|q: int| 0 <= q < counts.entries@.len() ==> info_vars(opinfo@).contains(#[trigger] counts.entries@[q].0),
        decreases opinfo@.len() - i,
    {
        let ghost p = opinfo@.subrange(0, i as int);
        let used = &opinfo[i].used;
        let def = &opinfo[i].def;
        assert(opinfo@[i as int].used@.no_duplicates() && opinfo@[i as int].def@.no_duplicates());
        let mut j: usize = 0;
        while j < used.len()
            invariant
                i < opinfo@.len() < 0x7fff_ffff,
                p == opinfo@.subrange(0, i as int),
                used@.no_duplicates(),
                j <= used@.len(),
                forall|v: Var| #[trigger] counts.count(v) == uses_count(p, v) + (if used@.subrange(0, j as int).contains(v) { 1nat } else { 0nat }),
                counts.entries@.len() == use_total(p) + j,
                used == opinfo@[i as int].used,
                forall|q: int| 0 <= q < counts.entries@.len() ==> info_vars(opinfo@).contains(#[trigger] counts.entries@[q].0),
            decreases used@.len() - j,
        {
            let x = used[j];
            proof {
                lemma_prefix_contains(used@, j as int, x);
                lemma_uses_count_bound(p, x);
            }
            let ghost e0 = counts.entries@;
            counts.bump(x);
            proof {
                assert(opinfo@[i as int].used@.contains(x));
                assert(touches(opinfo@[i as int], x));
                assert(info_vars(opinfo@).contains(x));
                assert forall|q: int| 0 <= q < counts.entries@.len() implies info_vars(opinfo@).contains(#[trigger] counts.entries@[q].0) by {
                    if q < e0.len() {
                        assert(counts.entries@[q] == e0[q]);
                    }
                }
                assert forall|v: Var| #[trigger] counts.count(v) == uses_count(p, v) + (if used@.subrange(0, j + 1).contains(v) { 1nat } else { 0nat }) by {
                    lemma_prefix_contains(used@, j as int, v);
                }
            }
            j = j + 1;
        }
        assert(used@.subrange(0, used@.len() as int) =~= used@);
        let mut j: usize = 0;
        while j < def.len()
            invariant
                i < opinfo@.len() < 0x7fff_ffff,
                p == opinfo@.subrange(0, i as int),
                def@.no_duplicates(),
                j <= def@.len(),
                forall|v: Var| #[trigger] counts.count(v) == uses_count(p, v) + (if used@.contains(v) { 1nat } else { 0nat })
                    + (if def@.subrange(0, j as int).contains(v) { 1nat } else { 0nat }),
                counts.entries@.len() == use_total(p) + used@.len() + j,
                def == opinfo@[i as int].def,
                forall|q: int| 0 <= q < counts.entries@.len() ==> info_vars(opinfo@).contains(#[trigger] counts.entries@[q].0),
            decreases def@.len() - j,
        {
            let x = def[j];
            proof {
                lemma_prefix_contains(def@, j as int, x);
                lemma_uses_count_bound(p, x);
            }
            let ghost e0 = counts.entries@;
            counts.bump(x);
            proof {
                assert(opinfo@[i as int].def@.contains(x));
                assert(touches(opinfo@[i as int], x));
                assert(info_vars(opinfo@).contains(x));
                assert forall|q: int| 0 <= q < counts.entries@.len() implies info_vars(opinfo@).contains(#[trigger] counts.entries@[q].0) by {
                    if q < e0.len() {
                        assert(counts.entries@[q] == e0[q]);
                    }
                }
                assert forall|v: Var| #[trigger] counts.count(v) == uses_count(p, v) + (if used@.contains(v) { 1nat } else { 0nat })
                    + (if def@.subrange(0, j + 1).contains(v) { 1nat } else { 0nat }) by {
                    lemma_prefix_contains(def@, j as int, v);
                }
            }
            j = j + 1;
        }
        proof {
            assert(def@.subrange(0, def@.len() as int) =~= def@);
            let q = opinfo@.subrange(0, i + 1);
            assert(q.drop_last() =~= p);
            assert(q.last() == opinfo@[i as int]);
        }
        i = i + 1;
    }
    assert(opinfo@.subrange(0, opinfo@.len() as int) =~= opinfo@);
    counts
}


fn pins_and_refs(ops: &Vec<Op>) -> (r: (ColorMap, Vec<Name>))
    requires
        params_fit(ops_view(ops@)),
    ensures
        r.0@ == must_prefix(ops_view(ops@), ops@.len() as int),
        r.0.entries@.len() == must_total(ops_view(ops@), ops@.len() as int),
        r.1@.to_set() == referenced_names(ops_view(ops@)),
        keys_within(r.0.entries@, vars_of(ops@)),
{
    let ghost ov = ops_view(ops@);
    let mut must = ColorMap::new();
    let mut refs: Vec<Name> = Vec::new();
    let mut i: usize = 0;
    while i < ops.len()
        invariant
            i <= ops@.len(),
            ov == ops_view(ops@),
            params_fit(ov),
            must@ == must_prefix(ov, i as int),
            must.entries@.len() == must_total(ov, i as int),
            keys_within(must.entries@, vars_of(ops@)),
            forall|n: Name| #[trigger] refs@.contains(n) <==> referenced_names(ov.subrange(0, i as int)).contains(n),
        decreases ops@.len() - i,
    {
        assert(ov[i as int] == ops@[i as int]@);
        let ghost refs0 = refs@;
        match &ops[i] {
            Op::UnOp(_, UnOpNode::AddrOf, RValueElem::Variable(v)) => {
                refs.push(v.name);
            },
            Op::Call(v, _, args) => {
                let mut k: usize = 0;
                let ghost m0 = must@;
                let ghost len0 = must.entries@.len();
                while k < args.len()
                    invariant
                        k <= args@.len(),
                        must@ == pin_args(m0, args@, k as int),
                        must.entries@.len() == len0 + if k < NUM_PARAM_REGS { k as int } else { NUM_PARAM_REGS as int },
                        keys_within(must.entries@, vars_of(ops@)),
                        i < ops@.len(),
                        ops@[i as int]@ == OpV::Call(*v, ops@[i as int]@->Call_1, args@),
                    decreases args@.len() - k,
                {
                    if k < NUM_PARAM_REGS {
                        let ghost e0 = must.entries@;
                        must.insert(args[k], RegisterColor::RegColor(Reg { index: k as u8 }));
                        proof {
                            assert(args@.contains(args@[k as int]));
                            assert(op_touches(ops@[i as int]@, args@[k as int]));
                            assert forall|q: int| 0 <= q < must.entries@.len() implies vars_of(ops@).contains(#[trigger] must.entries@[q].0) by {
                                if q < e0.len() {
                                    assert(must.entries@[q] == e0[q]);
                                }
                            }
                        }
                    }
                    k = k + 1;
                }
                let ghost e0 = must.entries@;
                must.insert(*v, RegisterColor::RegColor(Reg { index: 0 }));
                proof {
                    assert(op_defs(ops@[i as int]@).contains(*v));
                    assert(op_touches(ops@[i as int]@, *v));
                    assert forall|q: int| 0 <= q < must.entries@.len() implies vars_of(ops@).contains(#[trigger] must.entries@[q].0) by {
                        if q < e0.len() {
                            assert(must.entries@[q] == e0[q]);
                        }
                    }
                }
            },
            Op::Func(_, args, _) => {
                let mut k: usize = 0;
                let ghost m0 = must@;
                let ghost len0 = must.entries@.len();
                assert(args@.len() < 0x7fff_ffff);
                while k < args.len()
                    invariant
                        k <= args@.len() < 0x7fff_ffff,
                        must@ == pin_params(m0, args@, k as int),
                        must.entries@.len() == len0 + k,
                        keys_within(must.entries@, vars_of(ops@)),
                        i < ops@.len(),
                        ops@[i as int]@ == OpV::Func(ops@[i as int]@->Func_0, args@, ops@[i as int]@->Func_2),
                    decreases args@.len() - k,
                {
                    let ghost e0 = must.entries@;
                    proof {
                        assert(args@.contains(args@[k as int]));
                        assert(op_touches(ops@[i as int]@, args@[k as int]));
                    }
                    if k < NUM_PARAM_REGS {
                        must.insert(args[k], RegisterColor::RegColor(Reg { index: k as u8 }));
                    } else {
                        must.insert(args[k], RegisterColor::StackColor((k as i128 - 1 - args.len() as i128) as i32));
                    }
                    proof {
                        assert forall|q: int| 0 <= q < must.entries@.len() implies vars_of(ops@).contains(#[trigger] must.entries@[q].0) by {
                            if q < e0.len() {
                                assert(must.entries@[q] == e0[q]);
                            }
                        }
                    }
                    k = k + 1;
                }
            },
            _ => {},
        }
        proof {
            let p = ov.subrange(0, i as int);
            let q = ov.subrange(0, i + 1);
            assert forall|n: Name| #[trigger] refs@.contains(n) <==> referenced_names(q).contains(n) by {
                assert(q[i as int] == ov[i as int]);
                if referenced_names(q).contains(n) {
                    let k = choose|k: int| 0 <= k < q.len() && #[trigger] addr_name(q[k]) == Some(n);
                    if k < i {
                        assert(p[k] == q[k]);
                        assert(addr_name(p[k]) == Some(n));
                        assert(referenced_names(p).contains(n));
                        assert(refs0.contains(n));
                        let j = choose|j: int| 0 <= j < refs0.len() && refs0[j] == n;
                        assert(refs@[j] == n);
                    } else {
                        assert(refs@[refs@.len() - 1] == n);
                    }
                }
                if refs@.contains(n) {
                    let j = choose|j: int| 0 <= j < refs@.len() && refs@[j] == n;
                    if j < refs0.len() {
                        assert(refs0[j] == n);
                        assert(refs0.contains(n));
                        assert(referenced_names(p).contains(n));
                        let k = choose|k: int| 0 <= k < p.len() && #[trigger] addr_name(p[k]) == Some(n);
                        assert(q[k] == p[k]);
                    } else {
                        assert(addr_name(q[i as int]) == Some(n));
                    }
                }
            }
        }
        i = i + 1;
    }
    proof {
        assert(ov.subrange(0, ov.len() as int) =~= ov);
        assert(refs@.to_set() =~= referenced_names(ov));
    }
    (must, refs)
}

pub struct ConflictAnalyzer;

impl ConflictAnalyzer {
    /// Analyzes a function body in SSA form: its interference graph, how often
    /// each variable is used, the colors the calling convention fixes, and the
    /// names whose address is taken (every generation of those lives in memory).
    pub fn conflicts(ops: &Vec<Op>) -> (r: (ConflictGraph, UseCounts, ColorMap, Vec<Name>))
        requires
            ops@.len() < 0x7fff_ffff,
            params_fit(ops_view(ops@)),
            no_addr_of_constant(ops_view(ops@)),
        ensures
            exists|infos: Seq<Opinfo>| live_exact(ops@, infos)
                && r.0.edges@.to_set() == conflict_edges(infos)
                && (forall|v: Var| #[trigger] r.1.count(v) == uses_count(infos, v))
                && r.0.edges@.len() <= pair_bound(infos)
                && r.1.entries@.len() == use_total(infos)
                && (forall|q: int| 0 <= q < r.1.entries@.len() ==> info_vars(infos).contains(#[trigger] r.1.entries@[q].0)),
            r.2@ == must_prefix(ops_view(ops@), ops@.len() as int),
            r.3@.to_set() == referenced_names(ops_view(ops@)),
            r.2.entries@.len() == must_total(ops_view(ops@), ops@.len() as int),
            keys_within(r.2.entries@, vars_of(ops@)),
    {
        let opinfo = analyze(ops);
        conflicts_with(ops, &opinfo)
    }
}


/// Two variables that one operation reads conflict.
pub proof fn lemma_reads_interfere(ops: Seq<Op>, infos: Seq<Opinfo>, i: int, u: Var, w: Var)
    requires
        live_exact(ops, infos),
        0 <= i < ops.len(),
        op_uses(ops[i]@).contains(u),
        op_uses(ops[i]@).contains(w),
        u != w,
    ensures
        conflict_edges(infos).contains((u, w)),
{
    assert(info_ok(infos[i], ops[i]@));
    assert(infos[i].live_in@.to_set().contains(u));
    assert(infos[i].live_in@.to_set().contains(w));
}

/// A variable that the next operation reads, and that this one does not
/// write, conflicts with every other variable this operation reads.
pub proof fn lemma_next_read_interferes(ops: Seq<Op>, infos: Seq<Opinfo>, i: int, u: Var, w: Var)
    requires
        live_exact(ops, infos),
        0 <= i,
        i + 1 < ops.len(),
        !(ops[i]@ is Return || ops[i]@ is Goto),
        op_uses(ops[i + 1]@).contains(u),
        !op_defs(ops[i]@).contains(u),
        op_uses(ops[i]@).contains(w),
        u != w,
    ensures
        conflict_edges(infos).contains((u, w)),
        conflict_edges(infos).contains((w, u)),
{
    let ov = ops_view(ops);
    assert(ov[i] == ops[i]@);
    assert(crate::liveness::succs(ov, i).contains(i + 1));
    assert(info_ok(infos[i + 1], ops[i + 1]@));
    assert(info_ok(infos[i], ops[i]@));
    assert(infos[i + 1].live_in@.to_set().contains(u));
    assert(infos[i].live_out@.to_set().contains(u));
    assert(infos[i].live_in@.to_set().contains(u));
    assert(infos[i].live_in@.to_set().contains(w));
}

} // verus!
