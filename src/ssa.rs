use vstd::prelude::*;
use crate::util::Name;
use crate::ir::{Var, RValueElem, BinOpNode, UnOpNode, Op, OpV, ops_view};
use crate::liveness::op_defs;

verus! {

/// No variable is defined by two different operations.
pub open spec fn defs_unique(ops: Seq<OpV>) -> bool {
    forall|i: int, j: int, v: Var| 0 <= i < ops.len() && 0 <= j < ops.len() && i != j
        && #[trigger] op_defs(ops[i]).contains(v) ==> !#[trigger] op_defs(ops[j]).contains(v)
}

/// The variable list of a label or jump.
pub open spec fn payload(o: OpV) -> Option<(usize, Seq<Var>)> {
    match o {
        OpV::Label(l, vs) => Some((l, vs)),
        OpV::Goto(l, vs) => Some((l, vs)),
        OpV::CondGoto(_, _, l, vs) => Some((l, vs)),
        _ => None,
    }
}

pub open spec fn names_of(vs: Seq<Var>) -> Set<Name> {
    vs.map_values(|v: Var| v.name).to_set()
}

pub open spec fn agrees(label: OpV, other: OpV) -> bool {
    match (label, payload(other)) {
        (OpV::Label(id, lv), Some((l, vs))) => l == id ==> names_of(lv) == names_of(vs),
        _ => true,
    }
}

/// Every jump names the same variables as the label it goes to.
pub open spec fn labels_agree(ops: Seq<OpV>) -> bool {
    forall|i: int, j: int| 0 <= i < ops.len() && 0 <= j < ops.len() ==> #[trigger] agrees(ops[i], ops[j])
}

/// Operations the SSA form cannot hold: short-circuit operators, `*`, and `&`
/// of anything but a variable.
pub open spec fn malformed(o: OpV) -> bool {
    match o {
        OpV::BinOp(_, op, _, _, _) => op is AndAlsoOp || op is OrElseOp,
        OpV::UnOp(_, op, a) => op is Deref || (op is AddrOf && a is Constant),
        _ => false,
    }
}

pub open spec fn rv_shape(a: RValueElem, b: RValueElem) -> bool {
    match (a, b) {
        (RValueElem::Variable(x), RValueElem::Variable(y)) => x.name == y.name,
        (RValueElem::Constant(c), RValueElem::Constant(d)) => c == d,
        _ => false,
    }
}

pub open spec fn same_names(a: Seq<Var>, b: Seq<Var>) -> bool {
    a.len() == b.len() && forall|k: int| 0 <= k < a.len() ==> (#[trigger] a[k]).name == b[k].name
}

/// `b` is `a` with its variables renamed: the same operation on the same
/// names, constants and labels. The variable lists of labels and jumps are
/// rebuilt by the renaming and are not compared.
pub open spec fn same_shape(a: OpV, b: OpV) -> bool {
    match (a, b) {
        (OpV::Func(n, x, e), OpV::Func(n2, x2, e2)) => n == n2 && e == e2 && same_names(x, x2),
        (OpV::Return(r), OpV::Return(r2)) => rv_shape(r, r2),
        (OpV::BinOp(d, op, x, y, sg), OpV::BinOp(d2, op2, x2, y2, sg2)) =>
            d.name == d2.name && op == op2 && rv_shape(x, x2) && rv_shape(y, y2) && sg == sg2,
        (OpV::UnOp(d, op, x), OpV::UnOp(d2, op2, x2)) => d.name == d2.name && op == op2 && rv_shape(x, x2),
        (OpV::Load(d, x, w), OpV::Load(d2, x2, w2)) => d.name == d2.name && x.name == x2.name && w == w2,
        (OpV::Store(d, x, w), OpV::Store(d2, x2, w2)) => d.name == d2.name && x.name == x2.name && w == w2,
        (OpV::Alloca(d, n), OpV::Alloca(d2, n2)) => d.name == d2.name && n == n2,
        (OpV::Call(d, t, x), OpV::Call(d2, t2, x2)) => d.name == d2.name && rv_shape(t, t2) && same_names(x, x2),
        (OpV::Label(l, _), OpV::Label(l2, _)) => l == l2,
        (OpV::Goto(l, _), OpV::Goto(l2, _)) => l == l2,
        (OpV::CondGoto(n, c, l, _), OpV::CondGoto(n2, c2, l2, _)) => n == n2 && rv_shape(c, c2) && l == l2,
        (OpV::Nop, OpV::Nop) => true,
        _ => false,
    }
}

/// The variables an operation defines, in order.
pub open spec fn def_seq(o: OpV) -> Seq<Var> {
    match o {
        OpV::Func(_, args, _) => args,
        OpV::Label(_, vs) => vs,
        OpV::BinOp(d, _, _, _, _) => seq![d],
        OpV::UnOp(d, _, _) => seq![d],
        OpV::Load(d, _, _) => seq![d],
        OpV::Alloca(d, _) => seq![d],
        OpV::Call(d, _, _) => seq![d],
        _ => Seq::empty(),
    }
}

/// The last variable of `s` with name `n`.
pub open spec fn find_last(s: Seq<Var>, n: Name) -> Option<Var>
    decreases s.len(),
{
    if s.len() == 0 {
        None
    } else if s.last().name == n {
        Some(s.last())
    } else {
        find_last(s.drop_last(), n)
    }
}

/// The generation of `n` that the last definition among `ops` gave it; 0 when
/// none defines it.
pub open spec fn last_gen(ops: Seq<OpV>, n: Name) -> usize
    decreases ops.len(),
{
    if ops.len() == 0 {
        0
    } else {
        match find_last(def_seq(ops.last()), n) {
            Some(v) => match v.generation {
                Some(g) => g,
                None => 0,
            },
            None => last_gen(ops.drop_last(), n),
        }
    }
}

pub open spec fn rv_vars(r: RValueElem) -> Seq<Var> {
    match r {
        RValueElem::Variable(v) => seq![v],
        RValueElem::Constant(_) => Seq::empty(),
    }
}

/// The variables an operation reads, a jump's list included.
pub open spec fn reads(o: OpV) -> Seq<Var> {
    match o {
        OpV::Return(r) => rv_vars(r),
        OpV::BinOp(_, _, a, b, _) => rv_vars(a) + rv_vars(b),
        OpV::UnOp(_, _, a) => rv_vars(a),
        OpV::Load(_, a, _) => seq![a],
        OpV::Store(a, v, _) => seq![a, v],
        OpV::Call(_, t, args) => rv_vars(t) + args,
        OpV::Goto(_, vs) => vs,
        OpV::CondGoto(_, c, _, vs) => rv_vars(c) + vs,
        _ => Seq::empty(),
    }
}

/// Each variable of `s` has the generation that `cur` gives its name.
pub open spec fn all_current(s: Seq<Var>, cur: Seq<(Name, usize)>) -> bool {
    forall|k: int| 0 <= k < s.len() ==> (#[trigger] s[k]).generation == Some(gen_lookup(cur, s[k].name))
}

/// Every variable `o` reads has the generation of the last definition of its
/// name among the operations before it.
pub open spec fn reads_current(o: OpV, before: Seq<OpV>) -> bool {
    forall|k: int| 0 <= k < reads(o).len() ==> (#[trigger] reads(o)[k]).generation == Some(last_gen(before, reads(o)[k].name))
}

pub open spec fn gen_pairs(r: Seq<Var>) -> Seq<(Name, usize)> {
    r.map_values(|v: Var| (v.name, v.generation->0))
}

proof fn lemma_lookup_append(cur: Seq<(Name, usize)>, r: Seq<Var>, n: Name)
    ensures
        gen_lookup(cur + gen_pairs(r), n) == match find_last(r, n) {
            Some(v) => v.generation->0,
            None => gen_lookup(cur, n),
        },
    decreases r.len(),
{
    if r.len() == 0 {
        assert(cur + gen_pairs(r) =~= cur);
    } else {
        assert((cur + gen_pairs(r)).drop_last() =~= cur + gen_pairs(r.drop_last()));
        lemma_lookup_append(cur, r.drop_last(), n);
    }
}

proof fn lemma_all_current_concat(a: Seq<Var>, b: Seq<Var>, cur: Seq<(Name, usize)>)
    requires
        all_current(a, cur),
        all_current(b, cur),
    ensures
        all_current(a + b, cur),
{
    assert forall|k: int| 0 <= k < (a + b).len() implies (#[trigger] (a + b)[k]).generation == Some(gen_lookup(cur, (a + b)[k].name)) by {
        if k < a.len() {
            assert((a + b)[k] == a[k]);
        } else {
            assert((a + b)[k] == b[k - a.len()]);
        }
    }
}

proof fn lemma_find_last_in(s: Seq<Var>, n: Name)
    ensures
        find_last(s, n) matches Some(v) ==> s.contains(v) && v.name == n,
    decreases s.len(),
{
    if s.len() > 0 {
        lemma_find_last_in(s.drop_last(), n);
        if s.last().name == n {
            assert(s[s.len() - 1] == s.last());
        } else if find_last(s.drop_last(), n) is Some {
            let v = find_last(s.drop_last(), n)->0;
            let k = choose|k: int| 0 <= k < s.drop_last().len() && s.drop_last()[k] == v;
            assert(s[k] == v);
        }
    }
}

proof fn lemma_def_seq_defs(o: OpV, v: Var)
    requires
        def_seq(o).contains(v),
    ensures
        op_defs(o).contains(v),
{
    match o {
        OpV::BinOp(d, _, _, _, _) | OpV::UnOp(d, _, _) | OpV::Load(d, _, _) | OpV::Alloca(d, _) | OpV::Call(d, _, _) => {
            assert(seq![d][0] == d);
        },
        _ => {},
    }
}

/// Every generation in the definitions of `o` is at least `lo` and below `hi`.
pub open spec fn defs_in(o: OpV, lo: int, hi: int) -> bool {
    forall|v: Var| #[trigger] op_defs(o).contains(v) ==> v.generation is Some && lo <= v.generation->0 < hi
}

/// The generation each name currently has; 0 for a name not yet defined.
pub open spec fn gen_lookup(s: Seq<(Name, usize)>, n: Name) -> usize
    decreases s.len(),
{
    if s.len() == 0 {
        0
    } else if s.last().0 == n {
        s.last().1
    } else {
        gen_lookup(s.drop_last(), n)
    }
}

struct Renamer {
    current: Vec<(Name, usize)>,
    next_gen: usize,
}

impl Renamer {
    fn current_gen(&self, n: Name) -> (r: usize)
        ensures
            r == gen_lookup(self.current@, n),
    {
        let mut i: usize = self.current.len();
        assert(self.current@.subrange(0, i as int) =~= self.current@);
        while i > 0
            invariant
                i <= self.current@.len(),
                gen_lookup(self.current@, n) == gen_lookup(self.current@.subrange(0, i as int), n),
            decreases i,
        {
            proof {
                let s = self.current@.subrange(0, i as int);
                assert(s.drop_last() =~= self.current@.subrange(0, i - 1));
            }
            if self.current[i - 1].0 == n {
                return self.current[i - 1].1;
            }
            i = i - 1;
        }
        0
    }

    fn use_var(&self, v: Var) -> (r: Var)
        ensures
            r == (Var { name: v.name, generation: Some(gen_lookup(self.current@, v.name)) }),
    {
        Var { name: v.name, generation: Some(self.current_gen(v.name)) }
    }

    fn use_rv(&self, r: RValueElem) -> (o: RValueElem)
        ensures
            rv_shape(r, o),
            all_current(rv_vars(o), self.current@),
    {
        match r {
            RValueElem::Variable(v) => RValueElem::Variable(self.use_var(v)),
            RValueElem::Constant(_) => r,
        }
    }

    /// A new generation of `n`, which becomes its current one.
    fn define(&mut self, n: Name) -> (r: Var)
        requires
            old(self).next_gen < usize::MAX,
        ensures
            r == (Var { name: n, generation: Some(old(self).next_gen) }),
            final(self).next_gen == old(self).next_gen + 1,
            final(self).current@ == old(self).current@ + gen_pairs(seq![r]),
    {
        let g = self.next_gen;
        self.current.push((n, g));
        self.next_gen = g + 1;
        let r = Var { name: n, generation: Some(g) };
        assert(gen_pairs(seq![r]) =~= seq![(n, g)]);
        assert(final(self).current@ =~= old(self).current@ + gen_pairs(seq![r]));
        r
    }

    fn use_vars(&self, vs: &Vec<Var>) -> (r: Vec<Var>)
        ensures
            same_names(vs@, r@),
            all_current(r@, self.current@),
    {
        let mut r: Vec<Var> = Vec::new();
        let mut i: usize = 0;
        while i < vs.len()
            invariant
                i <= vs@.len(),
                r@.len() == i,
                forall|k: int| 0 <= k < i ==> (#[trigger] vs@[k]).name == r@[k].name,
                all_current(r@, self.current@),
            decreases vs@.len() - i,
        {
            r.push(self.use_var(vs[i]));
            i = i + 1;
        }
        r
    }

    /// The current generation of each of `names`, in order.
    fn edge_payload(&self, names: &Vec<Name>) -> (r: Vec<Var>)
        ensures
            r@.map_values(|v: Var| v.name) == names@,
            all_current(r@, self.current@),
    {
        let mut r: Vec<Var> = Vec::new();
        let mut i: usize = 0;
        while i < names.len()
            invariant
                i <= names@.len(),
                r@.len() == i,
                forall|k: int| 0 <= k < i ==> (#[trigger] r@[k]).name == names@[k],
                all_current(r@, self.current@),
            decreases names@.len() - i,
        {
            r.push(Var { name: names[i], generation: Some(self.current_gen(names[i])) });
            i = i + 1;
        }
        assert(r@.map_values(|v: Var| v.name) =~= names@);
        r
    }

    /// A new generation of each of `names`, in order.
    fn define_all(&mut self, names: &Vec<Name>) -> (r: Vec<Var>)
        requires
            old(self).next_gen + names@.len() < usize::MAX,
        ensures
            r@.map_values(|v: Var| v.name) == names@,
            final(self).next_gen == old(self).next_gen + names@.len(),
            forall|k: int| 0 <= k < r@.len() ==> (#[trigger] r@[k]).generation is Some
                && r@[k].generation->0 == old(self).next_gen + k,
            final(self).current@ == old(self).current@ + gen_pairs(r@),
    {
        let mut r: Vec<Var> = Vec::new();
        let mut i: usize = 0;
        while i < names.len()
            invariant
                i <= names@.len(),
                old(self).next_gen + names@.len() < usize::MAX,
                self.next_gen == old(self).next_gen + i,
                r@.len() == i,
                forall|k: int| 0 <= k < i ==> (#[trigger] r@[k]).name == names@[k],
                forall|k: int| 0 <= k < r@.len() ==> (#[trigger] r@[k]).generation is Some
                    && r@[k].generation->0 == old(self).next_gen + k,
                self.current@ == old(self).current@ + gen_pairs(r@),
            decreases names@.len() - i,
        {
            let ghost before = r@;
            let v = self.define(names[i]);
            r.push(v);
            i = i + 1;
            assert(gen_pairs(r@) =~= gen_pairs(before) + gen_pairs(seq![v]));
            assert(self.current@ =~= old(self).current@ + gen_pairs(r@));
        }
        assert(r@.map_values(|v: Var| v.name) =~= names@);
        r
    }
}

fn names_from(vs: &Vec<Var>) -> (r: Vec<Name>)
    ensures
        r@ == vs@.map_values(|v: Var| v.name),
{
    let mut r: Vec<Name> = Vec::new();
    let mut i: usize = 0;
    while i < vs.len()
        invariant
            i <= vs@.len(),
            r@.len() == i,
            forall|k: int| 0 <= k < i ==> r@[k] == (#[trigger] vs@[k]).name,
        decreases vs@.len() - i,
    {
        r.push(vs[i].name);
        i = i + 1;
    }
    assert(r@ =~= vs@.map_values(|v: Var| v.name));
    r
}

/// Fresh generations `lo + k` for the k-th element make all of them lie in `[lo, lo + len)`.
proof fn lemma_fresh_defs(vs: Seq<Var>, lo: int)
    requires
        forall|k: int| 0 <= k < vs.len() ==> (#[trigger] vs[k]).generation is Some && vs[k].generation->0 == lo + k,
    ensures
        forall|v: Var| #[trigger] vs.to_set().contains(v) ==> v.generation is Some && lo <= v.generation->0 < lo + vs.len(),
{
    assert forall|v: Var| #[trigger] vs.to_set().contains(v) implies v.generation is Some && lo <= v.generation->0 < lo + vs.len() by {
        let k = choose|k: int| 0 <= k < vs.len() && vs[k] == v;
        assert(vs[k].generation->0 == lo + k);
    }
}

proof fn lemma_single_def(v: Var, lo: int)
    requires
        v.generation is Some,
        v.generation->0 == lo,
    ensures
        forall|w: Var| #[trigger] set![v].contains(w) ==> w.generation is Some && lo <= w.generation->0 < lo + 1,
{
}

/// Why a body could not be put in SSA form.
#[derive(PartialEq, Eq, Clone, Copy, Debug, Structural)]
pub enum SsaError {
    /// The operation at this position cannot appear in the IR at this stage.
    Malformed(usize),
    /// More definitions than generations can count.
    TooManyDefinitions,
}

/// Adds `n` to the names of `names` that are not there yet.
fn insert_name(names: &mut Vec<Name>, n: Name)
    ensures
        final(names)@.to_set() == old(names)@.to_set().insert(n),
        final(names)@.len() <= old(names)@.len() + 1,
{
    let mut i: usize = 0;
    while i < names.len()
        invariant
            i <= names@.len(),
            forall|k: int| 0 <= k < i ==> names@[k] != n,
        decreases names@.len() - i,
    {
        if names[i] == n {
            assert(old(names)@.to_set().insert(n) =~= old(names)@.to_set());
            return;
        }
        i = i + 1;
    }
    names.push(n);
    assert(final(names)@.to_set() =~= old(names)@.to_set().insert(n)) by {
        assert forall|x: Name| final(names)@.contains(x) <==> old(names)@.contains(x) || x == n by {
            if final(names)@.contains(x) {
                let k = choose|k: int| 0 <= k < final(names)@.len() && final(names)@[k] == x;
                if k < old(names)@.len() {
                    assert(old(names)@[k] == x);
                }
            }
            if old(names)@.contains(x) {
                let k = choose|k: int| 0 <= k < old(names)@.len() && old(names)@[k] == x;
                assert(final(names)@[k] == x);
            }
            if x == n {
                assert(final(names)@[old(names)@.len() as int] == x);
            }
        }
    }
}

/// Number of variables an operation defines, not counting label lists.
pub open spec fn def_count(o: OpV) -> int {
    match o {
        OpV::Func(_, args, _) => args.len() as int,
        OpV::BinOp(..) | OpV::UnOp(..) | OpV::Load(..) | OpV::Alloca(..) | OpV::Call(..) => 1,
        _ => 0,
    }
}

/// Definitions in the first `i` operations, not counting label lists.
pub open spec fn def_total(ops: Seq<OpV>, i: int) -> int
    decreases i,
{
    if i <= 0 || i > ops.len() { 0 } else { def_total(ops, i - 1) + def_count(ops[i - 1]) }
}

/// Labels among the first `i` operations.
pub open spec fn label_total(ops: Seq<OpV>, i: int) -> int
    decreases i,
{
    if i <= 0 || i > ops.len() { 0 } else { label_total(ops, i - 1) + if ops[i - 1] is Label { 1int } else { 0int } }
}

/// Generations the renaming of the first `i` operations uses when `nn` names
/// join at each label.
pub open spec fn gen_total(ops: Seq<OpV>, nn: int, i: int) -> int
    decreases i,
{
    if i <= 0 || i > ops.len() { 0 } else {
        gen_total(ops, nn, i - 1) + def_count(ops[i - 1]) + if ops[i - 1] is Label { nn } else { 0int }
    }
}

proof fn lemma_totals(ops: Seq<OpV>, nn: int, i: int, j: int)
    requires
        0 <= i <= j <= ops.len(),
        nn >= 0,
    ensures
        def_total(ops, i) <= def_total(ops, j),
        label_total(ops, i) <= label_total(ops, j),
        gen_total(ops, nn, i) <= gen_total(ops, nn, j),
        0 <= def_total(ops, i),
        0 <= label_total(ops, i),
        gen_total(ops, nn, i) == def_total(ops, i) + label_total(ops, i) * nn,
    decreases j,
{
    if i < j {
        lemma_totals(ops, nn, i, j - 1);
        lemma_totals(ops, nn, j - 1, j - 1);
        assert(gen_total(ops, nn, j) == def_total(ops, j) + label_total(ops, j) * nn) by (nonlinear_arith)
            requires gen_total(ops, nn, j - 1) == def_total(ops, j - 1) + label_total(ops, j - 1) * nn,
                gen_total(ops, nn, j) == gen_total(ops, nn, j - 1) + def_count(ops[j - 1]) + if ops[j - 1] is Label { nn } else { 0int },
                def_total(ops, j) == def_total(ops, j - 1) + def_count(ops[j - 1]),
                label_total(ops, j) == label_total(ops, j - 1) + if ops[j - 1] is Label { 1int } else { 0int };
    } else if i > 0 {
        lemma_totals(ops, nn, i - 1, i - 1);
        assert(gen_total(ops, nn, i) == def_total(ops, i) + label_total(ops, i) * nn) by (nonlinear_arith)
            requires gen_total(ops, nn, i - 1) == def_total(ops, i - 1) + label_total(ops, i - 1) * nn,
                gen_total(ops, nn, i) == gen_total(ops, nn, i - 1) + def_count(ops[i - 1]) + if ops[i - 1] is Label { nn } else { 0int },
                def_total(ops, i) == def_total(ops, i - 1) + def_count(ops[i - 1]),
                label_total(ops, i) == label_total(ops, i - 1) + if ops[i - 1] is Label { 1int } else { 0int };
    }
}

fn defined_names(ops: &Vec<Op>) -> (r: Vec<Name>)
    ensures
        r@.len() <= def_total(ops_view(ops@), ops@.len() as int),
{
    let ghost ov = ops_view(ops@);
    let mut names: Vec<Name> = Vec::new();
    let mut i: usize = 0;
    while i < ops.len()
        invariant
            i <= ops@.len(),
            ov == ops_view(ops@),
            names@.len() <= def_total(ov, i as int),
        decreases ops@.len() - i,
    {
        assert(ov[i as int] == ops@[i as int]@);
        match &ops[i] {
            Op::Func(_, args, _) => {
                let mut k: usize = 0;
                let ghost n0 = names@.len();
                while k < args.len()
                    invariant
                        k <= args@.len(),
                        names@.len() <= n0 + k,
                    decreases args@.len() - k,
                {
                    insert_name(&mut names, args[k].name);
                    k = k + 1;
                }
            },
            Op::BinOp(d, ..) | Op::UnOp(d, ..) | Op::Load(d, ..) | Op::Alloca(d, ..) | Op::Call(d, ..) => {
                insert_name(&mut names, d.name);
            },
            _ => {},
        }
        i = i + 1;
    }
    names
}

/// The renamed operation, or `None` when it is malformed.
fn convert_op(rn: &mut Renamer, op: &Op, names: &Vec<Name>) -> (r: Option<Op>)
    requires
        old(rn).next_gen >= 1,
        old(rn).next_gen + names@.len() + 1 < usize::MAX,
        op matches Op::Func(_, args, _) ==> old(rn).next_gen + args@.len() + 1 < usize::MAX,
    ensures
        r is None <==> malformed(op@),
        final(rn).next_gen >= old(rn).next_gen,
        r is Some ==> final(rn).next_gen == old(rn).next_gen + def_count(op@) + if op@ is Label { names@.len() as int } else { 0int },
        r matches Some(x) ==> defs_in(x@, old(rn).next_gen as int, final(rn).next_gen as int),
        r matches Some(x) ==> (payload(x@) matches Some((l, vs)) ==> vs.map_values(|v: Var| v.name) == names@),
        r matches Some(x) ==> same_shape(op@, x@),
        r matches Some(x) ==> all_current(reads(x@), old(rn).current@),
        r matches Some(x) ==> final(rn).current@ == old(rn).current@ + gen_pairs(def_seq(x@)),
{
    let lo = rn.next_gen;
    match op {
        Op::Func(n, args, e) => {
            let ns = names_from(args);
            let ps = rn.define_all(&ns);
            let x = Op::Func(*n, ps, *e);
            proof {
                lemma_fresh_defs(ps@, lo as int);
                assert(ps@.len() == args@.len());
                assert forall|k: int| 0 <= k < args@.len() implies (#[trigger] args@[k]).name == ps@[k].name by {
                    assert(ps@.map_values(|v: Var| v.name)[k] == ns@[k]);
                }
            }
            Some(x)
        },
        Op::Return(a) => {
            let x = Op::Return(rn.use_rv(*a));
            assert(op_defs(x@) =~= Set::<Var>::empty());
            Some(x)
        },
        Op::BinOp(d, bop, a, b, sg) => {
            if *bop == BinOpNode::AndAlsoOp || *bop == BinOpNode::OrElseOp {
                return None;
            }
            let a2 = rn.use_rv(*a);
            let b2 = rn.use_rv(*b);
            let d2 = rn.define(d.name);
            proof { lemma_single_def(d2, lo as int); }
            Some(Op::BinOp(d2, *bop, a2, b2, *sg))
        },
        Op::UnOp(d, uop, a) => {
            if *uop == UnOpNode::Deref {
                return None;
            }
            if *uop == UnOpNode::AddrOf && !a.is_variable() {
                return None;
            }
            let a2 = rn.use_rv(*a);
            let d2 = rn.define(d.name);
            proof { lemma_single_def(d2, lo as int); }
            Some(Op::UnOp(d2, *uop, a2))
        },
        Op::Load(d, a, w) => {
            let a2 = rn.use_var(*a);
            let d2 = rn.define(d.name);
            proof { lemma_single_def(d2, lo as int); }
            Some(Op::Load(d2, a2, *w))
        },
        Op::Store(a, v, w) => {
            let x = Op::Store(rn.use_var(*a), rn.use_var(*v), *w);
            assert(op_defs(x@) =~= Set::<Var>::empty());
            Some(x)
        },
        Op::Alloca(d, size) => {
            let d2 = rn.define(d.name);
            proof { lemma_single_def(d2, lo as int); }
            Some(Op::Alloca(d2, *size))
        },
        Op::Call(d, t, args) => {
            let t2 = rn.use_rv(*t);
            let args2 = rn.use_vars(args);
            let d2 = rn.define(d.name);
            proof { lemma_single_def(d2, lo as int); }
            Some(Op::Call(d2, t2, args2))
        },
        Op::Label(l, _) => {
            let vs = rn.define_all(names);
            proof { lemma_fresh_defs(vs@, lo as int); }
            Some(Op::Label(*l, vs))
        },
        Op::Goto(l, _) => {
            let x = Op::Goto(*l, rn.edge_payload(names));
            assert(op_defs(x@) =~= Set::<Var>::empty());
            Some(x)
        },
        Op::CondGoto(ng, c, l, _) => {
            let c2 = rn.use_rv(*c);
            let x = Op::CondGoto(*ng, c2, *l, rn.edge_payload(names));
            assert(op_defs(x@) =~= Set::<Var>::empty());
            Some(x)
        },
        Op::Nop => {
            assert(op_defs(OpV::Nop) =~= Set::<Var>::empty());
            Some(Op::Nop)
        },
    }
}

pub struct ToSSA;

impl ToSSA {
    /// Renames a function body into SSA form: every definition gets a fresh
    /// generation, uses read the generation current at that point, each label
    /// defines a fresh generation of every variable, and each jump hands the
    /// label the generations current where it jumps.
    pub fn to_ssa(ops: &Vec<Op>) -> (r: Result<Vec<Op>, SsaError>)
        ensures
            r is Ok ==> forall|k: int| 0 <= k < ops@.len() ==> !malformed(#[trigger] ops@[k]@),
            (forall|k: int| 0 <= k < ops@.len() ==> !malformed(#[trigger] ops@[k]@)) ==> (r is Ok || r == Err::<Vec<Op>, SsaError>(SsaError::TooManyDefinitions)),
            r matches Err(SsaError::Malformed(p)) ==> p < ops@.len() && malformed(ops@[p as int]@),
            r matches Err(SsaError::TooManyDefinitions) ==> 1 + def_total(ops_view(ops@), ops@.len() as int)
                * (1 + label_total(ops_view(ops@), ops@.len() as int)) >= usize::MAX / 4,
            r matches Ok(out) ==> out@.len() == ops@.len()
                && defs_unique(ops_view(out@))
                && labels_agree(ops_view(out@))
                && (forall|k: int| 0 <= k < ops@.len() ==> same_shape(ops@[k]@, #[trigger] out@[k]@))
                && (forall|k: int| 0 <= k < ops@.len() ==> reads_current(#[trigger] ops_view(out@)[k], ops_view(out@).subrange(0, k))),
    {
        let names = defined_names(ops);
        let mut rn = Renamer { current: Vec::new(), next_gen: 1 };
        let mut out: Vec<Op> = Vec::new();
        let ghost mut lo_s: Seq<int> = Seq::empty();
        let ghost mut hi_s: Seq<int> = Seq::empty();
        let mut i: usize = 0;
        while i < ops.len()
            invariant
                i <= ops@.len(),
                out@.len() == i,
                lo_s.len() == i,
                hi_s.len() == i,
                rn.next_gen >= 1,
                rn.next_gen == 1 + gen_total(ops_view(ops@), names@.len() as int, i as int),
                names@.len() <= def_total(ops_view(ops@), ops@.len() as int),
                forall|k: int| 0 <= k < i ==> !malformed(#[trigger] ops@[k]@),
                forall|k: int| 0 <= k < i ==> defs_in(#[trigger] out@[k]@, lo_s[k], hi_s[k]),
                forall|k: int| 0 <= k < i ==> #[trigger] hi_s[k] <= rn.next_gen,
                forall|k1: int, k2: int| 0 <= k1 < k2 < i ==> #[trigger] hi_s[k1] <= #[trigger] lo_s[k2],
                forall|k: int| 0 <= k < i ==> (payload(#[trigger] out@[k]@) matches Some((l, vs)) ==> vs.map_values(|v: Var| v.name) == names@),
                forall|k: int| 0 <= k < i ==> same_shape(ops@[k]@, #[trigger] out@[k]@),
                forall|n: Name| #[trigger] gen_lookup(rn.current@, n) == last_gen(ops_view(out@), n),
                forall|k: int| 0 <= k < i ==> reads_current(#[trigger] ops_view(out@)[k], ops_view(out@).subrange(0, k)),
            decreases ops@.len() - i,
        {
            let extra: usize = match &ops[i] {
                Op::Func(_, args, _) => args.len(),
                _ => 0,
            };
            if rn.next_gen >= usize::MAX / 4 || names.len() >= usize::MAX / 4 || extra >= usize::MAX / 4 {
                proof {
                    let ov = ops_view(ops@);
                    let n = ov.len() as int;
                    let nn = names@.len() as int;
                    lemma_totals(ov, nn, i as int, n);
                    lemma_totals(ov, nn, i as int + 1, n);
                    lemma_totals(ov, nn, i as int, i as int + 1);
                    lemma_totals(ov, nn, n, n);
                    assert(ov[i as int] == ops@[i as int]@);
                    let d = def_total(ov, n);
                    let l = label_total(ov, n);
                    assert(d * (1 + l) == d + d * l) by (nonlinear_arith);
                    assert(l * nn <= l * d) by (nonlinear_arith) requires 0 <= nn <= d, l >= 0;
                    assert(0 <= d * l) by (nonlinear_arith) requires d >= 0, l >= 0;
                    assert(extra as int <= def_count(ov[i as int]));
                    assert(def_total(ov, i as int + 1) == def_total(ov, i as int) + def_count(ov[i as int]));
                    assert(rn.next_gen <= 1 + d + l * nn);
                    assert(1 + d * (1 + l) >= rn.next_gen);
                    assert(1 + d * (1 + l) >= nn);
                    assert(1 + d * (1 + l) >= extra);
                }
                return Err(SsaError::TooManyDefinitions);
            }
            let ghost lo = rn.next_gen as int;
            let ghost cur0 = rn.current@;
            let ghost ov0 = ops_view(out@);
            match convert_op(&mut rn, &ops[i], &names) {
                Some(x) => {
                    out.push(x);
                    proof {
                        assert(ops_view(ops@)[i as int] == ops@[i as int]@);
                        lo_s = lo_s.push(lo);
                        hi_s = hi_s.push(rn.next_gen as int);
                        let ov = ops_view(out@);
                        assert(ov =~= ov0.push(x@));
                        assert(ov.drop_last() =~= ov0);
                        assert forall|n: Name| #[trigger] gen_lookup(rn.current@, n) == last_gen(ov, n) by {
                            lemma_lookup_append(cur0, def_seq(x@), n);
                            assert(defs_in(x@, lo, rn.next_gen as int));
                            match find_last(def_seq(x@), n) {
                                Some(v) => {
                                    lemma_find_last_in(def_seq(x@), n);
                                    lemma_def_seq_defs(x@, v);
                                },
                                None => {},
                            }
                        }
                        assert forall|k: int| 0 <= k < i + 1 implies reads_current(#[trigger] ov[k], ov.subrange(0, k)) by {
                            if k < i {
                                assert(ov[k] == ov0[k]);
                                assert(ov.subrange(0, k) =~= ov0.subrange(0, k));
                            } else {
                                assert(ov.subrange(0, k) =~= ov0);
                                assert(ov[k] == x@);
                                assert forall|m: int| 0 <= m < reads(x@).len() implies (#[trigger] reads(x@)[m]).generation == Some(last_gen(ov0, reads(x@)[m].name)) by {
                                    assert(all_current(reads(x@), cur0));
                                }
                            }
                        }
                    }
                },
                None => {
                    return Err(SsaError::Malformed(i));
                },
            }
            i = i + 1;
        }
        proof {
            let ov = ops_view(out@);
            assert forall|a: int, b: int, v: Var| 0 <= a < ov.len() && 0 <= b < ov.len() && a != b
                && #[trigger] op_defs(ov[a]).contains(v) implies !#[trigger] op_defs(ov[b]).contains(v) by {
                assert(ov[a] == out@[a]@);
                assert(ov[b] == out@[b]@);
                assert(defs_in(out@[a]@, lo_s[a], hi_s[a]));
                assert(defs_in(out@[b]@, lo_s[b], hi_s[b]));
                if op_defs(ov[b]).contains(v) {
                    if a < b {
                        assert(hi_s[a] <= lo_s[b]);
                    } else {
                        assert(hi_s[b] <= lo_s[a]);
                    }
                }
            }
            assert forall|a: int, b: int| 0 <= a < ov.len() && 0 <= b < ov.len() implies #[trigger] agrees(ov[a], ov[b]) by {
                assert(ov[a] == out@[a]@);
                assert(ov[b] == out@[b]@);
                match (ov[a], payload(ov[b])) {
                    (OpV::Label(id, lv), Some((l, vs))) => {
                        assert(payload(out@[a]@) == Some((id, lv)));
                    },
                    _ => {},
                }
            }
        }
        Ok(out)
    }
}

} // verus!
