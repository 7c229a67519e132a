use vstd::prelude::*;
use crate::util::{Name, name_in};
use crate::ir::Var;
use crate::regmap::{RegisterColor, ColorMap, keys_unique};
use crate::conflicts::{ConflictGraph, UseCounts};
use crate::target::Reg;
use crate::varset::{contains, insert_var};

verus! {

pub open spec fn edge_has(e: (Var, Var), v: Var) -> bool {
    e.0 == v || e.1 == v
}

pub open spec fn count_key(e: (Var, u32), v: Var) -> bool {
    e.0 == v
}

pub open spec fn color_key(e: (Var, RegisterColor), v: Var) -> bool {
    e.0 == v
}

/// `v` is an end of an edge, has a use count, or has a fixed color.
pub open spec fn graph_var(edges: Seq<(Var, Var)>, counts: Seq<(Var, u32)>, must: Seq<(Var, RegisterColor)>, v: Var) -> bool {
    ||| exists|e: int| 0 <= e < edges.len() && #[trigger] edge_has(edges[e], v)
    ||| exists|q: int| 0 <= q < counts.len() && #[trigger] count_key(counts[q], v)
    ||| exists|q: int| 0 <= q < must.len() && #[trigger] color_key(must[q], v)
}

/// No edge joins two variables of the same color, unless both live in global memory.
pub open spec fn legal(m: Map<Var, RegisterColor>, edges: Seq<(Var, Var)>) -> bool {
    forall|k: int| 0 <= k < edges.len() && m.contains_key(#[trigger] edges[k].0) && m.contains_key(edges[k].1) ==>
        m[edges[k].0] != m[edges[k].1] || (m[edges[k].0] is GlobalColor && m[edges[k].1] is GlobalColor)
}

/// Some already colored neighbor of `x` has color `c`.
pub open spec fn clashes(m: Map<Var, RegisterColor>, edges: Seq<(Var, Var)>, x: Var, c: RegisterColor) -> bool {
    exists|k: int| 0 <= k < edges.len() && #[trigger] edge_clash(m, edges[k], x, c)
}

pub open spec fn edge_clash(m: Map<Var, RegisterColor>, e: (Var, Var), x: Var, c: RegisterColor) -> bool {
    (e.0 == x && m.contains_key(e.1) && m[e.1] == c) || (e.1 == x && m.contains_key(e.0) && m[e.0] == c)
}

/// The color that `must` fixes for `v`, or a stack slot; a register otherwise
/// has an index below `k`.
pub open spec fn respects(m: Map<Var, RegisterColor>, must: Map<Var, RegisterColor>, refs: Seq<Name>, k: u8, v: Var) -> bool {
    &&& refs.contains(v.name) ==> m[v] is StackColor
    &&& must.contains_key(v) ==> (m[v] == must[v] || m[v] is StackColor)
    &&& (!must.contains_key(v) && m[v] is RegColor) ==> m[v]->RegColor_0.index < k
    &&& !(m[v] is GlobalColor)
}

/// Every spill slot handed out so far lies below `next`.
pub open spec fn slots_below(m: Map<Var, RegisterColor>, must: Map<Var, RegisterColor>, next: i32) -> bool {
    forall|v: Var| #[trigger] m.contains_key(v) && m[v] is StackColor && m[v]->StackColor_0 >= 0 ==>
        m[v]->StackColor_0 < next
}

pub open spec fn holds_slot(m: Map<Var, RegisterColor>, v: Var, slot: int) -> bool {
    m.contains_key(v) && m[v] == RegisterColor::StackColor(slot as i32)
}

/// Spill slots are handed out densely: each slot below `next` belongs to some
/// variable, there are no more of them than entries, and a negative slot is a
/// fixed color. No variable has two entries.
pub open spec fn slots_ok(m: Map<Var, RegisterColor>, entries: Seq<(Var, RegisterColor)>, must: Map<Var, RegisterColor>, next: i32) -> bool {
    &&& keys_unique(entries)
    &&& next <= entries.len()
    &&& forall|v: Var| #[trigger] m.contains_key(v) && m[v] is StackColor && m[v]->StackColor_0 < 0 ==>
            must.contains_key(v) && m[v] == must[v]
    &&& forall|slot: int| 0 <= slot < next ==> #[trigger] slot_taken(m, slot)
}

pub open spec fn slot_taken(m: Map<Var, RegisterColor>, slot: int) -> bool {
    exists|v: Var| #[trigger] holds_slot(m, v, slot)
}

fn clashes_exec(m: &ColorMap, edges: &Vec<(Var, Var)>, x: &Var, c: RegisterColor) -> (r: bool)
    ensures
        r == clashes(m@, edges@, *x, c),
{
    let mut i: usize = 0;
    while i < edges.len()
        invariant
            i <= edges@.len(),
            forall|k: int| 0 <= k < i ==> !#[trigger] edge_clash(m@, edges@[k], *x, c),
        decreases edges@.len() - i,
    {
        let e = edges[i];
        if e.0 == *x {
            match m.find(&e.1) {
                Some(d) => {
                    if d == c {
                        assert(edge_clash(m@, edges@[i as int], *x, c));
                        return true;
                    }
                },
                None => {},
            }
        }
        if e.1 == *x {
            match m.find(&e.0) {
                Some(d) => {
                    if d == c {
                        assert(edge_clash(m@, edges@[i as int], *x, c));
                        return true;
                    }
                },
                None => {},
            }
        }
        i = i + 1;
    }
    false
}

/// Colors one variable that has no color yet, keeping the coloring legal.
fn color_one(
    colored: &mut ColorMap,
    next_slot: &mut i32,
    edges: &Vec<(Var, Var)>,
    must: &ColorMap,
    refs: &Vec<Name>,
    spilled: &Vec<Var>,
    k: u8,
    x: Var,
)
    requires
        !old(colored)@.contains_key(x),
        0 <= *old(next_slot) < i32::MAX,
        legal(old(colored)@, edges@),
        slots_below(old(colored)@, must@, *old(next_slot)),
        forall|v: Var| #[trigger] old(colored)@.contains_key(v) ==> respects(old(colored)@, must@, refs@, k, v),
        forall|e: int| 0 <= e < edges@.len() ==> (#[trigger] edges@[e]).0 != edges@[e].1,
        slots_ok(old(colored)@, old(colored).entries@, must@, *old(next_slot)),
    ensures
        slots_ok(final(colored)@, final(colored).entries@, must@, *final(next_slot)),
        final(colored)@ == old(colored)@.insert(x, final(colored)@[x]),
        *old(next_slot) <= *final(next_slot) <= *old(next_slot) + 1,
        legal(final(colored)@, edges@),
        slots_below(final(colored)@, must@, *final(next_slot)),
        forall|v: Var| #[trigger] final(colored)@.contains_key(v) ==> respects(final(colored)@, must@, refs@, k, v),
{
    let ghost m0 = colored@;
    let mut chosen: Option<RegisterColor> = None;
    if !name_in(refs, x.name) && !contains(spilled, &x) {
        match must.find(&x) {
            Some(c) => {
                let fixed_ok = match c {
                    RegisterColor::RegColor(_) => true,
                    RegisterColor::StackColor(slot) => slot < 0,
                    RegisterColor::GlobalColor => false,
                };
                if fixed_ok && !clashes_exec(colored, edges, &x, c) {
                    chosen = Some(c);
                }
            },
            None => {
                let mut r: u8 = 0;
                while r < k
                    invariant
                        r <= k,
                        chosen matches Some(c) ==> (c is RegColor && c->RegColor_0.index < k && !clashes(colored@, edges@, x, c)),
                    decreases k - r,
                {
                    let c = RegisterColor::RegColor(Reg { index: r });
                    if !clashes_exec(colored, edges, &x, c) {
                        chosen = Some(c);
                        break;
                    }
                    r = r + 1;
                }
            },
        }
    }
    let c = match chosen {
        Some(c) => c,
        None => {
            let c = RegisterColor::StackColor(*next_slot);
            *next_slot = *next_slot + 1;
            c
        },
    };
    proof {
        assert(!clashes(m0, edges@, x, c)) by {
            if clashes(m0, edges@, x, c) {
                let j = choose|j: int| 0 <= j < edges@.len() && #[trigger] edge_clash(m0, edges@[j], x, c);
                if chosen is None {
                    let e = edges@[j];
                    assert(c == RegisterColor::StackColor(*old(next_slot)));
                    if e.0 == x {
                        assert(m0.contains_key(e.1));
                    } else {
                        assert(m0.contains_key(e.0));
                    }
                }
            }
        }
    }
    let ghost e0 = colored.entries@;
    let ghost n0 = *old(next_slot);
    colored.insert(x, c);
    proof {
        crate::regmap::lemma_lookup_none(e0, x);
        assert(keys_unique(colored.entries@)) by {
            assert forall|q1: int, q2: int| 0 <= q1 < colored.entries@.len() && 0 <= q2 < colored.entries@.len() && q1 != q2
                implies #[trigger] colored.entries@[q1].0 != #[trigger] colored.entries@[q2].0 by {
                if q1 < e0.len() && q2 < e0.len() {
                    assert(colored.entries@[q1] == e0[q1] && colored.entries@[q2] == e0[q2]);
                } else if q1 < e0.len() {
                    assert(colored.entries@[q1] == e0[q1]);
                } else if q2 < e0.len() {
                    assert(colored.entries@[q2] == e0[q2]);
                }
            }
        }
        assert forall|slot: int| 0 <= slot < *next_slot implies #[trigger] slot_taken(colored@, slot) by {
            if slot < n0 {
                assert(slot_taken(m0, slot));
                let v = choose|v: Var| #[trigger] holds_slot(m0, v, slot);
                assert(v != x);
                assert(holds_slot(colored@, v, slot));
            } else {
                assert(holds_slot(colored@, x, slot));
            }
        }
        assert forall|v: Var| #[trigger] colored@.contains_key(v) && colored@[v] is StackColor && colored@[v]->StackColor_0 < 0 implies
            must@.contains_key(v) && colored@[v] == must@[v] by {
            if v != x {
                assert(m0.contains_key(v));
            }
        }
        let m = colored@;
        assert forall|j: int| 0 <= j < edges@.len() && m.contains_key(#[trigger] edges@[j].0) && m.contains_key(edges@[j].1) implies
            m[edges@[j].0] != m[edges@[j].1] || (m[edges@[j].0] is GlobalColor && m[edges@[j].1] is GlobalColor) by {
            let e = edges@[j];
            if e.0 == x {
                assert(!edge_clash(m0, e, x, c));
            } else if e.1 == x {
                assert(!edge_clash(m0, e, x, c));
            }
        }
    }
}

/// Number of edges from `v` to a variable of `remaining`.
fn degree(edges: &Vec<(Var, Var)>, remaining: &Vec<Var>, v: &Var) -> (r: u64)
    requires
        edges@.len() < 0x1000_0000,
    ensures
        r <= edges@.len(),
{
    let mut d: u64 = 0;
    let mut i: usize = 0;
    while i < edges.len()
        invariant
            i <= edges@.len() < 0x1000_0000,
            d <= i,
        decreases edges@.len() - i,
    {
        let e = edges[i];
        if e.0 == *v && contains(remaining, &e.1) {
            d = d + 1;
        }
        i = i + 1;
    }
    d
}

/// The order in which the select phase colors: nodes of degree below `k` are
/// removed first; when none is left, the one with the highest degree per use
/// is removed and marked for the stack.
fn simplify(edges: &Vec<(Var, Var)>, counts: &UseCounts, nodes: &Vec<Var>, k: u8) -> (r: (Vec<Var>, Vec<Var>))
    requires
        edges@.len() < 0x1000_0000,
        nodes@.no_duplicates(),
    ensures
        r.0@.len() == nodes@.len(),
        r.1@.no_duplicates(),
        forall|q: int| 0 <= q < r.0@.len() ==> nodes@.contains(#[trigger] r.0@[q]),
{
    let mut remaining: Vec<Var> = crate::ir::copy_vars(nodes);
    let mut order: Vec<Var> = Vec::new();
    let mut spilled: Vec<Var> = Vec::new();
    while remaining.len() > 0
        invariant
            edges@.len() < 0x1000_0000,
            order@.len() + remaining@.len() == nodes@.len(),
            spilled@.no_duplicates(),
            forall|q: int| 0 <= q < remaining@.len() ==> nodes@.contains(#[trigger] remaining@[q]),
            forall|q: int| 0 <= q < order@.len() ==> nodes@.contains(#[trigger] order@[q]),
        decreases remaining@.len(),
    {
        let mut pick: usize = remaining.len();
        let mut i: usize = 0;
        while i < remaining.len()
            invariant
                edges@.len() < 0x1000_0000,
                i <= remaining@.len(),
                pick <= remaining@.len(),
            decreases remaining@.len() - i,
        {
            if degree(edges, &remaining, &remaining[i]) < k as u64 {
                pick = i;
                break;
            }
            i = i + 1;
        }
        if pick == remaining.len() {
            // Spill candidate: the highest degree per use.
            let mut best: usize = 0;
            let mut best_deg: u64 = degree(edges, &remaining, &remaining[0]);
            let mut best_cnt: u64 = counts.get(&remaining[0]) as u64;
            let mut j: usize = 1;
            while j < remaining.len()
                invariant
                    edges@.len() < 0x1000_0000,
                    best < remaining@.len(),
                    1 <= j <= remaining@.len(),
                    best_deg <= edges@.len(),
                    best_cnt <= u32::MAX,
                decreases remaining@.len() - j,
            {
                let d = degree(edges, &remaining, &remaining[j]);
                let c = counts.get(&remaining[j]) as u64;
                proof {
                    assert((d as u128) * (best_cnt as u128) <= 0x1000_0000u128 * 0xffff_ffffu128) by (nonlinear_arith)
                        requires d <= 0x1000_0000, best_cnt <= 0xffff_ffff;
                    assert((best_deg as u128) * (c as u128) <= 0x1000_0000u128 * 0xffff_ffffu128) by (nonlinear_arith)
                        requires best_deg <= 0x1000_0000, c <= 0xffff_ffff;
                }
                if (d as u128) * (best_cnt as u128) > (best_deg as u128) * (c as u128) {
                    best = j;
                    best_deg = d;
                    best_cnt = c;
                }
                j = j + 1;
            }
            pick = best;
            insert_var(&mut spilled, remaining[best]);
        }
        let ghost rem0 = remaining@;
        let v = remaining.remove(pick);
        proof {
            assert(nodes@.contains(rem0[pick as int]));
            assert forall|q: int| 0 <= q < remaining@.len() implies nodes@.contains(#[trigger] remaining@[q]) by {
                if q < pick {
                    assert(remaining@[q] == rem0[q]);
                } else {
                    assert(remaining@[q] == rem0[q + 1]);
                }
            }
        }
        order.push(v);
    }
    (order, spilled)
}

pub struct RegisterColorer;

impl RegisterColorer {
    /// Gives every variable of the graph, of the use counts and of the fixed
    /// colors a color: a register below `k`, its fixed color, or a stack slot.
    /// Variables whose name has its address taken, and those chosen to be
    /// spilled, get stack slots.
    pub fn color(graph: &ConflictGraph, counts: &UseCounts, must: &ColorMap, referenced: &Vec<Name>, k: u8) -> (r: ColorMap)
        requires
            graph.edges@.len() < 0x400_0000,
            counts.entries@.len() < 0x400_0000,
            must.entries@.len() < 0x400_0000,
            forall|e: int| 0 <= e < graph.edges@.len() ==> (#[trigger] graph.edges@[e]).0 != graph.edges@[e].1,
        ensures
            legal(r@, graph.edges@),
            forall|e: int| 0 <= e < graph.edges@.len() ==> r@.contains_key((#[trigger] graph.edges@[e]).0) && r@.contains_key(graph.edges@[e].1),
            forall|e: int| 0 <= e < counts.entries@.len() ==> r@.contains_key((#[trigger] counts.entries@[e]).0),
            forall|v: Var| #[trigger] must@.contains_key(v) ==> r@.contains_key(v),
            forall|v: Var| #[trigger] r@.contains_key(v) ==> respects(r@, must@, referenced@, k, v),
            forall|v: Var| #[trigger] r@.contains_key(v) ==> graph_var(graph.edges@, counts.entries@, must.entries@, v),
            exists|n: i32| #[trigger] slots_ok(r@, r.entries@, must@, n) && slots_below(r@, must@, n),
    {
        let edges = &graph.edges;
        let mut nodes: Vec<Var> = Vec::new();
        let mut i: usize = 0;
        while i < edges.len()
            invariant
                edges@ == graph.edges@,
                i <= edges@.len(),
                nodes@.no_duplicates(),
                forall|x: Var| nodes@.contains(x) ==> #[trigger] graph_var(graph.edges@, counts.entries@, must.entries@, x),
                nodes@.len() <= 2 * i,
                forall|e: int| 0 <= e < i ==> nodes@.contains((#[trigger] edges@[e]).0) && nodes@.contains(edges@[e].1),
            decreases edges@.len() - i,
        {
            let ghost before = nodes@;
            insert_var(&mut nodes, edges[i].0);
            let ghost mid = nodes@;
            insert_var(&mut nodes, edges[i].1);
            proof {
                assert forall|x: Var| nodes@.contains(x) implies #[trigger] graph_var(graph.edges@, counts.entries@, must.entries@, x) by {
                    assert(nodes@.to_set().contains(x));
                    assert(mid.to_set().contains(x) || x == edges@[i as int].1);
                    if x == edges@[i as int].1 || x == edges@[i as int].0 {
                        assert(edge_has(edges@[i as int], x));
                    } else {
                        assert(mid.to_set().contains(x));
                        assert(before.to_set().contains(x));
                        assert(before.contains(x));
                    }
                }
                assert forall|e: int| 0 <= e < i + 1 implies nodes@.contains((#[trigger] edges@[e]).0) && nodes@.contains(edges@[e].1) by {
                    if e < i {
                        assert(before.to_set().contains(edges@[e].0));
                        assert(before.to_set().contains(edges@[e].1));
                    }
                    assert(nodes@.to_set().contains(edges@[e].0));
                    assert(nodes@.to_set().contains(edges@[e].1));
                }
            }
            i = i + 1;
        }
        let ghost n_edges = nodes@;
        let mut i: usize = 0;
        while i < counts.entries.len()
            invariant
                edges@ == graph.edges@,
                i <= counts.entries@.len(),
                nodes@.no_duplicates(),
                forall|x: Var| nodes@.contains(x) ==> #[trigger] graph_var(graph.edges@, counts.entries@, must.entries@, x),
                nodes@.len() <= 2 * edges@.len() + i,
                n_edges.to_set().subset_of(nodes@.to_set()),
                forall|e: int| 0 <= e < i ==> nodes@.contains((#[trigger] counts.entries@[e]).0),
            decreases counts.entries@.len() - i,
        {
            let ghost before = nodes@;
            insert_var(&mut nodes, counts.entries[i].0);
            proof {
                assert(count_key(counts.entries@[i as int], counts.entries@[i as int].0));
                assert forall|x: Var| nodes@.contains(x) implies #[trigger] graph_var(graph.edges@, counts.entries@, must.entries@, x) by {
                    assert(nodes@.to_set().contains(x));
                }
                assert forall|e: int| 0 <= e < i + 1 implies nodes@.contains((#[trigger] counts.entries@[e]).0) by {
                    if e < i {
                        assert(before.to_set().contains(counts.entries@[e].0));
                    }
                    assert(nodes@.to_set().contains(counts.entries@[e].0));
                }
            }
            i = i + 1;
        }
        let ghost n_counts = nodes@;
        let mut i: usize = 0;
        while i < must.entries.len()
            invariant
                edges@ == graph.edges@,
                i <= must.entries@.len(),
                nodes@.no_duplicates(),
                forall|x: Var| nodes@.contains(x) ==> #[trigger] graph_var(graph.edges@, counts.entries@, must.entries@, x),
                nodes@.len() <= 2 * edges@.len() + counts.entries@.len() + i,
                n_counts.to_set().subset_of(nodes@.to_set()),
                forall|e: int| 0 <= e < i ==> nodes@.contains((#[trigger] must.entries@[e]).0),
            decreases must.entries@.len() - i,
        {
            let ghost before = nodes@;
            insert_var(&mut nodes, must.entries[i].0);
            proof {
                assert(color_key(must.entries@[i as int], must.entries@[i as int].0));
                assert forall|x: Var| nodes@.contains(x) implies #[trigger] graph_var(graph.edges@, counts.entries@, must.entries@, x) by {
                    assert(nodes@.to_set().contains(x));
                }
                assert forall|e: int| 0 <= e < i + 1 implies nodes@.contains((#[trigger] must.entries@[e]).0) by {
                    if e < i {
                        assert(before.to_set().contains(must.entries@[e].0));
                    }
                    assert(nodes@.to_set().contains(must.entries@[e].0));
                }
            }
            i = i + 1;
        }
        proof {
            assert forall|e: int| 0 <= e < edges@.len() implies nodes@.contains((#[trigger] edges@[e]).0) && nodes@.contains(edges@[e].1) by {
                assert(n_edges.contains(edges@[e].0));
                assert(n_edges.contains(edges@[e].1));
                assert(n_edges.to_set().contains(edges@[e].0));
                assert(n_edges.to_set().contains(edges@[e].1));
                assert(nodes@.to_set().contains(edges@[e].0));
                assert(nodes@.to_set().contains(edges@[e].1));
            }
            assert forall|e: int| 0 <= e < counts.entries@.len() implies nodes@.contains((#[trigger] counts.entries@[e]).0) by {
                assert(n_counts.contains(counts.entries@[e].0));
                assert(n_counts.to_set().contains(counts.entries@[e].0));
                assert(nodes@.to_set().contains(counts.entries@[e].0));
            }
        }
        let (order, spilled) = simplify(edges, counts, &nodes, k);
        let mut colored = ColorMap::new();
        let mut next_slot: i32 = 0;
        assert(slots_ok(colored@, colored.entries@, must@, next_slot));
        // The fixed colors are seeded first, so that other variables do not take them.
        let mut s: usize = 0;
        while s < must.entries.len()
            invariant
                edges@ == graph.edges@,
                s <= must.entries@.len() < 0x400_0000,
                0 <= next_slot <= s,
                legal(colored@, edges@),
                slots_below(colored@, must@, next_slot),
                slots_ok(colored@, colored.entries@, must@, next_slot),
                forall|v: Var| #[trigger] colored@.contains_key(v) ==> respects(colored@, must@, referenced@, k, v),
                forall|e: int| 0 <= e < edges@.len() ==> (#[trigger] edges@[e]).0 != edges@[e].1,
                forall|x: Var| colored@.contains_key(x) ==> #[trigger] graph_var(graph.edges@, counts.entries@, must.entries@, x),
            decreases must.entries@.len() - s,
        {
            let v = must.entries[s].0;
            proof {
                assert(color_key(must.entries@[s as int], v));
            }
            if colored.find(&v).is_none() {
                color_one(&mut colored, &mut next_slot, edges, must, referenced, &spilled, k, v);
            }
            s = s + 1;
        }
        let mut j: usize = order.len();
        while j > 0
            invariant
                edges@ == graph.edges@,
                j <= order@.len() == nodes@.len(),
                nodes@.len() < 0x1000_0000,
                must.entries@.len() < 0x400_0000,
                0 <= next_slot <= must.entries@.len() + order@.len() - j,
                legal(colored@, edges@),
                slots_below(colored@, must@, next_slot),
                slots_ok(colored@, colored.entries@, must@, next_slot),
                forall|v: Var| #[trigger] colored@.contains_key(v) ==> respects(colored@, must@, referenced@, k, v),
                forall|e: int| 0 <= e < edges@.len() ==> (#[trigger] edges@[e]).0 != edges@[e].1,
                forall|x: Var| colored@.contains_key(x) ==> #[trigger] graph_var(graph.edges@, counts.entries@, must.entries@, x),
                forall|x: Var| nodes@.contains(x) ==> #[trigger] graph_var(graph.edges@, counts.entries@, must.entries@, x),
                forall|q: int| 0 <= q < order@.len() ==> nodes@.contains(#[trigger] order@[q]),
            decreases j,
        {
            j = j - 1;
            let v = order[j];
            proof {
                assert(nodes@.contains(order@[j as int]));
            }
            if colored.find(&v).is_none() {
                color_one(&mut colored, &mut next_slot, edges, must, referenced, &spilled, k, v);
            }
        }
        let mut i: usize = 0;
        while i < nodes.len()
            invariant
                edges@ == graph.edges@,
                i <= nodes@.len() < 0x1000_0000,
                must.entries@.len() < 0x400_0000,
                0 <= next_slot <= must.entries@.len() + nodes@.len() + i,
                legal(colored@, edges@),
                slots_below(colored@, must@, next_slot),
                slots_ok(colored@, colored.entries@, must@, next_slot),
                forall|v: Var| #[trigger] colored@.contains_key(v) ==> respects(colored@, must@, referenced@, k, v),
                forall|e: int| 0 <= e < edges@.len() ==> (#[trigger] edges@[e]).0 != edges@[e].1,
                forall|e: int| 0 <= e < i ==> colored@.contains_key(#[trigger] nodes@[e]),
                forall|x: Var| colored@.contains_key(x) ==> #[trigger] graph_var(graph.edges@, counts.entries@, must.entries@, x),
                forall|x: Var| nodes@.contains(x) ==> #[trigger] graph_var(graph.edges@, counts.entries@, must.entries@, x),
            decreases nodes@.len() - i,
        {
            let v = nodes[i];
            proof {
                assert(nodes@.contains(nodes@[i as int]));
            }
            if colored.find(&v).is_none() {
                color_one(&mut colored, &mut next_slot, edges, must, referenced, &spilled, k, v);
            }
            i = i + 1;
        }
        proof {
            assert forall|e: int| 0 <= e < edges@.len() implies colored@.contains_key((#[trigger] edges@[e]).0) && colored@.contains_key(edges@[e].1) by {
                assert(nodes@.contains(edges@[e].0));
                assert(nodes@.contains(edges@[e].1));
            }
            assert forall|e: int| 0 <= e < counts.entries@.len() implies colored@.contains_key((#[trigger] counts.entries@[e]).0) by {
                assert(nodes@.contains(counts.entries@[e].0));
            }
            assert forall|v: Var| #[trigger] must@.contains_key(v) implies colored@.contains_key(v) by {
                assert(crate::regmap::lookup(must.entries@, v) is Some);
                lemma_lookup_in(must.entries@, v);
                let e = choose|e: int| 0 <= e < must.entries@.len() && #[trigger] must.entries@[e].0 == v;
                assert(nodes@.contains(must.entries@[e].0));
            }
        }
        assert(slots_ok(colored@, colored.entries@, must@, next_slot) && slots_below(colored@, must@, next_slot));
        colored
    }
}

proof fn lemma_lookup_in(s: Seq<(Var, RegisterColor)>, v: Var)
    requires
        crate::regmap::lookup(s, v) is Some,
    ensures
        exists|e: int| 0 <= e < s.len() && #[trigger] s[e].0 == v,
    decreases s.len(),
{
    if s.last().0 == v {
        assert(s[s.len() - 1].0 == v);
    } else {
        lemma_lookup_in(s.drop_last(), v);
        let e = choose|e: int| 0 <= e < s.drop_last().len() && #[trigger] s.drop_last()[e].0 == v;
        assert(s[e].0 == v);
    }
}

} // verus!
