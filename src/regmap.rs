use vstd::prelude::*;
use crate::ir::Var;
use crate::target::Reg;

verus! {

/// Where a variable lives: a machine register, a stack slot, or global memory.
#[derive(PartialEq, Eq, Clone, Copy, Debug, Structural)]
pub enum RegisterColor {
    RegColor(Reg),
    /// A slot of the spill area; negative slots are parameters that the
    /// caller passed on the stack.
    StackColor(i32),
    GlobalColor,
}

/// The entry for `k` that was made last, if any.
pub open spec fn lookup(s: Seq<(Var, RegisterColor)>, k: Var) -> Option<RegisterColor>
    decreases s.len(),
{
    if s.len() == 0 {
        None
    } else if s.last().0 == k {
        Some(s.last().1)
    } else {
        lookup(s.drop_last(), k)
    }
}

/// The map that a list of color entries stands for: the last entry of each variable counts.
pub open spec fn color_map(s: Seq<(Var, RegisterColor)>) -> Map<Var, RegisterColor> {
    Map::new(|k: Var| lookup(s, k) is Some, |k: Var| lookup(s, k)->0)
}

/// Every variable with an entry in `s` is one of `vars`.
pub open spec fn keys_within(s: Seq<(Var, RegisterColor)>, vars: Set<Var>) -> bool {
    forall|q: int| 0 <= q < s.len() ==> vars.contains(#[trigger] s[q].0)
}

/// A map from variables to colors.
pub struct ColorMap {
    pub entries: Vec<(Var, RegisterColor)>,
}

impl View for ColorMap {
    type V = Map<Var, RegisterColor>;

    open spec fn view(&self) -> Map<Var, RegisterColor> {
        color_map(self.entries@)
    }
}

impl ColorMap {
    pub fn new() -> (r: ColorMap)
        ensures
            r@ == Map::<Var, RegisterColor>::empty(),
            r.entries@.len() == 0,
    {
        let r = ColorMap { entries: Vec::new() };
        assert(r@ =~= Map::<Var, RegisterColor>::empty());
        r
    }

    pub fn insert(&mut self, k: Var, c: RegisterColor)
        ensures
            final(self)@ == old(self)@.insert(k, c),
            final(self).entries@.len() == old(self).entries@.len() + 1,
            final(self).entries@ == old(self).entries@.push((k, c)),
    {
        self.entries.push((k, c));
        assert(final(self).entries@.drop_last() == old(self).entries@);
        assert(final(self)@ =~= old(self)@.insert(k, c));
    }

    pub fn find(&self, k: &Var) -> (r: Option<RegisterColor>)
        ensures
            r == (if self@.contains_key(*k) { Some(self@[*k]) } else { None }),
    {
        let mut i: usize = self.entries.len();
        assert(self.entries@.subrange(0, i as int) =~= self.entries@);
        while i > 0
            invariant
                i <= self.entries@.len(),
                lookup(self.entries@, *k) == lookup(self.entries@.subrange(0, i as int), *k),
            decreases i,
        {
            let e = self.entries[i - 1];
            proof {
                let s = self.entries@.subrange(0, i as int);
                assert(s.drop_last() =~= self.entries@.subrange(0, i - 1));
            }
            if e.0 == *k {
                return Some(e.1);
            }
            i = i - 1;
        }
        proof {
            assert(self.entries@.subrange(0, 0) =~= Seq::<(Var, RegisterColor)>::empty());
        }
        None
    }
}

/// No variable has two entries.
pub open spec fn keys_unique(s: Seq<(Var, RegisterColor)>) -> bool {
    forall|q1: int, q2: int| 0 <= q1 < s.len() && 0 <= q2 < s.len() && q1 != q2 ==> #[trigger] s[q1].0 != #[trigger] s[q2].0
}

pub proof fn lemma_lookup_none(s: Seq<(Var, RegisterColor)>, k: Var)
    requires
        lookup(s, k) is None,
    ensures
        forall|q: int| 0 <= q < s.len() ==> (#[trigger] s[q]).0 != k,
    decreases s.len(),
{
    if s.len() > 0 {
        lemma_lookup_none(s.drop_last(), k);
        assert forall|q: int| 0 <= q < s.len() implies (#[trigger] s[q]).0 != k by {
            if q < s.len() - 1 {
                assert(s[q] == s.drop_last()[q]);
            }
        }
    }
}

pub proof fn lemma_entry_in_map(s: Seq<(Var, RegisterColor)>, q: int)
    requires
        0 <= q < s.len(),
    ensures
        lookup(s, s[q].0) is Some,
    decreases s.len(),
{
    if q < s.len() - 1 && s.last().0 != s[q].0 {
        assert(s.drop_last()[q] == s[q]);
        lemma_entry_in_map(s.drop_last(), q);
    }
}

} // verus!
