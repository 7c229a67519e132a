use vstd::prelude::*;
use crate::util::{Width, Name};
use crate::ir::BinOpNode;

verus! {

/// A numbered temporary of the register-transfer form.
#[derive(PartialEq, Eq, Clone, Copy, Debug, Structural)]
pub struct Temp(pub usize);

#[derive(PartialEq, Eq, Clone, Copy, Debug, Structural)]
pub enum Label {
    NumLabel(u32),
    NameLabel(Name),
}

/// A destination: a temporary and the size of what it holds.
#[derive(PartialEq, Eq, Clone, Copy, Debug, Structural)]
pub enum Dest {
    Local(Temp, usize),
}

#[derive(PartialEq, Eq, Clone, Copy, Debug, Structural)]
pub enum Src {
    Ref(Dest),
    Imm(u32),
}

#[derive(Debug)]
pub enum Cond {
    Always,
    Cmp(Src, Box<Cond>, Src),
}

impl Dest {
    pub fn size(&self) -> (r: usize)
        ensures
            r == self->Local_1,
    {
        match *self {
            Dest::Local(_, s) => s,
        }
    }
}

#[derive(Debug)]
pub enum Instr {
    BinOp(Dest, BinOpNode, Src, Src),
    Call(Dest, Label, Vec<Src>),
    Store(Dest, Src, Width),
    Load(Dest, Src, Width),
    Label(Label),
    Jump(Cond, Label, Label),
    Return(Src),
    Phi(Dest, Vec<Src>, Vec<Label>),
    Nop,
}

pub struct Sub {
    pub body: Vec<Instr>,
    pub args: Vec<Dest>,
    pub min_temp: Temp,
    pub max_temp: Temp,
}

/// Hands out temporaries, one per identifier node.
pub struct IRConverter {
    pub next_temp: usize,
    pub next_label: usize,
    pub ident_temps: Vec<(u64, Temp)>,
}

/// The temporary that was given to node `id` last, if any.
pub open spec fn temp_lookup(s: Seq<(u64, Temp)>, id: u64) -> Option<Temp>
    decreases s.len(),
{
    if s.len() == 0 {
        None
    } else if s.last().0 == id {
        Some(s.last().1)
    } else {
        temp_lookup(s.drop_last(), id)
    }
}

impl IRConverter {
    /// Every temporary handed out so far lies below `next_temp`.
    pub open spec fn wf(&self) -> bool {
        forall|k: int| 0 <= k < self.ident_temps@.len() ==> (#[trigger] self.ident_temps@[k]).1.0 < self.next_temp
    }

    pub fn new() -> (r: IRConverter)
        ensures
            r.wf(),
            r.next_temp == 0,
            r.ident_temps@.len() == 0,
    {
        IRConverter { next_temp: 0, next_label: 0, ident_temps: Vec::new() }
    }

    /// A temporary not handed out before.
    pub fn new_temp(&mut self) -> (t: Temp)
        requires
            old(self).next_temp < usize::MAX,
            old(self).wf(),
        ensures
            t == Temp(old(self).next_temp),
            final(self).next_temp == old(self).next_temp + 1,
            final(self).ident_temps == old(self).ident_temps,
            final(self).wf(),
    {
        let t = Temp(self.next_temp);
        self.next_temp = self.next_temp + 1;
        t
    }

    pub fn new_dest(&mut self, size: usize) -> (d: Dest)
        requires
            old(self).next_temp < usize::MAX,
            old(self).wf(),
        ensures
            d == Dest::Local(Temp(old(self).next_temp), size),
            final(self).next_temp == old(self).next_temp + 1,
            final(self).ident_temps == old(self).ident_temps,
            final(self).wf(),
    {
        Dest::Local(self.new_temp(), size)
    }

    /// The temporary of the identifier node `id`: the one it was given before,
    /// or a new one.
    pub fn temp_for(&mut self, id: u64) -> (t: Temp)
        requires
            old(self).next_temp < usize::MAX,
            old(self).wf(),
        ensures
            final(self).wf(),
            temp_lookup(old(self).ident_temps@, id) matches Some(u) ==> t == u && final(self).next_temp == old(self).next_temp,
            temp_lookup(old(self).ident_temps@, id) is None ==> t == Temp(old(self).next_temp)
                && final(self).next_temp == old(self).next_temp + 1,
            temp_lookup(final(self).ident_temps@, id) == Some(t),
            forall|other: u64| other != id ==> #[trigger] temp_lookup(final(self).ident_temps@, other) == temp_lookup(old(self).ident_temps@, other),
    {
        let mut i: usize = self.ident_temps.len();
        assert(self.ident_temps@.subrange(0, i as int) =~= self.ident_temps@);
        while i > 0
            invariant
                i <= self.ident_temps@.len(),
                self.ident_temps == old(self).ident_temps,
                self.next_temp == old(self).next_temp,
                self.next_label == old(self).next_label,
                self.wf(),
                temp_lookup(self.ident_temps@, id) == temp_lookup(self.ident_temps@.subrange(0, i as int), id),
            decreases i,
        {
            proof {
                let s = self.ident_temps@.subrange(0, i as int);
                assert(s.drop_last() =~= self.ident_temps@.subrange(0, i - 1));
            }
            let e = self.ident_temps[i - 1];
            if e.0 == id {
                return e.1;
            }
            i = i - 1;
        }
        let t = self.new_temp();
        self.ident_temps.push((id, t));
        proof {
            assert(self.ident_temps@.drop_last() == old(self).ident_temps@);
            assert forall|other: u64| other != id implies #[trigger] temp_lookup(self.ident_temps@, other) == temp_lookup(old(self).ident_temps@, other) by {
                assert(self.ident_temps@.drop_last() == old(self).ident_temps@);
            }
            assert forall|k: int| 0 <= k < self.ident_temps@.len() implies (#[trigger] self.ident_temps@[k]).1.0 < self.next_temp by {
                if k < old(self).ident_temps@.len() {
                    assert(self.ident_temps@[k] == old(self).ident_temps@[k]);
                }
            }
        }
        t
    }
}

} // verus!
