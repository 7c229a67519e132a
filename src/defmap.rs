use vstd::prelude::*;
use crate::types::Ty;
use crate::ast::{Ident, FuncArg, Field, Variant, Stmt, Item};

verus! {

/// The id of a definition in the resolved tree.
#[derive(PartialEq, Eq, PartialOrd, Ord, Clone, Copy, Debug, Structural)]
pub struct DefId(pub u64);

/// What a definition is; types are given already resolved.
#[derive(Debug)]
pub enum Def {
    ModDef(Vec<DefId>),
    TypeDef(Ty),
    /// Arguments, return type, type parameters.
    FuncDef(Vec<DefId>, Ty, Vec<DefId>),
    FuncArgDef(Ty),
    /// Fields and type parameters.
    StructDef(Vec<DefId>, Vec<DefId>),
    FieldDef(Ty),
    /// Variants and type parameters.
    EnumDef(Vec<DefId>, Vec<DefId>),
    VariantDef(Vec<Ty>),
    LetDef(Option<Ty>),
}

/// The entry for `id` that was made last, if any.
pub open spec fn def_lookup(s: Seq<(DefId, Def)>, id: DefId) -> Option<Def>
    decreases s.len(),
{
    if s.len() == 0 {
        None
    } else if s.last().0 == id {
        Some(s.last().1)
    } else {
        def_lookup(s.drop_last(), id)
    }
}

/// The table from definition ids to definitions.
pub struct DefMap {
    pub table: Vec<(DefId, Def)>,
}

impl DefMap {
    pub open spec fn get(&self, id: DefId) -> Option<Def> {
        def_lookup(self.table@, id)
    }

    pub fn new() -> (r: DefMap)
        ensures
            forall|id: DefId| #[trigger] r.get(id) is None,
    {
        DefMap { table: Vec::new() }
    }

    pub fn insert(&mut self, id: DefId, def: Def)
        ensures
            final(self).get(id) == Some(def),
            forall|o: DefId| o != id ==> #[trigger] final(self).get(o) == old(self).get(o),
    {
        self.table.push((id, def));
        assert(final(self).table@.drop_last() == old(self).table@);
    }

    pub fn find(&self, id: &DefId) -> (r: Option<&Def>)
        ensures
            r matches Some(d) ==> self.get(*id) == Some(*d),
            r is None ==> self.get(*id) is None,
    {
        let mut i: usize = self.table.len();
        assert(self.table@.subrange(0, i as int) =~= self.table@);
        while i > 0
            invariant
                i <= self.table@.len(),
                def_lookup(self.table@, *id) == def_lookup(self.table@.subrange(0, i as int), *id),
            decreases i,
        {
            proof {
                let s = self.table@.subrange(0, i as int);
                assert(s.drop_last() =~= self.table@.subrange(0, i - 1));
            }
            if self.table[i - 1].0 == *id {
                return Some(&self.table[i - 1].1);
            }
            i = i - 1;
        }
        None
    }
}

pub open spec fn ident_ids(ids: Seq<Ident>) -> Seq<DefId> {
    ids.map_values(|i: Ident| i.id)
}

impl DefMap {
    fn visit_args(&mut self, items: Vec<FuncArg>) -> (r: Vec<DefId>)
        ensures
            r@ == items@.map_values(|x: FuncArg| x.ident.id),
            forall|x: DefId| !r@.contains(x) ==> #[trigger] final(self).get(x) == old(self).get(x),
            r@.no_duplicates() ==> forall|k: int| 0 <= k < items@.len() ==>
                #[trigger] final(self).get(items@[k].ident.id) == Some(Def::FuncArgDef(items@[k].argtype)),
    {
        let ghost items0 = items@;
        let ghost ids0 = items@.map_values(|x: FuncArg| x.ident.id);
        let mut items = items;
        let n = items.len();
        let mut rev: Vec<DefId> = Vec::new();
        while items.len() > 0
            invariant
                items@.len() <= n,
                n == items0.len(),
                ids0 == items0.map_values(|x: FuncArg| x.ident.id),
                items@ == items0.subrange(0, items@.len() as int),
                rev@.len() == n - items@.len(),
                forall|k: int| 0 <= k < rev@.len() ==> #[trigger] rev@[k] == ids0[n - 1 - k],
                forall|x: DefId| !ids0.subrange(items@.len() as int, n as int).contains(x) ==> #[trigger] self.get(x) == old(self).get(x),
                ids0.no_duplicates() ==> forall|k: int| items@.len() <= k < n ==>
                    #[trigger] self.get(ids0[k]) == Some(Def::FuncArgDef(items0[k].argtype)),
            decreases items@.len(),
        {
            let ghost j = items@.len() - 1;
            let a = items.pop().unwrap();
            proof {
                assert(a == items0[j]);
                assert(items@ =~= items0.subrange(0, j));
            }
            rev.push(a.ident.id);
            self.insert(a.ident.id, Def::FuncArgDef(a.argtype));
            proof {
                assert(ids0[j] == a.ident.id);
                assert forall|x: DefId| !ids0.subrange(j, n as int).contains(x) implies #[trigger] self.get(x) == old(self).get(x) by {
                    assert(ids0.subrange(j, n as int)[0] == ids0[j]);
                    if ids0.subrange(j + 1, n as int).contains(x) {
                        let q = choose|q: int| 0 <= q < n - j - 1 && #[trigger] ids0.subrange(j + 1, n as int)[q] == x;
                        assert(ids0.subrange(j, n as int)[q + 1] == x);
                    }
                }
                if ids0.no_duplicates() {
                    assert forall|k: int| j <= k < n implies #[trigger] self.get(ids0[k]) == Some(Def::FuncArgDef(items0[k].argtype)) by {
                        if k > j {
                            assert(ids0[k] != ids0[j]);
                        }
                    }
                }
            }
        }
        let mut ids: Vec<DefId> = Vec::new();
        let mut k: usize = rev.len();
        while k > 0
            invariant
                k <= rev@.len() == n,
                ids0.len() == n,
                forall|m: int| 0 <= m < rev@.len() ==> #[trigger] rev@[m] == ids0[n - 1 - m],
                ids@.len() == n - k,
                forall|m: int| 0 <= m < ids@.len() ==> #[trigger] ids@[m] == ids0[m],
            decreases k,
        {
            k = k - 1;
            ids.push(rev[k]);
        }
        proof {
            assert(ids@ =~= ids0);
            assert(ids0.subrange(0, n as int) =~= ids0);
            assert forall|q: int| 0 <= q < n implies #[trigger] items0[q].ident.id == ids0[q] by {}
        }
        ids
    }

    fn visit_fields(&mut self, items: Vec<Field>) -> (r: Vec<DefId>)
        ensures
            r@ == items@.map_values(|x: Field| x.ident.id),
            forall|x: DefId| !r@.contains(x) ==> #[trigger] final(self).get(x) == old(self).get(x),
            r@.no_duplicates() ==> forall|k: int| 0 <= k < items@.len() ==>
                #[trigger] final(self).get(items@[k].ident.id) == Some(Def::FieldDef(items@[k].fldtype)),
    {
        let ghost items0 = items@;
        let ghost ids0 = items@.map_values(|x: Field| x.ident.id);
        let mut items = items;
        let n = items.len();
        let mut rev: Vec<DefId> = Vec::new();
        while items.len() > 0
            invariant
                items@.len() <= n,
                n == items0.len(),
                ids0 == items0.map_values(|x: Field| x.ident.id),
                items@ == items0.subrange(0, items@.len() as int),
                rev@.len() == n - items@.len(),
                forall|k: int| 0 <= k < rev@.len() ==> #[trigger] rev@[k] == ids0[n - 1 - k],
                forall|x: DefId| !ids0.subrange(items@.len() as int, n as int).contains(x) ==> #[trigger] self.get(x) == old(self).get(x),
                ids0.no_duplicates() ==> forall|k: int| items@.len() <= k < n ==>
                    #[trigger] self.get(ids0[k]) == Some(Def::FieldDef(items0[k].fldtype)),
            decreases items@.len(),
        {
            let ghost j = items@.len() - 1;
            let a = items.pop().unwrap();
            proof {
                assert(a == items0[j]);
                assert(items@ =~= items0.subrange(0, j));
            }
            rev.push(a.ident.id);
            self.insert(a.ident.id, Def::FieldDef(a.fldtype));
            proof {
                assert(ids0[j] == a.ident.id);
                assert forall|x: DefId| !ids0.subrange(j, n as int).contains(x) implies #[trigger] self.get(x) == old(self).get(x) by {
                    assert(ids0.subrange(j, n as int)[0] == ids0[j]);
                    if ids0.subrange(j + 1, n as int).contains(x) {
                        let q = choose|q: int| 0 <= q < n - j - 1 && #[trigger] ids0.subrange(j + 1, n as int)[q] == x;
                        assert(ids0.subrange(j, n as int)[q + 1] == x);
                    }
                }
                if ids0.no_duplicates() {
                    assert forall|k: int| j <= k < n implies #[trigger] self.get(ids0[k]) == Some(Def::FieldDef(items0[k].fldtype)) by {
                        if k > j {
                            assert(ids0[k] != ids0[j]);
                        }
                    }
                }
            }
        }
        let mut ids: Vec<DefId> = Vec::new();
        let mut k: usize = rev.len();
        while k > 0
            invariant
                k <= rev@.len() == n,
                ids0.len() == n,
                forall|m: int| 0 <= m < rev@.len() ==> #[trigger] rev@[m] == ids0[n - 1 - m],
                ids@.len() == n - k,
                forall|m: int| 0 <= m < ids@.len() ==> #[trigger] ids@[m] == ids0[m],
            decreases k,
        {
            k = k - 1;
            ids.push(rev[k]);
        }
        proof {
            assert(ids@ =~= ids0);
            assert(ids0.subrange(0, n as int) =~= ids0);
            assert forall|q: int| 0 <= q < n implies #[trigger] items0[q].ident.id == ids0[q] by {}
        }
        ids
    }

    fn visit_variants(&mut self, items: Vec<Variant>) -> (r: Vec<DefId>)
        ensures
            r@ == items@.map_values(|x: Variant| x.ident.id),
            forall|x: DefId| !r@.contains(x) ==> #[trigger] final(self).get(x) == old(self).get(x),
            r@.no_duplicates() ==> forall|k: int| 0 <= k < items@.len() ==>
                #[trigger] final(self).get(items@[k].ident.id) == Some(Def::VariantDef(items@[k].args)),
    {
        let ghost items0 = items@;
        let ghost ids0 = items@.map_values(|x: Variant| x.ident.id);
        let mut items = items;
        let n = items.len();
        let mut rev: Vec<DefId> = Vec::new();
        while items.len() > 0
            invariant
                items@.len() <= n,
                n == items0.len(),
                ids0 == items0.map_values(|x: Variant| x.ident.id),
                items@ == items0.subrange(0, items@.len() as int),
                rev@.len() == n - items@.len(),
                forall|k: int| 0 <= k < rev@.len() ==> #[trigger] rev@[k] == ids0[n - 1 - k],
                forall|x: DefId| !ids0.subrange(items@.len() as int, n as int).contains(x) ==> #[trigger] self.get(x) == old(self).get(x),
                ids0.no_duplicates() ==> forall|k: int| items@.len() <= k < n ==>
                    #[trigger] self.get(ids0[k]) == Some(Def::VariantDef(items0[k].args)),
            decreases items@.len(),
        {
            let ghost j = items@.len() - 1;
            let a = items.pop().unwrap();
            proof {
                assert(a == items0[j]);
                assert(items@ =~= items0.subrange(0, j));
            }
            rev.push(a.ident.id);
            self.insert(a.ident.id, Def::VariantDef(a.args));
            proof {
                assert(ids0[j] == a.ident.id);
                assert forall|x: DefId| !ids0.subrange(j, n as int).contains(x) implies #[trigger] self.get(x) == old(self).get(x) by {
                    assert(ids0.subrange(j, n as int)[0] == ids0[j]);
                    if ids0.subrange(j + 1, n as int).contains(x) {
                        let q = choose|q: int| 0 <= q < n - j - 1 && #[trigger] ids0.subrange(j + 1, n as int)[q] == x;
                        assert(ids0.subrange(j, n as int)[q + 1] == x);
                    }
                }
                if ids0.no_duplicates() {
                    assert forall|k: int| j <= k < n implies #[trigger] self.get(ids0[k]) == Some(Def::VariantDef(items0[k].args)) by {
                        if k > j {
                            assert(ids0[k] != ids0[j]);
                        }
                    }
                }
            }
        }
        let mut ids: Vec<DefId> = Vec::new();
        let mut k: usize = rev.len();
        while k > 0
            invariant
                k <= rev@.len() == n,
                ids0.len() == n,
                forall|m: int| 0 <= m < rev@.len() ==> #[trigger] rev@[m] == ids0[n - 1 - m],
                ids@.len() == n - k,
                forall|m: int| 0 <= m < ids@.len() ==> #[trigger] ids@[m] == ids0[m],
            decreases k,
        {
            k = k - 1;
            ids.push(rev[k]);
        }
        proof {
            assert(ids@ =~= ids0);
            assert(ids0.subrange(0, n as int) =~= ids0);
            assert forall|q: int| 0 <= q < n implies #[trigger] items0[q].ident.id == ids0[q] by {}
        }
        ids
    }

    /// Records each type parameter as a type definition; returns their ids.
    fn visit_type_params(&mut self, tps: Vec<Ident>) -> (r: Vec<DefId>)
        ensures
            r@ == ident_ids(tps@),
            forall|x: DefId| !r@.contains(x) ==> #[trigger] final(self).get(x) == old(self).get(x),
            forall|k: int| 0 <= k < tps@.len() ==> #[trigger] final(self).get(tps@[k].id) == Some(Def::TypeDef(Ty::UnitTy)),
    {
        let mut ids: Vec<DefId> = Vec::new();
        let mut i: usize = 0;
        while i < tps.len()
            invariant
                i <= tps@.len(),
                ids@ == ident_ids(tps@.subrange(0, i as int)),
                forall|x: DefId| !ids@.contains(x) ==> #[trigger] self.get(x) == old(self).get(x),
                forall|k: int| 0 <= k < i ==> #[trigger] self.get(tps@[k].id) == Some(Def::TypeDef(Ty::UnitTy)),
            decreases tps@.len() - i,
        {
            let tp = tps[i];
            let ghost before = ids@;
            self.insert(tp.id, Def::TypeDef(Ty::UnitTy));
            ids.push(tp.id);
            i = i + 1;
            assert(ids@ =~= ident_ids(tps@.subrange(0, i as int)));
            proof {
                assert forall|x: DefId| !ids@.contains(x) implies #[trigger] self.get(x) == old(self).get(x) by {
                    assert(ids@[ids@.len() - 1] == tp.id);
                    if before.contains(x) {
                        let q = choose|q: int| 0 <= q < before.len() && before[q] == x;
                        assert(ids@[q] == x);
                    }
                }
            }
        }
        assert(tps@.subrange(0, tps@.len() as int) =~= tps@);
        ids
    }

    /// Records the definitions of a let statement list.
    fn visit_block(&mut self, stmts: Vec<Stmt>)
        ensures
            forall|x: DefId| !let_has(stmts@, x) ==> #[trigger] final(self).get(x) == old(self).get(x),
            lets_distinct(stmts@) ==> forall|k: int| 0 <= k < stmts@.len() ==>
                (#[trigger] stmts@[k] matches Stmt::LetStmt(id, t) ==> final(self).get(id.id) == Some(Def::LetDef(t))),
    {
        let ghost s0 = stmts@;
        let mut stmts = stmts;
        let n = stmts.len();
        while stmts.len() > 0
            invariant
                stmts@.len() <= n == s0.len(),
                stmts@ == s0.subrange(0, stmts@.len() as int),
                forall|x: DefId| !let_has(s0.subrange(stmts@.len() as int, n as int), x) ==> #[trigger] self.get(x) == old(self).get(x),
                lets_distinct(s0) ==> forall|k: int| stmts@.len() <= k < n ==>
                    (#[trigger] s0[k] matches Stmt::LetStmt(id, t) ==> self.get(id.id) == Some(Def::LetDef(t))),
            decreases stmts@.len(),
        {
            let ghost j = stmts@.len() - 1;
            let st = stmts.pop().unwrap();
            proof {
                assert(st == s0[j]);
                assert(stmts@ =~= s0.subrange(0, j));
            }
            match st {
                Stmt::LetStmt(ident, t) => {
                    self.insert(ident.id, Def::LetDef(t));
                },
                _ => {},
            }
            proof {
                let suf = s0.subrange(j, n as int);
                let suf1 = s0.subrange(j + 1, n as int);
                assert forall|x: DefId| !let_has(suf, x) implies #[trigger] self.get(x) == old(self).get(x) by {
                    if let_has(suf1, x) {
                        let q = choose|q: int| 0 <= q < suf1.len() && #[trigger] let_at(suf1[q], x);
                        assert(suf[q + 1] == suf1[q]);
                    }
                    if s0[j] is LetStmt {
                        assert(suf[0] == s0[j]);
                        assert(!let_at(suf[0], x));
                    }
                }
                if lets_distinct(s0) {
                    assert forall|k: int| j <= k < n implies
                        (#[trigger] s0[k] matches Stmt::LetStmt(id, t) ==> self.get(id.id) == Some(Def::LetDef(t))) by {
                        if k > j && s0[k] is LetStmt && s0[j] is LetStmt {
                            assert(s0[k]->LetStmt_0.id != s0[j]->LetStmt_0.id);
                        }
                    }
                }
            }
        }
        assert(s0.subrange(0, n as int) =~= s0);
    }

    /// Records the definitions that `item` introduces: the item itself, its
    /// arguments, fields or variants, its type parameters, and the lets of a
    /// function body. Where the ids of the item are all distinct, each gets
    /// its own definition and no other id changes.
    pub fn visit_item(&mut self, item: Item)
        ensures
            item matches Item::FuncItem(ident, args, ret, _, tps) ==> final(self).get(ident.id) matches Some(Def::FuncDef(a, t, p))
                && a@ == args@.map_values(|x: FuncArg| x.ident.id) && t == ret && p@ == ident_ids(tps@),
            item matches Item::StructItem(ident, fields, tps) ==> final(self).get(ident.id) matches Some(Def::StructDef(f, p))
                && f@ == fields@.map_values(|x: Field| x.ident.id) && p@ == ident_ids(tps@),
            item matches Item::EnumItem(ident, variants, tps) ==> final(self).get(ident.id) matches Some(Def::EnumDef(v, p))
                && v@ == variants@.map_values(|x: Variant| x.ident.id) && p@ == ident_ids(tps@),
            ids_distinct(item) ==> entries_recorded(item, *final(self)),
            forall|x: DefId| !item_has(item, x) ==> #[trigger] final(self).get(x) == old(self).get(x),
    {
        let ghost item0 = item;
        match item {
            Item::FuncItem(ident, args, ret, body, tps) => {
                let ghost args0 = args@;
                let ghost tps0 = tps@;
                let ghost body0 = body@;
                let ghost m0 = *self;
                let ids = self.visit_args(args);
                let ghost m1 = *self;
                let tp_def_ids = self.visit_type_params(tps);
                let ghost m2 = *self;
                self.visit_block(body);
                let ghost m3 = *self;
                self.insert(ident.id, Def::FuncDef(ids, ret, tp_def_ids));
                proof {
                    let a = args0.map_values(|x: FuncArg| x.ident.id);
                    let t = ident_ids(tps0);
                    if ids_distinct(item0) {
                        lemma_nodup_split(a + t, seq![ident.id]);
                        lemma_nodup_split(a, t);
                        let all = a + t + seq![ident.id];
                        assert(all[(a + t).len() as int] == ident.id);
                        assert(seq![ident.id][0] == ident.id);
                        assert forall|k: int| 0 <= k < args0.len() implies
                            #[trigger] self.get(args0[k].ident.id) == Some(Def::FuncArgDef(args0[k].argtype)) by {
                            assert(a[k] == args0[k].ident.id);
                            assert((a + t)[k] == a[k]);
                            assert(all[k] == a[k]);
                            assert((a + t).contains(a[k]));
                            assert(!t.contains(a[k]));
                            assert(!let_has(body0, a[k]));
                            assert(a[k] != ident.id);
                        }
                        assert forall|k: int| 0 <= k < tps0.len() implies
                            #[trigger] self.get(tps0[k].id) == Some(Def::TypeDef(Ty::UnitTy)) by {
                            assert(t[k] == tps0[k].id);
                            assert((a + t)[a.len() + k] == t[k]);
                            assert(all[a.len() + k] == t[k]);
                            assert((a + t).contains(t[k]));
                            assert(!let_has(body0, t[k]));
                            assert(t[k] != ident.id);
                        }
                        assert forall|k: int| 0 <= k < body0.len() implies
                            (#[trigger] body0[k] matches Stmt::LetStmt(id, ty) ==> self.get(id.id) == Some(Def::LetDef(ty))) by {
                            if body0[k] is LetStmt {
                                let id = body0[k]->LetStmt_0;
                                assert(let_at(body0[k], id.id));
                                assert(let_has(body0, id.id));
                                assert(!all.contains(id.id));
                                assert(id.id != ident.id);
                            }
                        }
                    }
                    assert forall|x: DefId| !item_has(item0, x) implies #[trigger] self.get(x) == m0.get(x) by {
                        assert(!(a + t).contains(x) ==> !a.contains(x) && !t.contains(x)) by {
                            if a.contains(x) {
                                let q = choose|q: int| 0 <= q < a.len() && a[q] == x;
                                assert((a + t)[q] == x);
                            }
                            if t.contains(x) {
                                let q = choose|q: int| 0 <= q < t.len() && t[q] == x;
                                assert((a + t)[a.len() + q] == x);
                            }
                        }
                        assert((a + t + seq![ident.id])[(a + t).len() as int] == ident.id);
                        if (a + t).contains(x) {
                            let q = choose|q: int| 0 <= q < (a + t).len() && (a + t)[q] == x;
                            assert((a + t + seq![ident.id])[q] == x);
                        }
                    }
                }
            },
            Item::StructItem(ident, fields, tps) => {
                let ghost fields0 = fields@;
                let ghost tps0 = tps@;
                let ghost m0 = *self;
                let ids = self.visit_fields(fields);
                let tp_def_ids = self.visit_type_params(tps);
                self.insert(ident.id, Def::StructDef(ids, tp_def_ids));
                proof {
                    let a = fields0.map_values(|x: Field| x.ident.id);
                    let t = ident_ids(tps0);
                    if ids_distinct(item0) {
                        lemma_nodup_split(a + t, seq![ident.id]);
                        lemma_nodup_split(a, t);
                        let all = a + t + seq![ident.id];
                        assert(all[(a + t).len() as int] == ident.id);
                        assert(seq![ident.id][0] == ident.id);
                        assert forall|k: int| 0 <= k < fields0.len() implies
                            #[trigger] self.get(fields0[k].ident.id) == Some(Def::FieldDef(fields0[k].fldtype)) by {
                            assert(a[k] == fields0[k].ident.id);
                            assert((a + t)[k] == a[k]);
                            assert(all[k] == a[k]);
                            assert((a + t).contains(a[k]));
                            assert(!t.contains(a[k]));
                            assert(a[k] != ident.id);
                        }
                        assert forall|k: int| 0 <= k < tps0.len() implies
                            #[trigger] self.get(tps0[k].id) == Some(Def::TypeDef(Ty::UnitTy)) by {
                            assert(t[k] == tps0[k].id);
                            assert((a + t)[a.len() + k] == t[k]);
                            assert(all[a.len() + k] == t[k]);
                            assert((a + t).contains(t[k]));
                            assert(t[k] != ident.id);
                        }
                    }
                    assert forall|x: DefId| !item_has(item0, x) implies #[trigger] self.get(x) == m0.get(x) by {
                        assert(!(a + t).contains(x) ==> !a.contains(x) && !t.contains(x)) by {
                            if a.contains(x) {
                                let q = choose|q: int| 0 <= q < a.len() && a[q] == x;
                                assert((a + t)[q] == x);
                            }
                            if t.contains(x) {
                                let q = choose|q: int| 0 <= q < t.len() && t[q] == x;
                                assert((a + t)[a.len() + q] == x);
                            }
                        }
                        assert((a + t + seq![ident.id])[(a + t).len() as int] == ident.id);
                        if (a + t).contains(x) {
                            let q = choose|q: int| 0 <= q < (a + t).len() && (a + t)[q] == x;
                            assert((a + t + seq![ident.id])[q] == x);
                        }
                    }
                }
            },
            Item::EnumItem(ident, variants, tps) => {
                let ghost variants0 = variants@;
                let ghost tps0 = tps@;
                let ghost m0 = *self;
                let ids = self.visit_variants(variants);
                let tp_def_ids = self.visit_type_params(tps);
                self.insert(ident.id, Def::EnumDef(ids, tp_def_ids));
                proof {
                    let a = variants0.map_values(|x: Variant| x.ident.id);
                    let t = ident_ids(tps0);
                    if ids_distinct(item0) {
                        lemma_nodup_split(a + t, seq![ident.id]);
                        lemma_nodup_split(a, t);
                        let all = a + t + seq![ident.id];
                        assert(all[(a + t).len() as int] == ident.id);
                        assert(seq![ident.id][0] == ident.id);
                        assert forall|k: int| 0 <= k < variants0.len() implies
                            #[trigger] self.get(variants0[k].ident.id) == Some(Def::VariantDef(variants0[k].args)) by {
                            assert(a[k] == variants0[k].ident.id);
                            assert((a + t)[k] == a[k]);
                            assert(all[k] == a[k]);
                            assert((a + t).contains(a[k]));
                            assert(!t.contains(a[k]));
                            assert(a[k] != ident.id);
                        }
                        assert forall|k: int| 0 <= k < tps0.len() implies
                            #[trigger] self.get(tps0[k].id) == Some(Def::TypeDef(Ty::UnitTy)) by {
                            assert(t[k] == tps0[k].id);
                            assert((a + t)[a.len() + k] == t[k]);
                            assert(all[a.len() + k] == t[k]);
                            assert((a + t).contains(t[k]));
                            assert(t[k] != ident.id);
                        }
                    }
                    assert forall|x: DefId| !item_has(item0, x) implies #[trigger] self.get(x) == m0.get(x) by {
                        assert(!(a + t).contains(x) ==> !a.contains(x) && !t.contains(x)) by {
                            if a.contains(x) {
                                let q = choose|q: int| 0 <= q < a.len() && a[q] == x;
                                assert((a + t)[q] == x);
                            }
                            if t.contains(x) {
                                let q = choose|q: int| 0 <= q < t.len() && t[q] == x;
                                assert((a + t)[a.len() + q] == x);
                            }
                        }
                        assert((a + t + seq![ident.id])[(a + t).len() as int] == ident.id);
                        if (a + t).contains(x) {
                            let q = choose|q: int| 0 <= q < (a + t).len() && (a + t)[q] == x;
                            assert((a + t + seq![ident.id])[q] == x);
                        }
                    }
                }
            },
        }
    }
}

/// The statement is a let of `x`.
pub open spec fn let_at(st: Stmt, x: DefId) -> bool {
    st matches Stmt::LetStmt(id, _) && id.id == x
}

pub open spec fn let_has(stmts: Seq<Stmt>, x: DefId) -> bool {
    exists|k: int| 0 <= k < stmts.len() && #[trigger] let_at(stmts[k], x)
}

/// No two lets of the list define the same id.
pub open spec fn lets_distinct(stmts: Seq<Stmt>) -> bool {
    forall|k1: int, k2: int| 0 <= k1 < stmts.len() && 0 <= k2 < stmts.len() && k1 != k2
        && #[trigger] stmts[k1] is LetStmt && #[trigger] stmts[k2] is LetStmt ==>
        stmts[k1]->LetStmt_0.id != stmts[k2]->LetStmt_0.id
}

/// The ids an item defines besides its lets: its parts, its type parameters, itself.
pub open spec fn item_ids(item: Item) -> Seq<DefId> {
    match item {
        Item::FuncItem(ident, args, _, _, tps) => args@.map_values(|x: FuncArg| x.ident.id) + ident_ids(tps@) + seq![ident.id],
        Item::StructItem(ident, fields, tps) => fields@.map_values(|x: Field| x.ident.id) + ident_ids(tps@) + seq![ident.id],
        Item::EnumItem(ident, variants, tps) => variants@.map_values(|x: Variant| x.ident.id) + ident_ids(tps@) + seq![ident.id],
    }
}

/// No id of the item is defined twice, by its parts or by the lets of its body.
pub open spec fn ids_distinct(item: Item) -> bool {
    &&& item_ids(item).no_duplicates()
    &&& item matches Item::FuncItem(_, _, _, body, _) ==> lets_distinct(body@)
        && forall|x: DefId| let_has(body@, x) ==> !item_ids(item).contains(x)
}

pub open spec fn item_has(item: Item, x: DefId) -> bool {
    item_ids(item).contains(x) || (item matches Item::FuncItem(_, _, _, body, _) && let_has(body@, x))
}

/// Each part of the item, each type parameter and each let has its own definition.
pub open spec fn entries_recorded(item: Item, m: DefMap) -> bool {
    match item {
        Item::FuncItem(_, args, _, body, tps) =>
            (forall|k: int| 0 <= k < args@.len() ==> #[trigger] m.get(args@[k].ident.id) == Some(Def::FuncArgDef(args@[k].argtype)))
            && (forall|k: int| 0 <= k < tps@.len() ==> #[trigger] m.get(tps@[k].id) == Some(Def::TypeDef(Ty::UnitTy)))
            && (forall|k: int| 0 <= k < body@.len() ==>
                (#[trigger] body@[k] matches Stmt::LetStmt(id, t) ==> m.get(id.id) == Some(Def::LetDef(t)))),
        Item::StructItem(_, fields, tps) =>
            (forall|k: int| 0 <= k < fields@.len() ==> #[trigger] m.get(fields@[k].ident.id) == Some(Def::FieldDef(fields@[k].fldtype)))
            && (forall|k: int| 0 <= k < tps@.len() ==> #[trigger] m.get(tps@[k].id) == Some(Def::TypeDef(Ty::UnitTy))),
        Item::EnumItem(_, variants, tps) =>
            (forall|k: int| 0 <= k < variants@.len() ==> #[trigger] m.get(variants@[k].ident.id) == Some(Def::VariantDef(variants@[k].args)))
            && (forall|k: int| 0 <= k < tps@.len() ==> #[trigger] m.get(tps@[k].id) == Some(Def::TypeDef(Ty::UnitTy))),
    }
}

proof fn lemma_nodup_split(a: Seq<DefId>, b: Seq<DefId>)
    requires
        (a + b).no_duplicates(),
    ensures
        a.no_duplicates(),
        b.no_duplicates(),
        forall|x: DefId| a.contains(x) ==> !b.contains(x),
{
    assert forall|i: int, j: int| 0 <= i < a.len() && 0 <= j < a.len() && i != j implies a[i] != a[j] by {
        assert((a + b)[i] == a[i] && (a + b)[j] == a[j]);
    }
    assert forall|i: int, j: int| 0 <= i < b.len() && 0 <= j < b.len() && i != j implies b[i] != b[j] by {
        assert((a + b)[a.len() + i] == b[i] && (a + b)[a.len() + j] == b[j]);
    }
    assert forall|x: DefId| a.contains(x) implies !b.contains(x) by {
        let i = choose|i: int| 0 <= i < a.len() && a[i] == x;
        if b.contains(x) {
            let j = choose|j: int| 0 <= j < b.len() && b[j] == x;
            assert((a + b)[i] == (a + b)[a.len() + j]);
        }
    }
}

} // verus!
