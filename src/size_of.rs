use vstd::prelude::*;
use crate::util::Width;
use crate::types::{Ty, ty_size, tuple_sizes, ty_fits, all_fit};
use crate::defmap::{Def, DefId, DefMap};

verus! {

/// The size of the tag that an enum value carries.
pub const ENUM_TAG_SIZE: u64 = 4;

pub open spec fn align_spec(size: int) -> int {
    if size > 2 { 4 } else { size }
}

/// Padding placed before an item of `size` bytes after `so_far` bytes.
pub open spec fn padding_spec(so_far: int, size: int) -> int {
    let a = align_spec(size);
    if a == 0 { 0 } else { (a - so_far % a) % a }
}

/// Total size of items of the given sizes laid out in order, each aligned.
pub open spec fn packed(xs: Seq<int>) -> int
    decreases xs.len(),
{
    if xs.len() == 0 {
        0
    } else {
        let p = packed(xs.drop_last());
        p + padding_spec(p, xs.last()) + xs.last()
    }
}

/// Offset of the item at `i`: what precedes it, then its own padding.
pub open spec fn offset_spec(xs: Seq<int>, i: int) -> int {
    let p = packed(xs.subrange(0, i));
    p + padding_spec(p, xs[i])
}

pub open spec fn ints(s: Seq<u64>) -> Seq<int> {
    s.map_values(|x: u64| x as int)
}

/// Return the alignment for an object of a certain size.
pub fn alignment(size: u64) -> (r: u64)
    ensures
        r == align_spec(size as int),
{
    if size > 2 {
        4
    } else {
        size
    }
}

fn padding_of(size_so_far: u64, size: u64) -> (r: u64)
    ensures
        r == padding_spec(size_so_far as int, size as int),
        r < 4,
{
    let this_alignment = alignment(size);
    if this_alignment == 0 {
        0
    } else {
        let offset = size_so_far % this_alignment;
        (this_alignment - offset) % this_alignment
    }
}

proof fn lemma_padding_small(so_far: int, size: int)
    requires
        so_far >= 0,
        size >= 0,
    ensures
        0 <= padding_spec(so_far, size) < 4,
{
}

proof fn lemma_packed_nonneg(xs: Seq<int>)
    requires
        forall|k: int| 0 <= k < xs.len() ==> xs[k] >= 0,
    ensures
        packed(xs) >= 0,
    decreases xs.len(),
{
    if xs.len() > 0 {
        lemma_packed_nonneg(xs.drop_last());
        lemma_padding_small(packed(xs.drop_last()), xs.last());
    }
}

/// Laying out more items never shrinks the total.
proof fn lemma_packed_prefix(xs: Seq<int>, i: int, j: int)
    requires
        0 <= i <= j <= xs.len(),
        forall|k: int| 0 <= k < xs.len() ==> xs[k] >= 0,
    ensures
        packed(xs.subrange(0, i)) <= packed(xs.subrange(0, j)),
    decreases j - i,
{
    if i < j {
        lemma_packed_prefix(xs, i, j - 1);
        let s = xs.subrange(0, j);
        assert(s.drop_last() =~= xs.subrange(0, j - 1));
        lemma_packed_nonneg(s.drop_last());
        lemma_padding_small(packed(s.drop_last()), s.last());
    }
}

proof fn lemma_ints_prefix(s: Seq<u64>, i: int)
    requires
        0 <= i < s.len(),
    ensures
        ints(s.subrange(0, i + 1)) == ints(s.subrange(0, i)).push(s[i] as int),
        ints(s.subrange(0, i + 1)).drop_last() == ints(s.subrange(0, i)),
        ints(s.subrange(0, i + 1)).last() == s[i] as int,
{
    assert(ints(s.subrange(0, i + 1)) =~= ints(s.subrange(0, i)).push(s[i] as int));
}

/// Return the total size, including padding for alignment, of a structure
/// whose members have the sizes given by `sizes`.
pub fn packed_size(sizes: &Vec<u64>) -> (r: u64)
    requires
        packed(ints(sizes@)) <= u64::MAX,
    ensures
        r == packed(ints(sizes@)),
{
    let mut size_so_far: u64 = 0;
    let mut i: usize = 0;
    assert(sizes@.subrange(0, sizes@.len() as int) =~= sizes@);
    while i < sizes.len()
        invariant
            i <= sizes@.len(),
            packed(ints(sizes@)) <= u64::MAX,
            size_so_far == packed(ints(sizes@.subrange(0, i as int))),
        decreases sizes@.len() - i,
    {
        let size = sizes[i];
        proof {
            lemma_ints_prefix(sizes@, i as int);
            lemma_packed_prefix(ints(sizes@), i as int + 1, sizes@.len() as int);
            assert(ints(sizes@).subrange(0, i as int + 1) =~= ints(sizes@.subrange(0, i as int + 1)));
            assert(ints(sizes@).subrange(0, sizes@.len() as int) =~= ints(sizes@));
        }
        let p = padding_of(size_so_far, size);
        size_so_far = size_so_far + p + size;
        i = i + 1;
    }
    size_so_far
}

/// Offset of the item at `item`, including the padding placed before it.
pub fn offset_of(sizes: &Vec<u64>, item: usize) -> (r: u64)
    requires
        item < sizes@.len(),
        packed(ints(sizes@)) <= u64::MAX,
    ensures
        r == offset_spec(ints(sizes@), item as int),
{
    let mut size_so_far: u64 = 0;
    let mut i: usize = 0;
    while i < item
        invariant
            i <= item < sizes@.len(),
            packed(ints(sizes@)) <= u64::MAX,
            size_so_far == packed(ints(sizes@.subrange(0, i as int))),
        decreases item - i,
    {
        let size = sizes[i];
        proof {
            lemma_ints_prefix(sizes@, i as int);
            lemma_packed_prefix(ints(sizes@), i as int + 1, sizes@.len() as int);
            assert(ints(sizes@).subrange(0, i as int + 1) =~= ints(sizes@.subrange(0, i as int + 1)));
            assert(ints(sizes@).subrange(0, sizes@.len() as int) =~= ints(sizes@));
        }
        let p = padding_of(size_so_far, size);
        size_so_far = size_so_far + p + size;
        i = i + 1;
    }
    proof {
        assert(ints(sizes@).subrange(0, item as int) =~= ints(sizes@.subrange(0, item as int)));
        lemma_ints_prefix(sizes@, item as int);
        assert(ints(sizes@).subrange(0, item as int + 1) =~= ints(sizes@.subrange(0, item as int + 1)));
        lemma_packed_prefix(ints(sizes@), item as int + 1, sizes@.len() as int);
        assert(ints(sizes@).subrange(0, sizes@.len() as int) =~= ints(sizes@));
    }
    let p = padding_of(size_so_far, sizes[item]);
    size_so_far + p
}

/// The alignment of any size is 1, 2 or 4 (0 for an empty item).
pub proof fn lemma_alignment_values(s: u64)
    ensures
        s > 0 ==> (align_spec(s as int) == 1 || align_spec(s as int) == 2 || align_spec(s as int) == 4),
        s == 0 ==> align_spec(s as int) == 0,
{
}

/// An aggregate of a single item is exactly as large as that item.
pub proof fn lemma_packed_single(s: u64)
    ensures
        packed(ints(seq![s])) == s as int,
{
    assert(ints(seq![s]).drop_last() =~= Seq::<int>::empty());
    assert(ints(seq![s]).last() == s as int);
    assert(packed(Seq::<int>::empty()) == 0);
    let a = align_spec(s as int);
    if a != 0 {
        assert(0int % a == 0) by (nonlinear_arith) requires a > 0;
        assert((a - 0int) % a == 0) by (nonlinear_arith) requires a > 0;
    }
    assert(padding_spec(0, s as int) == 0);
}

/// Appending an item adds its padding and its own size to the total.
pub proof fn lemma_packed_push(xs: Seq<u64>, s: u64)
    ensures
        packed(ints(xs.push(s))) == packed(ints(xs)) + padding_spec(packed(ints(xs)), s as int) + s,
{
    assert(ints(xs.push(s)).drop_last() =~= ints(xs));
}


proof fn lemma_sizes_nonneg(t: Ty)
    ensures
        ty_size(t) >= 0,
    decreases t,
{
    match t {
        Ty::ArrayTy(e, n) => {
            if let Some(n) = n {
                lemma_sizes_nonneg(*e);
                assert(ty_size(*e) * n >= 0) by (nonlinear_arith)
                    requires ty_size(*e) >= 0, n >= 0;
            }
        },
        Ty::TupleTy(ts) => {
            lemma_tuple_sizes_nonneg(ts@);
            lemma_packed_nonneg(tuple_sizes(ts@));
        },
        _ => {},
    }
}

proof fn lemma_tuple_sizes_nonneg(ts: Seq<Ty>)
    ensures
        tuple_sizes(ts).len() == ts.len(),
        forall|k: int| 0 <= k < ts.len() ==> #[trigger] tuple_sizes(ts)[k] >= 0 && tuple_sizes(ts)[k] == ty_size(ts[k]),
    decreases ts,
{
    if ts.len() > 0 {
        lemma_tuple_sizes_nonneg(ts.drop_last());
        lemma_sizes_nonneg(ts.last());
        assert forall|k: int| 0 <= k < ts.len() implies #[trigger] tuple_sizes(ts)[k] >= 0 && tuple_sizes(ts)[k] == ty_size(ts[k]) by {
            if k < ts.len() - 1 {
                assert(tuple_sizes(ts)[k] == tuple_sizes(ts.drop_last())[k]);
                assert(ts[k] == ts.drop_last()[k]);
            }
        }
    }
}

proof fn lemma_all_fit(ts: Seq<Ty>, k: int)
    requires
        all_fit(ts),
        0 <= k < ts.len(),
    ensures
        ty_fits(ts[k]),
    decreases ts.len(),
{
    if k < ts.len() - 1 {
        lemma_all_fit(ts.drop_last(), k);
    }
}

/// Size in bytes of a value of type `ty`.
pub fn size_of_ty(ty: &Ty) -> (r: u64)
    requires
        ty_fits(*ty),
    ensures
        r == ty_size(*ty),
    decreases ty,
{
    match ty {
        Ty::BoolTy => 1,
        Ty::IntTy(w) | Ty::UintTy(w) => match w {
            Width::AnyWidth | Width::Width32 => 4,
            Width::Width16 => 2,
            Width::Width8 => 1,
        },
        Ty::GenericIntTy | Ty::StrTy | Ty::PtrTy(..) | Ty::FuncTy(..) => 4,
        Ty::UnitTy => 0,
        Ty::ArrayTy(t, l) => {
            let n = match l {
                Some(n) => *n,
                None => 0,
            };
            let e = size_of_ty(t);
            proof {
                lemma_sizes_nonneg(**t);
            }
            e * n
        },
        Ty::TupleTy(tys) => {
            let mut sizes: Vec<u64> = Vec::new();
            let mut i: usize = 0;
            proof {
                lemma_tuple_sizes_nonneg(tys@);
            }
            while i < tys.len()
                invariant
                    i <= tys@.len(),
                    ty_fits(*ty),
                    *ty == Ty::TupleTy(*tys),
                    sizes@.len() == i,
                    ints(sizes@) == tuple_sizes(tys@.subrange(0, i as int)),
                decreases tys@.len() - i,
            {
                proof {
                    lemma_all_fit(tys@, i as int);
                    assert(decreases_to!(tys => tys@));
                }
                let s = size_of_ty(&tys[i]);
                proof {
                    let sub = tys@.subrange(0, i as int + 1);
                    assert(sub.drop_last() =~= tys@.subrange(0, i as int));
                    assert(ints(sizes@.push(s)) =~= ints(sizes@).push(s as int));
                }
                sizes.push(s);
                i = i + 1;
            }
            assert(tys@.subrange(0, tys@.len() as int) =~= tys@);
            packed_size(&sizes)
        },
        Ty::BoundTy(..) | Ty::BottomTy => 0,
    }
}


/// The size of a variant's payload: its argument types laid out in order.
pub open spec fn payload_size(tys: Seq<Ty>) -> int {
    packed(tuple_sizes(tys))
}

/// The sizes of the fields `ids`, each of which must be a field definition.
pub open spec fn field_sizes(m: DefMap, ids: Seq<DefId>) -> Option<Seq<int>>
    decreases ids.len(),
{
    if ids.len() == 0 {
        Some(Seq::empty())
    } else {
        match (field_sizes(m, ids.drop_last()), m.get(ids.last())) {
            (Some(p), Some(Def::FieldDef(t))) => if ty_fits(t) { Some(p.push(ty_size(t))) } else { None },
            _ => None,
        }
    }
}

/// The payload sizes of the variants `ids`, each of which must be a variant definition.
pub open spec fn variant_sizes(m: DefMap, ids: Seq<DefId>) -> Option<Seq<int>>
    decreases ids.len(),
{
    if ids.len() == 0 {
        Some(Seq::empty())
    } else {
        match (variant_sizes(m, ids.drop_last()), m.get(ids.last())) {
            (Some(p), Some(Def::VariantDef(tys))) => if all_fit(tys@) && payload_size(tys@) <= u64::MAX {
                Some(p.push(payload_size(tys@)))
            } else {
                None
            },
            _ => None,
        }
    }
}

pub open spec fn seq_max(s: Seq<int>) -> int
    decreases s.len(),
{
    if s.len() == 0 {
        0
    } else {
        let m = seq_max(s.drop_last());
        if s.last() > m { s.last() } else { m }
    }
}

/// The size of the struct, enum or variant `id`; `None` for other definitions,
/// for an enum without variants, and where a part is missing or has no size.
/// An enum whose variants carry no data is just its tag; otherwise the tag is
/// followed by room for the largest variant.
pub open spec fn def_size(m: DefMap, id: DefId) -> Option<int> {
    match m.get(id) {
        Some(Def::StructDef(fields, _)) => match field_sizes(m, fields@) {
            Some(sz) => Some(packed(sz)),
            None => None,
        },
        Some(Def::EnumDef(vs, _)) => if vs@.len() == 0 {
            None
        } else {
            match variant_sizes(m, vs@) {
                Some(sz) => if seq_max(sz) == 0 { Some(4) } else { Some(packed(seq![4, seq_max(sz)])) },
                None => None,
            }
        },
        Some(Def::VariantDef(tys)) => if all_fit(tys@) { Some(payload_size(tys@)) } else { None },
        _ => None,
    }
}

proof fn lemma_seq_max_bound(s: Seq<int>, b: int)
    requires
        forall|k: int| 0 <= k < s.len() ==> 0 <= #[trigger] s[k] <= b,
        b >= 0,
    ensures
        0 <= seq_max(s) <= b,
    decreases s.len(),
{
    if s.len() > 0 {
        lemma_seq_max_bound(s.drop_last(), b);
    }
}

/// The size of a tuple of the types `tys`.
fn payload_size_exec(tys: &Vec<Ty>) -> (r: u64)
    requires
        all_fit(tys@),
        payload_size(tys@) <= u64::MAX,
    ensures
        r == payload_size(tys@),
{
    let mut sizes: Vec<u64> = Vec::new();
    let mut i: usize = 0;
    proof {
        lemma_tuple_sizes_nonneg(tys@);
    }
    while i < tys.len()
        invariant
            i <= tys@.len(),
            all_fit(tys@),
            sizes@.len() == i,
            ints(sizes@) == tuple_sizes(tys@.subrange(0, i as int)),
        decreases tys@.len() - i,
    {
        proof {
            lemma_all_fit(tys@, i as int);
        }
        let s = size_of_ty(&tys[i]);
        proof {
            let sub = tys@.subrange(0, i as int + 1);
            assert(sub.drop_last() =~= tys@.subrange(0, i as int));
            assert(ints(sizes@.push(s)) =~= ints(sizes@).push(s as int));
        }
        sizes.push(s);
        i = i + 1;
    }
    assert(tys@.subrange(0, tys@.len() as int) =~= tys@);
    packed_size(&sizes)
}

/// The size in bytes of the struct, enum or variant `node` of `defmap`.
pub fn size_of_def(defmap: &DefMap, node: &DefId) -> (r: u64)
    requires
        def_size(*defmap, *node) matches Some(n) && n <= u64::MAX,
    ensures
        def_size(*defmap, *node) == Some(r as int),
{
    match defmap.find(node) {
        Some(Def::StructDef(fields, _)) => {
            let mut sizes: Vec<u64> = Vec::new();
            let mut i: usize = 0;
            let ghost sz = field_sizes(*defmap, fields@)->0;
            proof {
                lemma_field_sizes(*defmap, fields@);
            }
            while i < fields.len()
                invariant
                    i <= fields@.len(),
                    field_sizes(*defmap, fields@) == Some(sz),
                    sizes@.len() == i,
                    ints(sizes@) == sz.subrange(0, i as int),
                    forall|k: int| 0 <= k < fields@.len() ==> (#[trigger] defmap.get(fields@[k])) is Some
                        && defmap.get(fields@[k])->0 is FieldDef && ty_fits(defmap.get(fields@[k])->0->FieldDef_0)
                        && sz[k] == ty_size(defmap.get(fields@[k])->0->FieldDef_0),
                    sz.len() == fields@.len(),
                decreases fields@.len() - i,
            {
                let s = match defmap.find(&fields[i]) {
                    Some(Def::FieldDef(t)) => size_of_ty(t),
                    _ => 0,
                };
                proof {
                    assert(ints(sizes@.push(s)) =~= sz.subrange(0, i as int + 1));
                }
                sizes.push(s);
                i = i + 1;
            }
            assert(sz.subrange(0, sz.len() as int) =~= sz);
            packed_size(&sizes)
        },
        Some(Def::EnumDef(variants, _)) => {
            let ghost sz = variant_sizes(*defmap, variants@)->0;
            proof {
                lemma_variant_sizes(*defmap, variants@);
            }
            let mut max_variant_size: u64 = 0;
            let mut i: usize = 0;
            while i < variants.len()
                invariant
                    i <= variants@.len(),
                    variant_sizes(*defmap, variants@) == Some(sz),
                    sz.len() == variants@.len(),
                    max_variant_size == seq_max(sz.subrange(0, i as int)),
                    forall|k: int| 0 <= k < variants@.len() ==> (#[trigger] defmap.get(variants@[k])) is Some
                        && defmap.get(variants@[k])->0 is VariantDef && all_fit(defmap.get(variants@[k])->0->VariantDef_0@)
                        && sz[k] == payload_size(defmap.get(variants@[k])->0->VariantDef_0@) && sz[k] <= u64::MAX,
                decreases variants@.len() - i,
            {
                let s = match defmap.find(&variants[i]) {
                    Some(Def::VariantDef(tys)) => payload_size_exec(tys),
                    _ => 0,
                };
                proof {
                    assert(sz.subrange(0, i as int + 1).drop_last() =~= sz.subrange(0, i as int));
                }
                if s > max_variant_size {
                    max_variant_size = s;
                }
                i = i + 1;
            }
            assert(sz.subrange(0, sz.len() as int) =~= sz);
            if max_variant_size == 0 {
                ENUM_TAG_SIZE
            } else {
                let v = vec![ENUM_TAG_SIZE, max_variant_size];
                proof {
                    assert(ints(v@) =~= seq![4int, seq_max(sz)]);
                }
                packed_size(&v)
            }
        },
        Some(Def::VariantDef(types)) => payload_size_exec(types),
        _ => 0,
    }
}

proof fn lemma_field_sizes(m: DefMap, ids: Seq<DefId>)
    requires
        field_sizes(m, ids) is Some,
    ensures
        field_sizes(m, ids)->0.len() == ids.len(),
        forall|k: int| 0 <= k < ids.len() ==> (#[trigger] m.get(ids[k])) is Some
            && m.get(ids[k])->0 is FieldDef && ty_fits(m.get(ids[k])->0->FieldDef_0)
            && field_sizes(m, ids)->0[k] == ty_size(m.get(ids[k])->0->FieldDef_0),
    decreases ids.len(),
{
    if ids.len() > 0 {
        lemma_field_sizes(m, ids.drop_last());
        assert forall|k: int| 0 <= k < ids.len() implies (#[trigger] m.get(ids[k])) is Some
            && m.get(ids[k])->0 is FieldDef && ty_fits(m.get(ids[k])->0->FieldDef_0)
            && field_sizes(m, ids)->0[k] == ty_size(m.get(ids[k])->0->FieldDef_0) by {
            if k < ids.len() - 1 {
                assert(ids.drop_last()[k] == ids[k]);
            }
        }
    }
}

proof fn lemma_variant_sizes(m: DefMap, ids: Seq<DefId>)
    requires
        variant_sizes(m, ids) is Some,
    ensures
        variant_sizes(m, ids)->0.len() == ids.len(),
        forall|k: int| 0 <= k < ids.len() ==> (#[trigger] m.get(ids[k])) is Some
            && m.get(ids[k])->0 is VariantDef && all_fit(m.get(ids[k])->0->VariantDef_0@)
            && variant_sizes(m, ids)->0[k] == payload_size(m.get(ids[k])->0->VariantDef_0@)
            && variant_sizes(m, ids)->0[k] <= u64::MAX,
    decreases ids.len(),
{
    if ids.len() > 0 {
        lemma_variant_sizes(m, ids.drop_last());
        assert forall|k: int| 0 <= k < ids.len() implies (#[trigger] m.get(ids[k])) is Some
            && m.get(ids[k])->0 is VariantDef && all_fit(m.get(ids[k])->0->VariantDef_0@)
            && variant_sizes(m, ids)->0[k] == payload_size(m.get(ids[k])->0->VariantDef_0@)
            && variant_sizes(m, ids)->0[k] <= u64::MAX by {
            if k < ids.len() - 1 {
                assert(ids.drop_last()[k] == ids[k]);
            }
        }
    }
}

} // verus!
