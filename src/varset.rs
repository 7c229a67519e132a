use vstd::prelude::*;
use crate::ir::Var;

verus! {

pub proof fn lemma_push_to_set(s: Seq<Var>, x: Var)
    ensures
        s.push(x).to_set() == s.to_set().insert(x),
{
    assert(s.push(x) =~= s + seq![x]);
    Seq::<Var>::lemma_to_set_insert_commutes(s, x);
}

pub proof fn lemma_single_to_set(x: Var)
    ensures
        seq![x].to_set() == set![x],
{
    lemma_push_to_set(Seq::<Var>::empty(), x);
    assert(Seq::<Var>::empty().push(x) =~= seq![x]);
    assert(Seq::<Var>::empty().to_set() =~= Set::<Var>::empty());
    assert(Set::<Var>::empty().insert(x) =~= set![x]);
}

/// Whether `x` occurs in `v`.
pub fn contains(v: &Vec<Var>, x: &Var) -> (r: bool)
    ensures
        r == v@.contains(*x),
{
    let mut i: usize = 0;
    while i < v.len()
        invariant
            i <= v@.len(),
            forall|k: int| 0 <= k < i ==> v@[k] != *x,
        decreases v@.len() - i,
    {
        if v[i] == *x {
            return true;
        }
        i = i + 1;
    }
    false
}

/// Adds `x` to the set that `v` holds, keeping `v` free of repeats.
pub fn insert_var(v: &mut Vec<Var>, x: Var) -> (added: bool)
    requires
        old(v)@.no_duplicates(),
    ensures
        final(v)@.no_duplicates(),
        final(v)@.to_set() == old(v)@.to_set().insert(x),
        added == !old(v)@.contains(x),
        final(v)@.len() == old(v)@.len() + if added { 1int } else { 0int },
        !added ==> final(v)@ == old(v)@,
{
    if contains(v, &x) {
        proof {
            assert(old(v)@.to_set().insert(x) =~= old(v)@.to_set());
        }
        false
    } else {
        v.push(x);
        proof {
            assert(final(v)@.to_set() =~= old(v)@.to_set().insert(x)) by {
                assert forall|y: Var| final(v)@.contains(y) <==> old(v)@.contains(y) || y == x by {
                    if final(v)@.contains(y) {
                        let k = choose|k: int| 0 <= k < final(v)@.len() && final(v)@[k] == y;
                        if k < old(v)@.len() {
                            assert(old(v)@[k] == y);
                        }
                    }
                    if old(v)@.contains(y) {
                        let k = choose|k: int| 0 <= k < old(v)@.len() && old(v)@[k] == y;
                        assert(final(v)@[k] == y);
                    }
                    if y == x {
                        assert(final(v)@[old(v)@.len() as int] == y);
                    }
                }
            }
        }
        true
    }
}

/// Adds every element of `src` to the set that `dst` holds; says whether `dst` grew.
pub fn insert_all(dst: &mut Vec<Var>, src: &Vec<Var>) -> (grew: bool)
    requires
        old(dst)@.no_duplicates(),
    ensures
        final(dst)@.no_duplicates(),
        final(dst)@.to_set() == old(dst)@.to_set() + src@.to_set(),
        grew == (final(dst)@.len() != old(dst)@.len()),
        !grew ==> final(dst)@ == old(dst)@,
{
    let mut grew = false;
    let mut i: usize = 0;
    while i < src.len()
        invariant
            i <= src@.len(),
            dst@.no_duplicates(),
            dst@.to_set() == old(dst)@.to_set() + src@.subrange(0, i as int).to_set(),
            dst@.len() >= old(dst)@.len(),
            grew == (dst@.len() != old(dst)@.len()),
            !grew ==> dst@ == old(dst)@,
        decreases src@.len() - i,
    {
        let a = insert_var(dst, src[i]);
        if a {
            grew = true;
        }
        proof {
            assert(src@.subrange(0, i + 1) =~= src@.subrange(0, i as int).push(src@[i as int]));
            lemma_push_to_set(src@.subrange(0, i as int), src@[i as int]);
            assert(dst@.to_set() =~= old(dst)@.to_set() + src@.subrange(0, i + 1).to_set());
        }
        i = i + 1;
    }
    assert(src@.subrange(0, src@.len() as int) =~= src@);
    grew
}

/// The elements of `a` that are not in `b`, in order.
pub fn difference(a: &Vec<Var>, b: &Vec<Var>) -> (r: Vec<Var>)
    requires
        a@.no_duplicates(),
    ensures
        r@.no_duplicates(),
        r@.to_set() == a@.to_set() - b@.to_set(),
{
    let mut r: Vec<Var> = Vec::new();
    let mut i: usize = 0;
    while i < a.len()
        invariant
            i <= a@.len(),
            a@.no_duplicates(),
            r@.no_duplicates(),
            r@.to_set() == a@.subrange(0, i as int).to_set() - b@.to_set(),
        decreases a@.len() - i,
    {
        let x = a[i];
        if !contains(b, &x) {
            insert_var(&mut r, x);
        }
        proof {
            assert(a@.subrange(0, i + 1) =~= a@.subrange(0, i as int).push(x));
            lemma_push_to_set(a@.subrange(0, i as int), x);
            assert(r@.to_set() =~= a@.subrange(0, i + 1).to_set() - b@.to_set());
        }
        i = i + 1;
    }
    assert(a@.subrange(0, a@.len() as int) =~= a@);
    r
}


/// A sequence without repeats whose elements all lie in another such
/// sequence is no longer than it.
pub proof fn lemma_len_within(s: Seq<Var>, u: Seq<Var>)
    requires
        s.no_duplicates(),
        u.no_duplicates(),
        s.to_set().subset_of(u.to_set()),
    ensures
        s.len() <= u.len(),
{
    s.unique_seq_to_set();
    u.unique_seq_to_set();
    vstd::seq_lib::seq_to_set_is_finite(u);
    vstd::set_lib::lemma_len_subset(s.to_set(), u.to_set());
}

} // verus!
