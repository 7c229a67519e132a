use vstd::prelude::*;
use crate::util::Width;
use crate::size_of::packed;

verus! {

/// A resolved type, as the type checker hands it to the back end.
#[derive(Debug)]
pub enum Ty {
    BoolTy,
    IntTy(Width),
    UintTy(Width),
    GenericIntTy,
    StrTy,
    PtrTy(Box<Ty>),
    FuncTy(Vec<Ty>, Box<Ty>),
    UnitTy,
    /// An array of a known (or not yet known) length.
    ArrayTy(Box<Ty>, Option<u64>),
    TupleTy(Vec<Ty>),
    /// A type parameter that has not been substituted.
    BoundTy(u64),
    BottomTy,
}

pub open spec fn width_bytes(w: Width) -> int {
    match w {
        Width::Width16 => 2,
        Width::Width8 => 1,
        _ => 4,
    }
}

/// Size in bytes of a value of type `t`.
pub open spec fn ty_size(t: Ty) -> int
    decreases t,
{
    match t {
        Ty::BoolTy => 1,
        Ty::IntTy(w) => width_bytes(w),
        Ty::UintTy(w) => width_bytes(w),
        Ty::GenericIntTy => 4,
        Ty::StrTy => 4,
        Ty::PtrTy(_) => 4,
        Ty::FuncTy(_, _) => 4,
        Ty::UnitTy => 0,
        Ty::ArrayTy(e, n) => match n {
            Some(n) => ty_size(*e) * n,
            None => 0,
        },
        Ty::TupleTy(ts) => packed(tuple_sizes(ts@)),
        _ => 0,
    }
}

/// The sizes of the components of a tuple, in order.
pub open spec fn tuple_sizes(ts: Seq<Ty>) -> Seq<int>
    decreases ts,
{
    if ts.len() == 0 {
        Seq::empty()
    } else {
        tuple_sizes(ts.drop_last()).push(ty_size(ts.last()))
    }
}

/// `t` has a size, and neither it nor any part of it is larger than a `u64` holds.
pub open spec fn ty_fits(t: Ty) -> bool
    decreases t,
{
    &&& ty_size(t) <= u64::MAX
    &&& match t {
        Ty::ArrayTy(e, n) => n is Some && ty_fits(*e),
        Ty::TupleTy(ts) => all_fit(ts@),
        Ty::BoundTy(_) => false,
        Ty::BottomTy => false,
        _ => true,
    }
}

pub open spec fn all_fit(ts: Seq<Ty>) -> bool
    decreases ts,
{
    if ts.len() == 0 {
        true
    } else {
        all_fit(ts.drop_last()) && ty_fits(ts.last())
    }
}

} // verus!
