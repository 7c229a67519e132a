use mc::defmap::{Def, DefId, DefMap};
use mc::size_of::{alignment, offset_of, packed_size, size_of_def, size_of_ty};
use mc::types::Ty;
use mc::util::Width;

fn u32_ty() -> Ty {
    Ty::UintTy(Width::Width32)
}

fn u8_ty() -> Ty {
    Ty::UintTy(Width::Width8)
}

fn test_ty_size(t: Ty, expected_size: u64) {
    assert_eq!(size_of_ty(&t), expected_size);
}

#[test]
fn test_sizeof_basic() {
    test_ty_size(u32_ty(), 4);
    test_ty_size(Ty::ArrayTy(Box::new(u32_ty()), Some(2)), 8);
    test_ty_size(Ty::BoolTy, 1);
    test_ty_size(Ty::ArrayTy(Box::new(Ty::BoolTy), Some(4)), 4);
    test_ty_size(Ty::FuncTy(vec![u32_ty(), u32_ty()], Box::new(u32_ty())), 4);
    test_ty_size(Ty::PtrTy(Box::new(Ty::ArrayTy(Box::new(u32_ty()), Some(5)))), 4);
    test_ty_size(Ty::TupleTy(vec![u32_ty(), Ty::BoolTy, u32_ty()]), 12);
    test_ty_size(Ty::TupleTy(vec![Ty::BoolTy, Ty::BoolTy, u32_ty()]), 8);
    test_ty_size(Ty::TupleTy(vec![u32_ty(), Ty::BoolTy]), 5);
}

#[test]
fn test_packed_size() {
    assert_eq!(packed_size(&vec![1]), 1);
    assert_eq!(packed_size(&vec![2]), 2);
    assert_eq!(packed_size(&vec![3]), 3);
    assert_eq!(packed_size(&vec![4]), 4);
    assert_eq!(packed_size(&vec![4, 1]), 5);
    assert_eq!(packed_size(&vec![1, 4]), 8);
    assert_eq!(packed_size(&vec![4, 1, 4]), 12);
    assert_eq!(packed_size(&vec![1, 4, 4]), 12);
    assert_eq!(packed_size(&vec![4, 4, 1]), 9);
    assert_eq!(packed_size(&vec![4, 1, 1]), 6);
    assert_eq!(packed_size(&vec![1, 1, 4]), 8);
    assert_eq!(packed_size(&vec![3, 1]), 4);
    assert_eq!(packed_size(&vec![1, 3]), 7);
}

fn test_offset_helper(sizes: &Vec<u64>, expected: &Vec<u64>) {
    for i in 0..sizes.len() {
        assert_eq!(offset_of(sizes, i), expected[i]);
    }
}

#[test]
fn test_offset_of() {
    test_offset_helper(&vec![1, 2, 4, 1, 2], &vec![0, 2, 4, 8, 10]);
    test_offset_helper(&vec![2, 1, 4, 2, 1], &vec![0, 2, 4, 8, 10]);
    test_offset_helper(&vec![4, 4, 1, 4, 2, 1], &vec![0, 4, 8, 12, 16, 18]);
    test_offset_helper(&vec![1, 1, 1, 1, 1], &vec![0, 1, 2, 3, 4]);
}

/// An enum at id 0 whose variants (ids 1, 2, ...) take the given argument types.
fn enum_size(variants: Vec<Vec<Ty>>) -> u64 {
    let mut m = DefMap::new();
    let mut ids = Vec::new();
    let mut next = 1u64;
    for args in variants {
        m.insert(DefId(next), Def::VariantDef(args));
        ids.push(DefId(next));
        next += 1;
    }
    m.insert(DefId(0), Def::EnumDef(ids, Vec::new()));
    size_of_def(&m, &DefId(0))
}

/// A struct at id 0 whose fields (ids 1, 2, ...) have the given types.
fn struct_size(fields: Vec<Ty>) -> u64 {
    let mut m = DefMap::new();
    let mut ids = Vec::new();
    let mut next = 1u64;
    for t in fields {
        m.insert(DefId(next), Def::FieldDef(t));
        ids.push(DefId(next));
        next += 1;
    }
    m.insert(DefId(0), Def::StructDef(ids, Vec::new()));
    size_of_def(&m, &DefId(0))
}

#[test]
fn test_sizeof_enum() {
    assert_eq!(enum_size(vec![vec![], vec![]]), 4);
    assert_eq!(enum_size(vec![vec![u32_ty()], vec![]]), 8);
    assert_eq!(enum_size(vec![vec![u32_ty()], vec![u32_ty()]]), 8);
    assert_eq!(enum_size(vec![vec![u32_ty()], vec![u8_ty()]]), 8);
    assert_eq!(enum_size(vec![vec![u32_ty()], vec![u8_ty(), u8_ty()]]), 8);
    assert_eq!(enum_size(vec![vec![u32_ty()], vec![u8_ty(), u32_ty()]]), 12);
}

#[test]
fn test_sizeof_struct() {
    assert_eq!(struct_size(vec![]), 0);
    assert_eq!(struct_size(vec![u32_ty()]), 4);
    assert_eq!(struct_size(vec![u32_ty(), u32_ty()]), 8);
    assert_eq!(struct_size(vec![Ty::TupleTy(vec![u32_ty(), u32_ty()]), u32_ty()]), 12);
    assert_eq!(struct_size(vec![u8_ty()]), 1);
    assert_eq!(struct_size(vec![u8_ty(), u32_ty()]), 8);
}

#[test]
fn alignment_is_one_two_or_four() {
    for s in 1..20u64 {
        let a = alignment(s);
        assert!(a == 1 || a == 2 || a == 4);
    }
    assert_eq!(alignment(3), 4);
    assert_eq!(alignment(2), 2);
}

#[test]
fn packed_size_of_one_item_is_its_size() {
    for s in 0..20u64 {
        assert_eq!(packed_size(&vec![s]), s);
    }
}

#[test]
fn packed_size_grows_by_padding_and_size() {
    let xs = vec![1u64, 2, 1];
    let base = packed_size(&xs);
    let mut ys = xs.clone();
    ys.push(4);
    // 4 bytes so far plus the 4-byte item: padded to 4, total 8.
    assert_eq!(base, 5);
    assert_eq!(packed_size(&ys), base + 3 + 4);
}

#[test]
fn sizes_of_widths_and_unit() {
    assert_eq!(size_of_ty(&Ty::IntTy(Width::Width16)), 2);
    assert_eq!(size_of_ty(&Ty::IntTy(Width::AnyWidth)), 4);
    assert_eq!(size_of_ty(&Ty::GenericIntTy), 4);
    assert_eq!(size_of_ty(&Ty::StrTy), 4);
    assert_eq!(size_of_ty(&Ty::UnitTy), 0);
}

#[test]
fn size_of_variant_def() {
    let mut m = DefMap::new();
    m.insert(DefId(3), Def::VariantDef(vec![u8_ty(), u32_ty()]));
    assert_eq!(size_of_def(&m, &DefId(3)), 8);
    assert!(m.find(&DefId(4)).is_none());
}
