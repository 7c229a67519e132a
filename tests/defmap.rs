use mc::ast::{Field, FuncArg, Ident, Item, Stmt, Variant};
use mc::defmap::{Def, DefId, DefMap};
use mc::types::Ty;
use mc::util::{Name, Width};

fn ident(name: usize, id: u64) -> Ident {
    Ident { name: Name(name), id: DefId(id) }
}

#[test]
fn compare_canonicalized() {
    // fn wot<T>(t: T) { let u = t; }
    let item = Item::FuncItem(
        ident(10, 0),
        vec![FuncArg { ident: ident(11, 2), argtype: Ty::BoundTy(1) }],
        Ty::UnitTy,
        vec![Stmt::LetStmt(ident(12, 4), None), Stmt::ExprStmt],
        vec![ident(13, 1)],
    );
    let mut m = DefMap::new();
    m.visit_item(item);
    match m.find(&DefId(0)) {
        Some(Def::FuncDef(args, ret, tps)) => {
            assert_eq!(*args, vec![DefId(2)]);
            assert!(matches!(ret, Ty::UnitTy));
            assert_eq!(*tps, vec![DefId(1)]);
        },
        other => panic!("unexpected definition {:?}", other),
    }
    assert!(matches!(m.find(&DefId(4)), Some(Def::LetDef(None))));
    assert!(matches!(m.find(&DefId(2)), Some(Def::FuncArgDef(Ty::BoundTy(1)))));
    assert!(matches!(m.find(&DefId(1)), Some(Def::TypeDef(_))));
}

#[test]
fn struct_and_enum_items() {
    let s = Item::StructItem(
        ident(1, 10),
        vec![
            Field { ident: ident(2, 11), fldtype: Ty::UintTy(Width::Width8) },
            Field { ident: ident(3, 12), fldtype: Ty::UintTy(Width::Width32) },
        ],
        vec![],
    );
    let e = Item::EnumItem(
        ident(4, 20),
        vec![
            Variant { ident: ident(5, 21), args: vec![Ty::UintTy(Width::Width32)] },
            Variant { ident: ident(6, 22), args: vec![] },
        ],
        vec![],
    );
    let mut m = DefMap::new();
    m.visit_item(s);
    m.visit_item(e);
    match m.find(&DefId(10)) {
        Some(Def::StructDef(fields, _)) => assert_eq!(*fields, vec![DefId(11), DefId(12)]),
        other => panic!("unexpected definition {:?}", other),
    }
    match m.find(&DefId(20)) {
        Some(Def::EnumDef(vs, _)) => assert_eq!(*vs, vec![DefId(21), DefId(22)]),
        other => panic!("unexpected definition {:?}", other),
    }
    assert_eq!(mc::size_of::size_of_def(&m, &DefId(10)), 8);
    assert_eq!(mc::size_of::size_of_def(&m, &DefId(20)), 8);
}
