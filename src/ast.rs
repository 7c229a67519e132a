use vstd::prelude::*;
use crate::util::Name;
use crate::defmap::DefId;
use crate::types::Ty;

verus! {

/// A name at a place in the tree; `id` is the definition's id.
#[derive(PartialEq, Eq, Clone, Copy, Debug, Structural)]
pub struct Ident {
    pub name: Name,
    pub id: DefId,
}

#[derive(Debug)]
pub struct FuncArg {
    pub ident: Ident,
    pub argtype: Ty,
}

#[derive(Debug)]
pub struct Field {
    pub ident: Ident,
    pub fldtype: Ty,
}

#[derive(Debug)]
pub struct Variant {
    pub ident: Ident,
    pub args: Vec<Ty>,
}

/// A statement of a function body, as far as definitions are concerned.
#[derive(Debug)]
pub enum Stmt {
    /// `let ident: ty;` with an optional type annotation.
    LetStmt(Ident, Option<Ty>),
    /// Any other statement; it defines nothing.
    ExprStmt,
}

/// A top-level item.
#[derive(Debug)]
pub enum Item {
    /// Name, arguments, return type, body, type parameters.
    FuncItem(Ident, Vec<FuncArg>, Ty, Vec<Stmt>, Vec<Ident>),
    /// Name, fields, type parameters.
    StructItem(Ident, Vec<Field>, Vec<Ident>),
    /// Name, variants, type parameters.
    EnumItem(Ident, Vec<Variant>, Vec<Ident>),
}

} // verus!
