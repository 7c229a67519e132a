pub mod util;
pub mod ir;
pub mod values;
pub mod varset;
pub mod ssa;
pub mod constant_fold;
pub mod liveness;
pub mod conflicts;
pub mod regmap;
pub mod color;
pub mod target;
pub mod codegen;
pub mod lower;
pub mod ir2;
pub mod types;
pub mod defmap;
pub mod ast;
pub mod size_of;
