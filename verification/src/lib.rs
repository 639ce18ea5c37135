//! Conversion of Cranelift IR functions into a model of pliron's IR.
pub mod ir;
pub mod ops;
pub mod clif;
pub mod names;
pub mod fxmap;
pub mod convert;
pub mod function;
pub mod check;
pub mod driver;
pub mod cranelift;
pub mod acceptance;
