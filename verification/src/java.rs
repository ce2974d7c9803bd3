//! A best-effort index of the type declarations in decompiled Java sources:
//! comments and literals are blanked out, then a brace-depth scan records
//! every class, interface, enum and record with its fields and methods.

pub mod model;
pub mod index;
pub mod parse;
pub mod scan;
pub mod strip;
