use vstd::prelude::*;

pub mod text;
pub mod ip;
pub mod mask;
pub mod normalize;
pub mod panels;
pub mod subnet;
pub mod vlsm;
pub mod aggregate;
pub mod error;
pub mod columns;
pub mod export;
pub mod fields;
pub mod history;

verus! {

} // verus!
