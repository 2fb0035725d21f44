use vstd::prelude::*;

pub mod app;
pub mod cli;
pub mod order;
pub mod scanner;
pub mod text;
pub mod view;

verus! {
} // verus!
