use vstd::prelude::*;

pub mod calc;
pub mod parse;
pub mod extra;
pub mod kheap;
pub mod kernel;
pub mod desc_tables;
pub mod screen;
pub mod isr;
pub mod keyboard_driver;
pub mod timer;

verus! {
} // verus!
