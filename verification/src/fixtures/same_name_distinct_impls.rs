//! The same method name in two different impl blocks is legitimate Rust and
//! must not be reported as a duplicate.
use vstd::prelude::*;

verus! {

pub struct A;

pub struct B;

impl A {
    pub fn value(&self) -> (v: u32)
        ensures
            v == 1,
    {
        1
    }
}

impl B {
    pub fn value(&self) -> (v: u32)
        ensures
            v == 2,
    {
        2
    }
}

} // verus!
