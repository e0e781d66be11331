//! A record of three bytes, to see how much room a struct takes.

use vstd::prelude::*;

verus! {

pub struct MyStruct {
    pub a: u8,
    pub b: u8,
    pub c: u8,
}

} // verus!
