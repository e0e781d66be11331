//! A door, and what can be opened.

use vstd::prelude::*;

verus! {

pub struct Door {
    pub is_open: bool,
}

impl Door {
    pub fn new(is_open: bool) -> (door: Door)
        ensures
            door.is_open == is_open,
    {
        Door { is_open: is_open }
    }
}

pub trait Openable {
    /// Whether the thing stands open.
    spec fn stands_open(&self) -> bool;

    fn open(&mut self)
        ensures
            final(self).stands_open(),
    ;
}

impl Openable for Door {
    open spec fn stands_open(&self) -> bool {
        self.is_open
    }

    fn open(&mut self) {
        self.is_open = true;
    }
}

} // verus!
