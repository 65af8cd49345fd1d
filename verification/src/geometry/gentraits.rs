use vstd::prelude::*;

verus! {

/// Things that can hand out a boxed copy of themselves.
pub trait BoxClone {
    fn box_clone<T>(&self) -> Box<T>;
}

} // verus!
