use vstd::prelude::*;

pub mod laws;
pub mod linked_list;
pub mod node;
pub mod node_pool;

verus! {

/// Which neighbour of an anchor a newly inserted element becomes.
#[derive(Clone, Copy, Debug, PartialEq, Eq, Structural)]
pub enum Side {
    Before,
    After,
}

} // verus!
