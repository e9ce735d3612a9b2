use vstd::prelude::*;

verus! {

/// One element container of a list's arena.
///
/// A node is addressed by its index (its handle) in the arena that owns it;
/// `prev` and `next` are the handles of its neighbours, absent at the ends.
/// The payload is `None` only while the node sits unused in a pool.
#[derive(Debug)]
pub struct Node<T> {
    pub data: Option<T>,
    pub prev: Option<usize>,
    pub next: Option<usize>,
}

impl<T> Node<T> {
    /// A detached node holding `data`.
    pub fn new(data: T) -> (r: Node<T>)
        ensures
            r == Node::unlinked(Some(data)),
    {
        Node { data: Some(data), prev: None, next: None }
    }

    /// The node that holds `data` and has no neighbours.
    pub open spec fn unlinked(data: Option<T>) -> Node<T> {
        Node { data, prev: None, next: None }
    }

    /// Whether both links are cleared.
    pub open spec fn is_detached(self) -> bool {
        self.prev.is_none() && self.next.is_none()
    }
}

} // verus!
