use vstd::prelude::*;
use vstd::pervasive::cloned;
use crate::node::Node;

verus! {

/// An arena of nodes together with the collection of those that are free.
///
/// Every node ever created lives in `nodes` for the pool's whole life, so the
/// arena's length counts the allocations made. `free` holds the handles of the
/// nodes that no list uses; they are handed out again last-in, first-out.
#[derive(Debug)]
pub struct NodePool<T> {
    nodes: Vec<Node<T>>,
    free: Vec<usize>,
}

impl<T> NodePool<T> {
    /// Every node of the arena, indexed by handle.
    pub closed spec fn nodes(&self) -> Seq<Node<T>> {
        self.nodes@
    }

    /// The handles of the free nodes, the next one to be handed out last.
    pub closed spec fn free(&self) -> Seq<usize> {
        self.free@
    }

    /// Free handles are in the arena, listed once each, and their nodes
    /// carry no links.
    pub open spec fn wf(&self) -> bool {
        &&& forall|i: int| 0 <= i < self.free().len() ==> self.free()[i] < self.nodes().len()
        &&& forall|i: int, j: int|
            0 <= i < j < self.free().len() ==> self.free()[i] != self.free()[j]
        &&& forall|i: int|
            0 <= i < self.free().len() ==> (#[trigger] self.nodes()[self.free()[i] as int]).is_detached()
    }

    /// An empty pool.
    pub fn new() -> (r: NodePool<T>)
        ensures
            r.wf(),
            r.nodes().len() == 0,
            r.free().len() == 0,
    {
        NodePool { nodes: Vec::new(), free: Vec::new() }
    }

    /// The number of nodes created so far.
    pub fn allocated(&self) -> (r: usize)
        ensures
            r == self.nodes().len(),
    {
        self.nodes.len()
    }

    /// The number of free nodes.
    pub fn available(&self) -> (r: usize)
        ensures
            r == self.free().len(),
    {
        self.free.len()
    }

    /// Adds `size` fresh free nodes, each holding a clone of `default_value`.
    /// The nodes already present are left as they are.
    pub fn populate(&mut self, size: usize, default_value: T)
        where
            T: Clone,
        requires
            old(self).wf(),
            old(self).nodes().len() + size <= usize::MAX,
        ensures
            final(self).wf(),
            final(self).nodes().len() == old(self).nodes().len() + size,
            final(self).nodes().subrange(0, old(self).nodes().len() as int) == old(self).nodes(),
            forall|i: int|
                old(self).nodes().len() <= i < final(self).nodes().len() ==> {
                    &&& (#[trigger] final(self).nodes()[i]).is_detached()
                    &&& final(self).nodes()[i].data is Some
                    &&& cloned(default_value, final(self).nodes()[i].data.unwrap())
                },
            final(self).free() == old(self).free() + Seq::new(
                size as nat,
                |i: int| (old(self).nodes().len() + i) as usize,
            ),
    {
        let start = self.nodes.len();
        let mut k: usize = 0;
        while k < size
            invariant
                k <= size,
                start == old(self).nodes().len(),
                start + size <= usize::MAX,
                self.nodes@.len() == start + k,
                self.nodes@.subrange(0, start as int) == old(self).nodes(),
                forall|i: int|
                    start <= i < self.nodes@.len() ==> {
                        &&& (#[trigger] self.nodes@[i]).is_detached()
                        &&& self.nodes@[i].data is Some
                        &&& cloned(default_value, self.nodes@[i].data.unwrap())
                    },
                self.free@ == old(self).free() + Seq::new(k as nat, |i: int| (start + i) as usize),
                old(self).wf(),
            decreases size - k,
        {
            let idx = start + k;
            let c = default_value.clone();
            self.nodes.push(Node::new(c));
            self.free.push(idx);
            k = k + 1;
            assert(self.nodes@.subrange(0, start as int) =~= old(self).nodes());
            assert(self.free@ =~= old(self).free() + Seq::new(k as nat, |i: int| (start + i) as usize));
        }
        assert forall|i: int| 0 <= i < self.free@.len() implies #[trigger] self.free@[i] < self.nodes@.len() by {
            if i >= old(self).free().len() {
                assert(self.free@[i] == start + (i - old(self).free().len()));
            }
        }
        assert forall|i: int, j: int| 0 <= i < j < self.free@.len() implies self.free@[i] != self.free@[j] by {
            if j >= old(self).free().len() && i < old(self).free().len() {
                assert(self.free@[i] < start);
            }
        }
        assert forall|i: int| 0 <= i < self.free@.len() implies (#[trigger] self.nodes@[self.free@[i] as int]).is_detached() by {
            if i < old(self).free().len() {
                assert(self.nodes@[self.free@[i] as int] == self.nodes@.subrange(0, start as int)[self.free@[i] as int]);
            }
        }
    }

    /// Hands out a node holding `data` with both links cleared: the free node
    /// released last if there is one, else a newly created one.
    pub fn get_node(&mut self, data: T) -> (r: usize)
        requires
            old(self).wf(),
        ensures
            final(self).wf(),
            old(self).free().len() > 0 ==> {
                &&& r == old(self).free().last()
                &&& final(self).free() == old(self).free().drop_last()
                &&& final(self).nodes() == old(self).nodes().update(r as int, Node::unlinked(Some(data)))
            },
            old(self).free().len() == 0 ==> {
                &&& r == old(self).nodes().len()
                &&& final(self).free() == old(self).free()
                &&& final(self).nodes() == old(self).nodes().push(Node::unlinked(Some(data)))
            },
    {
        match self.free.pop() {
            Some(idx) => {
                self.nodes.set(idx, Node::new(data));
                proof {
                    let f = self.free@;
                    assert forall|i: int| 0 <= i < f.len() implies (#[trigger] self.nodes@[f[i] as int]).is_detached() by {
                        assert(old(self).free()[i] == f[i]);
                        assert(old(self).nodes()[old(self).free()[i] as int].is_detached());
                    }
                    assert forall|i: int, j: int| 0 <= i < j < f.len() implies f[i] != f[j] by {
                        assert(old(self).free()[i] == f[i] && old(self).free()[j] == f[j]);
                    }
                    assert forall|i: int| 0 <= i < f.len() implies f[i] < self.nodes@.len() by {
                        assert(old(self).free()[i] == f[i]);
                    }
                }
                idx
            },
            None => {
                let idx = self.nodes.len();
                self.nodes.push(Node::new(data));
                proof {
                    assert forall|i: int| 0 <= i < self.free@.len() implies (#[trigger] self.nodes@[self.free@[i] as int]).is_detached() by {
                        assert(false);
                    }
                }
                idx
            },
        }
    }

    /// Takes back a node that no list uses any more, clearing its links.
    pub fn return_node(&mut self, idx: usize)
        requires
            old(self).wf(),
            idx < old(self).nodes().len(),
            !old(self).free().contains(idx),
        ensures
            final(self).wf(),
            final(self).free() == old(self).free().push(idx),
            final(self).nodes() == old(self).nodes().update(
                idx as int,
                Node::unlinked(old(self).nodes()[idx as int].data),
            ),
    {
        self.nodes[idx].prev = None;
        self.nodes[idx].next = None;
        self.free.push(idx);
        proof {
            let f = self.free@;
            assert(self.nodes@ =~= old(self).nodes().update(idx as int, Node::unlinked(old(self).nodes()[idx as int].data)));
            assert forall|i: int| 0 <= i < f.len() implies (#[trigger] self.nodes@[f[i] as int]).is_detached() by {
                if i < f.len() - 1 {
                    assert(old(self).free()[i] == f[i]);
                    assert(old(self).nodes()[old(self).free()[i] as int].is_detached());
                }
            }
            assert forall|i: int, j: int| 0 <= i < j < f.len() implies f[i] != f[j] by {
                if j == f.len() - 1 {
                    assert(old(self).free()[i] == f[i]);
                }
            }
        }
    }

    /// The node behind handle `idx`.
    pub fn node(&self, idx: usize) -> (r: &Node<T>)
        requires
            idx < self.nodes().len(),
        ensures
            *r == self.nodes()[idx as int],
    {
        &self.nodes[idx]
    }

    /// Sets the `prev` link of node `idx`.
    pub(crate) fn set_prev(&mut self, idx: usize, link: Option<usize>)
        requires
            idx < old(self).nodes().len(),
        ensures
            final(self).free() == old(self).free(),
            final(self).nodes() == old(self).nodes().update(
                idx as int,
                Node { prev: link, ..old(self).nodes()[idx as int] },
            ),
    {
        self.nodes[idx].prev = link;
        assert(self.nodes@ =~= old(self).nodes().update(idx as int, Node { prev: link, ..old(self).nodes()[idx as int] }));
    }

    /// Sets the `next` link of node `idx`.
    pub(crate) fn set_next(&mut self, idx: usize, link: Option<usize>)
        requires
            idx < old(self).nodes().len(),
        ensures
            final(self).free() == old(self).free(),
            final(self).nodes() == old(self).nodes().update(
                idx as int,
                Node { next: link, ..old(self).nodes()[idx as int] },
            ),
    {
        self.nodes[idx].next = link;
        assert(self.nodes@ =~= old(self).nodes().update(idx as int, Node { next: link, ..old(self).nodes()[idx as int] }));
    }

    /// Moves the payload out of node `idx`, leaving `None` in its place.
    pub(crate) fn take_data(&mut self, idx: usize) -> (r: Option<T>)
        requires
            idx < old(self).nodes().len(),
        ensures
            r == old(self).nodes()[idx as int].data,
            final(self).free() == old(self).free(),
            final(self).nodes() == old(self).nodes().update(
                idx as int,
                Node { data: None, ..old(self).nodes()[idx as int] },
            ),
    {
        let r = self.nodes[idx].data.take();
        assert(self.nodes@ =~= old(self).nodes().update(idx as int, Node { data: None, ..old(self).nodes()[idx as int] }));
        r
    }
}

} // verus!
