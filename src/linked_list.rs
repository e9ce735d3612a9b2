use vstd::prelude::*;
use vstd::pervasive::cloned;
use crate::Side;
use crate::node::Node;
use crate::node_pool::NodePool;

verus! {

/// The handle at position `i` of `s`, if there is one.
pub open spec fn handle_at(s: Seq<usize>, i: int) -> Option<usize> {
    if 0 <= i < s.len() {
        Some(s[i])
    } else {
        None
    }
}

/// Each node named in `order` links to its neighbours in `order` and holds a
/// payload.
pub open spec fn chained<T>(nodes: Seq<Node<T>>, order: Seq<usize>) -> bool {
    forall|i: int|
        0 <= i < order.len() ==> {
            let n = #[trigger] nodes[order[i] as int];
            &&& n.prev == handle_at(order, i - 1)
            &&& n.next == handle_at(order, i + 1)
            &&& n.data.is_some()
        }
}

/// No handle occurs twice in `s`.
pub open spec fn distinct(s: Seq<usize>) -> bool {
    forall|i: int, j: int| 0 <= i < j < s.len() ==> s[i] != s[j]
}

/// In a sequence without repeats, two positions that hold the same handle
/// are the same position.
proof fn lemma_single_position(s: Seq<usize>, i: int, j: int)
    requires
        distinct(s),
        0 <= i < s.len(),
        0 <= j < s.len(),
        s[i] == s[j],
    ensures
        i == j,
{
    if i < j {
        assert(s[i] != s[j]);
    } else if j < i {
        assert(s[j] != s[i]);
    }
}

/// Taking `fresh`, the last free handle or else a newly created one, leaves
/// it apart from the linked and the remaining free handles, and keeps the
/// count of nodes.
proof fn lemma_take_fresh(
    order: Seq<usize>,
    old_free: Seq<usize>,
    free: Seq<usize>,
    old_len: nat,
    len: nat,
    fresh: usize,
)
    requires
        order.len() + old_free.len() == old_len,
        forall|a: int| 0 <= a < order.len() ==> #[trigger] order[a] < old_len,
        forall|a: int, b: int| 0 <= a < order.len() && 0 <= b < old_free.len() ==> order[a] != old_free[b],
        forall|a: int, b: int| 0 <= a < b < old_free.len() ==> old_free[a] != old_free[b],
        old_free.len() > 0 ==> fresh == old_free.last() && free == old_free.drop_last() && len == old_len
            && fresh < old_len,
        old_free.len() == 0 ==> fresh == old_len && free == old_free && len == old_len + 1,
    ensures
        !order.contains(fresh),
        order.len() + 1 + free.len() == len,
        fresh < len,
        forall|a: int| 0 <= a < order.len() ==> #[trigger] order[a] < len,
        forall|b: int| 0 <= b < free.len() ==> #[trigger] free[b] != fresh,
        forall|a: int, b: int| 0 <= a < order.len() && 0 <= b < free.len() ==> order[a] != free[b],
{
    assert(!order.contains(fresh)) by {
        if order.contains(fresh) {
            let a = choose|a: int| 0 <= a < order.len() && order[a] == fresh;
            if old_free.len() > 0 {
                assert(order[a] != old_free[old_free.len() - 1]);
            }
        }
    }
    assert forall|b: int| 0 <= b < free.len() implies #[trigger] free[b] != fresh by {
        assert(free[b] == old_free[b]);
    }
    assert forall|a: int, b: int| 0 <= a < order.len() && 0 <= b < free.len() implies order[a] != free[b] by {
        assert(free[b] == old_free[b]);
    }
}

/// Splicing `fresh` in at position `k` keeps the chain consistent, provided
/// the fresh node points at its two new neighbours, those neighbours point back
/// at it, and no other linked node changed.
#[verifier::spinoff_prover]
proof fn lemma_splice<T>(
    old_nodes: Seq<Node<T>>,
    nodes: Seq<Node<T>>,
    order: Seq<usize>,
    k: int,
    fresh: usize,
)
    requires
        chained(old_nodes, order),
        distinct(order),
        !order.contains(fresh),
        0 <= k <= order.len(),
        nodes[fresh as int] == (Node {
            data: nodes[fresh as int].data,
            prev: handle_at(order, k - 1),
            next: handle_at(order, k),
        }),
        nodes[fresh as int].data.is_some(),
        k > 0 ==> nodes[order[k - 1] as int] == (Node {
            next: Some(fresh),
            ..old_nodes[order[k - 1] as int]
        }),
        k < order.len() ==> nodes[order[k] as int] == (Node {
            prev: Some(fresh),
            ..old_nodes[order[k] as int]
        }),
        forall|m: int|
            0 <= m < order.len() && m != k - 1 && m != k ==> nodes[#[trigger] order[m] as int]
                == old_nodes[order[m] as int],
    ensures
        chained(nodes, order.insert(k, fresh)),
        distinct(order.insert(k, fresh)),
{
    let o2 = order.insert(k, fresh);
    assert forall|j: int| 0 <= j < o2.len() implies {
        let n = #[trigger] nodes[o2[j] as int];
        &&& n.prev == handle_at(o2, j - 1)
        &&& n.next == handle_at(o2, j + 1)
        &&& n.data.is_some()
    } by {
        if j == k {
            assert(handle_at(o2, j - 1) == handle_at(order, k - 1));
            assert(handle_at(o2, j + 1) == handle_at(order, k));
        } else {
            let m = if j < k { j } else { j - 1 };
            assert(o2[j] == order[m]);
            let on = old_nodes[order[m] as int];
            assert(on.prev == handle_at(order, m - 1));
            assert(on.next == handle_at(order, m + 1));
            if m == k - 1 {
                assert(handle_at(o2, j - 1) == handle_at(order, m - 1));
                assert(handle_at(o2, j + 1) == Some(fresh));
            } else if m == k {
                assert(handle_at(o2, j - 1) == Some(fresh));
                assert(handle_at(o2, j + 1) == handle_at(order, m + 1));
            } else {
                assert(nodes[order[m] as int] == on);
                assert(handle_at(o2, j - 1) == handle_at(order, m - 1));
                assert(handle_at(o2, j + 1) == handle_at(order, m + 1));
            }
        }
    }
    assert forall|a: int, b: int| 0 <= a < b < o2.len() implies o2[a] != o2[b] by {
        if a != k && b != k {
            let ma = if a < k { a } else { a - 1 };
            let mb = if b < k { b } else { b - 1 };
            assert(o2[a] == order[ma] && o2[b] == order[mb]);
        } else if a == k {
            assert(o2[b] == order[b - 1]);
        } else {
            assert(o2[a] == order[a]);
        }
    }
}

/// Unlinking the node at position `i` keeps the chain consistent, provided its
/// two neighbours now point at each other and no other linked node changed.
#[verifier::spinoff_prover]
proof fn lemma_unsplice<T>(old_nodes: Seq<Node<T>>, nodes: Seq<Node<T>>, order: Seq<usize>, i: int)
    requires
        chained(old_nodes, order),
        distinct(order),
        0 <= i < order.len(),
        i > 0 ==> nodes[order[i - 1] as int] == (Node {
            next: handle_at(order, i + 1),
            ..old_nodes[order[i - 1] as int]
        }),
        i + 1 < order.len() ==> nodes[order[i + 1] as int] == (Node {
            prev: handle_at(order, i - 1),
            ..old_nodes[order[i + 1] as int]
        }),
        forall|m: int|
            0 <= m < order.len() && m != i - 1 && m != i && m != i + 1 ==> nodes[#[trigger] order[m] as int]
                == old_nodes[order[m] as int],
    ensures
        chained(nodes, order.remove(i)),
        distinct(order.remove(i)),
{
    let o2 = order.remove(i);
    assert forall|j: int| 0 <= j < o2.len() implies {
        let n = #[trigger] nodes[o2[j] as int];
        &&& n.prev == handle_at(o2, j - 1)
        &&& n.next == handle_at(o2, j + 1)
        &&& n.data.is_some()
    } by {
        let m = if j < i { j } else { j + 1 };
        assert(o2[j] == order[m]);
        let on = old_nodes[order[m] as int];
        assert(on.prev == handle_at(order, m - 1));
        assert(on.next == handle_at(order, m + 1));
        if m == i - 1 {
            assert(handle_at(o2, j - 1) == handle_at(order, m - 1));
            assert(handle_at(o2, j + 1) == handle_at(order, i + 1));
        } else if m == i + 1 {
            assert(handle_at(o2, j - 1) == handle_at(order, i - 1));
            assert(handle_at(o2, j + 1) == handle_at(order, m + 1));
        } else {
            assert(nodes[order[m] as int] == on);
            assert(handle_at(o2, j - 1) == handle_at(order, m - 1));
            assert(handle_at(o2, j + 1) == handle_at(order, m + 1));
        }
    }
    assert forall|a: int, b: int| 0 <= a < b < o2.len() implies o2[a] != o2[b] by {
        let ma = if a < i { a } else { a + 1 };
        let mb = if b < i { b } else { b + 1 };
        assert(o2[a] == order[ma] && o2[b] == order[mb]);
    }
}

/// The number of nodes in an arena of `created` nodes, `linked` of them in
/// use, after one more is linked: a free node is reused whenever there is one.
pub open spec fn created_after_link(linked: nat, created: nat) -> nat {
    if linked < created {
        created
    } else {
        created + 1
    }
}

/// A doubly-linked list whose nodes come from, and go back to, its own pool.
///
/// Handles are indices into the pool's arena. A handle stays valid while its
/// node is linked in the list; after it is removed the handle must not be
/// used again.
pub struct DoublyLinkedList<T> {
    head: Option<usize>,
    tail: Option<usize>,
    pool: NodePool<T>,
    order: Ghost<Seq<usize>>,
}

impl<T> DoublyLinkedList<T> {
    /// The handles of the linked nodes, from head to tail.
    pub closed spec fn handles(&self) -> Seq<usize> {
        self.order@
    }

    /// The payloads, from head to tail.
    pub closed spec fn values(&self) -> Seq<T> {
        self.order@.map_values(|h: usize| self.pool.nodes()[h as int].data.unwrap())
    }

    /// The pool that supplies this list's nodes.
    pub closed spec fn node_pool(&self) -> NodePool<T> {
        self.pool
    }

    /// The number of nodes created so far, linked or free.
    pub closed spec fn created(&self) -> nat {
        self.pool.nodes().len()
    }

    /// The chain from head to tail visits exactly the handles of `order`, with
    /// links agreeing in both directions, and every node of the arena is
    /// either linked or free, never both.
    pub closed spec fn wf(&self) -> bool {
        let nodes = self.pool.nodes();
        let free = self.pool.free();
        let order = self.order@;
        &&& self.pool.wf()
        &&& order.len() + free.len() == nodes.len()
        &&& forall|i: int| 0 <= i < order.len() ==> #[trigger] order[i] < nodes.len()
        &&& distinct(order)
        &&& forall|i: int, j: int|
            0 <= i < order.len() && 0 <= j < free.len() ==> order[i] != free[j]
        &&& self.head == handle_at(order, 0)
        &&& self.tail == handle_at(order, order.len() - 1)
        &&& chained(nodes, order)
    }

    /// A list holds no more nodes than have been created, and no handle
    /// twice.
    pub proof fn lemma_len_bounded(&self)
        requires
            self.wf(),
        ensures
            self.handles().len() <= self.created(),
            self.values().len() == self.handles().len(),
            distinct(self.handles()),
    {
    }

    /// Every node of the pool is either linked in the list or free, never
    /// both: the free handles and the linked handles are disjoint, all lie in
    /// the arena, and together they count every node created.
    pub proof fn lemma_pool_partition(&self)
        requires
            self.wf(),
        ensures
            self.node_pool().wf(),
            self.node_pool().nodes().len() == self.created(),
            self.node_pool().free().len() + self.handles().len() == self.created(),
            forall|i: int| 0 <= i < self.handles().len() ==> #[trigger] self.handles()[i] < self.created(),
            forall|i: int, j: int|
                0 <= i < self.handles().len() && 0 <= j < self.node_pool().free().len() ==> self.handles()[i]
                    != self.node_pool().free()[j],
    {
    }

    /// An empty list with an empty pool.
    pub fn new() -> (r: DoublyLinkedList<T>)
        ensures
            r.wf(),
            r.handles().len() == 0,
            r.values().len() == 0,
            r.created() == 0,
            r.node_pool().free().len() == 0,
    {
        let r = DoublyLinkedList { head: None, tail: None, pool: NodePool::new(), order: Ghost(Seq::empty()) };
        assert(r.values() =~= Seq::empty());
        r
    }

    /// Unlinks the node `node`, returns it to the pool and yields its payload.
    ///
    /// `node` must be linked in this list; its handle is invalid afterwards.
    #[verifier::spinoff_prover]
    #[verifier::rlimit(100)]
    pub fn remove(&mut self, node: usize) -> (r: Option<T>)
        requires
            old(self).wf(),
            old(self).handles().contains(node),
        ensures
            final(self).wf(),
            final(self).created() == old(self).created(),
            forall|i: int|
                0 <= i < old(self).handles().len() && old(self).handles()[i] == node ==> {
                    &&& r == Some(old(self).values()[i])
                    &&& final(self).handles() == old(self).handles().remove(i)
                    &&& final(self).values() == old(self).values().remove(i)
                },
            forall|h: usize|
                old(self).handles().contains(h) && h != node ==> final(self).handles().contains(h),
            !final(self).handles().contains(node),
            final(self).node_pool().free() == old(self).node_pool().free().push(node),
            final(self).node_pool().nodes()[node as int].is_detached(),
    {
        let ghost order = self.order@;
        let ghost i = choose|i: int| 0 <= i < order.len() && order[i] == node;
        proof {
            assert(self.pool.nodes()[order[i] as int].data.is_some());
        }
        let prev = self.pool.node(node).prev;
        let next = self.pool.node(node).next;
        proof {
            assert(prev == handle_at(order, i - 1));
            assert(next == handle_at(order, i + 1));
            if i > 0 {
                assert(order[i - 1] != order[i]);
                if i + 1 < order.len() {
                    assert(order[i - 1] != order[i + 1]);
                }
            }
            if i + 1 < order.len() {
                assert(order[i + 1] != order[i]);
            }
        }
        let ghost mid = self.pool.nodes();
        self.bridge(prev, next);
        let ghost bridged = self.pool.nodes();
        proof {
            assert(mid == old(self).pool.nodes());
            assert(bridged[node as int] == mid[node as int]);
        }
        let data = self.pool.take_data(node);
        proof {
            assert(!self.pool.free().contains(node)) by {
                if self.pool.free().contains(node) {
                    let j = choose|j: int| 0 <= j < self.pool.free().len() && self.pool.free()[j] == node;
                    assert(order[i] != self.pool.free()[j]);
                }
            }
        }
        self.pool.return_node(node);
        self.order = Ghost(order.remove(i));
        proof {
            let o2 = self.order@;
            let nodes = self.pool.nodes();
            let old_nodes = old(self).pool.nodes();
            let free = self.pool.free();
            let old_free = old(self).pool.free();
            assert forall|m: int|
                0 <= m < order.len() && m != i - 1 && m != i && m != i + 1 implies nodes[#[trigger] order[m] as int]
                    == old_nodes[order[m] as int] by {
                assert(order[m] != order[i]);
                if i > 0 {
                    assert(order[m] != order[i - 1]);
                }
                if i + 1 < order.len() {
                    assert(order[m] != order[i + 1]);
                }
            }
            assert forall|m: int| 0 <= m < order.len() && m != i implies nodes[#[trigger] order[m] as int]
                == bridged[order[m] as int] by {
                assert(order[m] != order[i]);
            }
            lemma_unsplice(old_nodes, nodes, order, i);
            assert forall|a: int, b: int|
                0 <= a < o2.len() && 0 <= b < free.len() implies o2[a] != free[b] by {
                let m = if a < i { a } else { a + 1 };
                assert(o2[a] == order[m]);
                assert(order[m] != order[i]);
                if b < old_free.len() {
                    assert(free[b] == old_free[b]);
                }
            }
            assert forall|a: int| 0 <= a < o2.len() implies #[trigger] o2[a] < nodes.len() by {
                let m = if a < i { a } else { a + 1 };
                assert(o2[a] == order[m]);
            }
            assert forall|j: int| 0 <= j < o2.len() implies #[trigger] self.values()[j]
                == old(self).values().remove(i)[j] by {
                let m = if j < i { j } else { j + 1 };
                assert(o2[j] == order[m]);
                assert(order[m] != order[i]);
                if m == i - 1 || m == i + 1 {
                    assert(nodes[order[m] as int].data == old_nodes[order[m] as int].data);
                } else {
                    assert(nodes[order[m] as int] == old_nodes[order[m] as int]);
                }
            }
            assert forall|i2: int| 0 <= i2 < order.len() && order[i2] == node implies i2 == i by {
                lemma_single_position(order, i, i2);
            }
            assert(old(self).values()[i] == old_nodes[node as int].data.unwrap());
            assert(data == Some(old(self).values()[i]));
            assert(self.handles() == order.remove(i));
            assert(self.values() =~= old(self).values().remove(i));
            assert(self.pool.wf());
            assert(o2.len() + free.len() == nodes.len());
            assert(distinct(o2));
            assert(chained(nodes, o2));
            assert(self.head == handle_at(o2, 0));
            assert(self.tail == handle_at(o2, o2.len() - 1));
            assert(!o2.contains(node)) by {
                if o2.contains(node) {
                    let a = choose|a: int| 0 <= a < o2.len() && o2[a] == node;
                    let m = if a < i { a } else { a + 1 };
                    assert(o2[a] == order[m]);
                }
            }
            assert forall|h: usize| order.contains(h) && h != node implies o2.contains(h) by {
                let a = choose|a: int| 0 <= a < order.len() && order[a] == h;
                if a < i {
                    assert(o2[a] == h);
                } else {
                    assert(o2[a - 1] == h);
                }
            }
        }
        data
    }

    /// Links a node holding `data` next to `anchor`: just before it for
    /// `Side::Before`, just after it for `Side::After`. A free node of the
    /// pool is reused if there is one; only otherwise is a node created.
    ///
    /// `anchor` must be linked in this list.
    #[verifier::rlimit(100)]
    #[verifier::spinoff_prover]
    pub fn insert(&mut self, side: Side, data: T, anchor: usize)
        requires
            old(self).wf(),
            old(self).handles().contains(anchor),
        ensures
            final(self).wf(),
            final(self).created() == created_after_link(old(self).handles().len(), old(self).created()),
            forall|i: int|
                0 <= i < old(self).handles().len() && old(self).handles()[i] == anchor ==> {
                    let k = if side == Side::Before { i } else { i + 1 };
                    &&& !old(self).handles().contains(final(self).handles()[k])
                    &&& final(self).handles() == old(self).handles().insert(k, final(self).handles()[k])
                    &&& final(self).values() == old(self).values().insert(k, data)
                    &&& old(self).node_pool().free().len() > 0 ==> final(self).handles()[k] == old(
                        self,
                    ).node_pool().free().last() && final(self).node_pool().free() == old(
                        self,
                    ).node_pool().free().drop_last()
                    &&& old(self).node_pool().free().len() == 0 ==> final(self).handles()[k] == old(
                        self,
                    ).created() && final(self).node_pool().free() == old(self).node_pool().free()
                },
            forall|h: usize| old(self).handles().contains(h) ==> final(self).handles().contains(h),
    {
        let ghost order = self.order@;
        let ghost i = choose|i: int| 0 <= i < order.len() && order[i] == anchor;
        let ghost k = if side == Side::Before { i } else { i + 1 };
        let ghost old_free = self.pool.free();
        let ghost old_nodes = self.pool.nodes();
        let fresh = self.pool.get_node(data);
        proof {
            if old_free.len() > 0 {
                assert(old_free[old_free.len() - 1] < old_nodes.len());
            }
            lemma_take_fresh(order, old_free, self.pool.free(), old_nodes.len(), self.pool.nodes().len(), fresh);
            let nodes = self.pool.nodes();
            assert forall|m: int| 0 <= m < order.len() implies nodes[#[trigger] order[m] as int]
                == old_nodes[order[m] as int] by {
                assert(order[m] != fresh);
            }
            assert(chained(nodes, order));
            assert(self.values() =~= old(self).values());
            assert(self.wf_pending(fresh));
        }
        self.link_taken(side, anchor, Ghost(i), fresh);
        proof {
            assert forall|i2: int|
                0 <= i2 < order.len() && order[i2] == anchor implies i2 == i by {
                lemma_single_position(order, i, i2);
            }
            assert forall|h: usize| order.contains(h) implies self.order@.contains(h) by {
                let a = choose|a: int| 0 <= a < order.len() && order[a] == h;
                if a < k {
                    assert(self.order@[a] == h);
                } else {
                    assert(self.order@[a + 1] == h);
                }
            }
        }
    }

    /// The list is consistent except that node `fresh`, taken from the pool
    /// and holding a payload, is not linked yet.
    closed spec fn wf_pending(&self, fresh: usize) -> bool {
        let nodes = self.pool.nodes();
        let free = self.pool.free();
        let order = self.order@;
        &&& self.pool.wf()
        &&& order.len() + 1 + free.len() == nodes.len()
        &&& forall|i: int| 0 <= i < order.len() ==> #[trigger] order[i] < nodes.len()
        &&& distinct(order)
        &&& forall|i: int, j: int|
            0 <= i < order.len() && 0 <= j < free.len() ==> order[i] != free[j]
        &&& self.head == handle_at(order, 0)
        &&& self.tail == handle_at(order, order.len() - 1)
        &&& chained(nodes, order)
        &&& fresh < nodes.len()
        &&& !order.contains(fresh)
        &&& forall|j: int| 0 <= j < free.len() ==> #[trigger] free[j] != fresh
        &&& nodes[fresh as int].data is Some
    }

    /// Links the pending node `fresh` next to the anchor at position `i`.
    #[verifier::rlimit(100)]
    #[verifier::spinoff_prover]
    fn link_taken(&mut self, side: Side, anchor: usize, i: Ghost<int>, fresh: usize)
        requires
            old(self).wf_pending(fresh),
            0 <= i@ < old(self).handles().len(),
            old(self).handles()[i@] == anchor,
        ensures
            final(self).wf(),
            final(self).pool.free() == old(self).pool.free(),
            final(self).pool.nodes().len() == old(self).pool.nodes().len(),
            final(self).handles() == old(self).handles().insert(
                if side == Side::Before { i@ } else { i@ + 1 },
                fresh,
            ),
            final(self).values() == old(self).values().insert(
                if side == Side::Before { i@ } else { i@ + 1 },
                old(self).pool.nodes()[fresh as int].data.unwrap(),
            ),
    {
        let ghost order = self.order@;
        let ghost i = i@;
        let ghost k = if side == Side::Before { i } else { i + 1 };
        let ghost data = self.pool.nodes()[fresh as int].data.unwrap();
        proof {
            assert(old(self).pool.nodes()[order[i] as int].prev == handle_at(order, i - 1));
            assert(old(self).pool.nodes()[order[i] as int].next == handle_at(order, i + 1));
        }
        let ghost mid = self.pool.nodes();
        let (left, right) = match side {
            Side::Before => (self.pool.node(anchor).prev, Some(anchor)),
            Side::After => (Some(anchor), self.pool.node(anchor).next),
        };
        proof {
            assert(order[i] != fresh);
            assert(mid[anchor as int] == old(self).pool.nodes()[anchor as int]);
            assert(left == handle_at(order, k - 1));
            assert(right == handle_at(order, k));
        }
        proof {
            if k > 0 {
                assert(order[k - 1] != fresh);
            }
            if k < order.len() {
                assert(order[k] != fresh);
                if k > 0 {
                    assert(order[k] != order[k - 1]);
                }
            }
        }
        self.splice(fresh, left, right);
        self.order = Ghost(order.insert(k, fresh));
        proof {
            let o2 = self.order@;
            let nodes = self.pool.nodes();
            let old_nodes = old(self).pool.nodes();
            let free = self.pool.free();
            assert forall|m: int|
                0 <= m < order.len() && m != k - 1 && m != k implies nodes[#[trigger] order[m] as int]
                    == old_nodes[order[m] as int] by {
                assert(order[m] != fresh);
                if k > 0 {
                    assert(order[m] != order[k - 1]);
                }
                if k < order.len() {
                    assert(order[m] != order[k]);
                }
                assert(mid[order[m] as int] == old_nodes[order[m] as int]);
            }
            if k > 0 {
                assert(mid[order[k - 1] as int] == old_nodes[order[k - 1] as int]);
            }
            if k < order.len() {
                assert(mid[order[k] as int] == old_nodes[order[k] as int]);
            }
            lemma_splice(old_nodes, nodes, order, k, fresh);
            assert(self.pool.wf());
            assert(o2.len() + free.len() == nodes.len());
            assert(distinct(o2));
            assert(chained(nodes, o2));
            assert(self.head == handle_at(o2, 0));
            assert(self.tail == handle_at(o2, o2.len() - 1));
            assert forall|j: int| 0 <= j < o2.len() implies #[trigger] self.values()[j]
                == old(self).values().insert(k, data)[j] by {
                if j != k {
                    let m = if j < k { j } else { j - 1 };
                    assert(o2[j] == order[m]);
                    if m == k - 1 {
                        assert(nodes[order[m] as int].data == old_nodes[order[m] as int].data);
                    } else if m == k {
                        assert(nodes[order[m] as int].data == old_nodes[order[m] as int].data);
                    } else {
                        assert(nodes[order[m] as int] == old_nodes[order[m] as int]);
                    }
                }
            }
            assert(self.values() =~= old(self).values().insert(k, data));
            assert(o2[k] == fresh);
            assert forall|h: usize| order.contains(h) implies o2.contains(h) by {
                let a = choose|a: int| 0 <= a < order.len() && order[a] == h;
                if a < k {
                    assert(o2[a] == h);
                } else {
                    assert(o2[a + 1] == h);
                }
            }
        }
    }


    /// Adds `size` free nodes to the pool, each holding a clone of
    /// `default_value`; the list's contents are unchanged.
    pub fn init(&mut self, size: usize, default_value: T)
        where
            T: Clone,
        requires
            old(self).wf(),
            old(self).created() + size <= usize::MAX,
        ensures
            final(self).wf(),
            final(self).created() == old(self).created() + size,
            final(self).handles() == old(self).handles(),
            final(self).values() == old(self).values(),
            final(self).node_pool().free() == old(self).node_pool().free() + Seq::new(
                size as nat,
                |i: int| (old(self).created() + i) as usize,
            ),
            forall|i: int|
                old(self).created() <= i < final(self).created() ==> {
                    &&& (#[trigger] final(self).node_pool().nodes()[i]).is_detached()
                    &&& final(self).node_pool().nodes()[i].data is Some
                    &&& cloned(default_value, final(self).node_pool().nodes()[i].data.unwrap())
                },
    {
        let ghost old_nodes = self.pool.nodes();
        let ghost old_free = self.pool.free();
        let ghost start = old_nodes.len() as int;
        self.pool.populate(size, default_value);
        proof {
            let order = self.order@;
            let nodes = self.pool.nodes();
            let free = self.pool.free();
            assert forall|m: int| 0 <= m < order.len() implies nodes[#[trigger] order[m] as int]
                == old_nodes[order[m] as int] by {
                assert(nodes.subrange(0, start)[order[m] as int] == nodes[order[m] as int]);
            }
            assert forall|a: int, b: int|
                0 <= a < order.len() && 0 <= b < free.len() implies order[a] != free[b] by {
                if b < old_free.len() {
                    assert(free[b] == old_free[b]);
                } else {
                    assert(free[b] == start + (b - old_free.len()));
                }
            }
            assert(chained(nodes, order));
            assert(self.values() =~= old(self).values());
        }
    }

    /// The handle of the head, if the list is not empty.
    pub fn head(&self) -> (r: Option<usize>)
        requires
            self.wf(),
        ensures
            r == handle_at(self.handles(), 0),
    {
        self.head
    }

    /// The handle of the tail, if the list is not empty.
    pub fn tail(&self) -> (r: Option<usize>)
        requires
            self.wf(),
        ensures
            r == handle_at(self.handles(), self.handles().len() - 1),
    {
        self.tail
    }

    /// Whether the list holds no element.
    pub fn is_empty(&self) -> (r: bool)
        requires
            self.wf(),
        ensures
            r == (self.values().len() == 0),
    {
        self.head.is_none()
    }

    /// The number of nodes created so far, linked or free.
    pub fn allocated(&self) -> (r: usize)
        requires
            self.wf(),
        ensures
            r == self.created(),
    {
        self.pool.allocated()
    }

    /// The number of free nodes in the pool.
    pub fn spare(&self) -> (r: usize)
        requires
            self.wf(),
        ensures
            r == self.node_pool().free().len(),
    {
        self.pool.available()
    }

    /// The handle that follows `node`, if `node` is not the tail.
    pub fn next(&self, node: usize) -> (r: Option<usize>)
        requires
            self.wf(),
            self.handles().contains(node),
        ensures
            forall|i: int|
                0 <= i < self.handles().len() && self.handles()[i] == node ==> r == handle_at(
                    self.handles(),
                    i + 1,
                ),
    {
        let ghost i = choose|i: int| 0 <= i < self.order@.len() && self.order@[i] == node;
        proof {
            assert forall|i2: int| 0 <= i2 < self.order@.len() && self.order@[i2] == node implies i2 == i by {
                lemma_single_position(self.order@, i, i2);
            }
            assert(self.pool.nodes()[self.order@[i] as int].next == handle_at(self.order@, i + 1));
        }
        self.pool.node(node).next
    }

    /// The handle that precedes `node`, if `node` is not the head.
    pub fn prev(&self, node: usize) -> (r: Option<usize>)
        requires
            self.wf(),
            self.handles().contains(node),
        ensures
            forall|i: int|
                0 <= i < self.handles().len() && self.handles()[i] == node ==> r == handle_at(
                    self.handles(),
                    i - 1,
                ),
    {
        let ghost i = choose|i: int| 0 <= i < self.order@.len() && self.order@[i] == node;
        proof {
            assert forall|i2: int| 0 <= i2 < self.order@.len() && self.order@[i2] == node implies i2 == i by {
                lemma_single_position(self.order@, i, i2);
            }
            assert(self.pool.nodes()[self.order@[i] as int].prev == handle_at(self.order@, i - 1));
        }
        self.pool.node(node).prev
    }

    /// The payload of `node`.
    pub fn get(&self, node: usize) -> (r: &T)
        requires
            self.wf(),
            self.handles().contains(node),
        ensures
            forall|i: int|
                0 <= i < self.handles().len() && self.handles()[i] == node ==> *r == self.values()[i],
    {
        let ghost i = choose|i: int| 0 <= i < self.order@.len() && self.order@[i] == node;
        proof {
            assert forall|i2: int| 0 <= i2 < self.order@.len() && self.order@[i2] == node implies i2 == i by {
                lemma_single_position(self.order@, i, i2);
            }
            assert(self.pool.nodes()[self.order@[i] as int].data.is_some());
        }
        self.pool.node(node).data.as_ref().unwrap()
    }

    /// Removes every element, tail first, returning each node to the pool.
    pub fn clear(&mut self)
        requires
            old(self).wf(),
        ensures
            final(self).wf(),
            final(self).values().len() == 0,
            final(self).handles().len() == 0,
            final(self).created() == old(self).created(),
            final(self).node_pool().free().len() == final(self).created(),
            forall|j: int|
                0 <= j < final(self).node_pool().free().len() ==> final(self).node_pool().nodes()[
                    #[trigger] final(self).node_pool().free()[j] as int
                ].is_detached(),
    {
        while self.tail.is_some()
            invariant
                self.wf(),
                self.created() == old(self).created(),
            decreases self.handles().len(),
        {
            self.pop_back();
        }
    }

    /// Fills an empty list with its first node.
    fn push_into_empty(&mut self, data: T)
        requires
            old(self).wf(),
            old(self).handles().len() == 0,
        ensures
            final(self).wf(),
            final(self).created() == created_after_link(0, old(self).created()),
            final(self).handles().len() == 1,
            final(self).values() == seq![data],
            old(self).node_pool().free().len() > 0 ==> final(self).handles()[0] == old(self).node_pool().free().last()
                    && final(self).node_pool().free() == old(self).node_pool().free().drop_last(),
            old(self).node_pool().free().len() == 0 ==> final(self).handles()[0] == old(self).created()
                    && final(self).node_pool().free() == old(self).node_pool().free(),
    {
        let ghost old_free = self.pool.free();
        let new_node = self.pool.get_node(data);
        self.head = Some(new_node);
        self.tail = Some(new_node);
        self.order = Ghost(Seq::empty().push(new_node));
        proof {
            let o2 = self.order@;
            let free = self.pool.free();
            assert forall|a: int, b: int|
                0 <= a < o2.len() && 0 <= b < free.len() implies o2[a] != free[b] by {
                assert(free[b] == old_free[b]);
                if old_free.len() > 0 {
                    assert(old_free[b] != old_free[old_free.len() - 1]);
                }
            }
            assert(chained(self.pool.nodes(), o2));
            assert(self.values() =~= seq![data]);
        }
    }

    /// Adds `data` at the head.
    pub fn push_front(&mut self, data: T)
        requires
            old(self).wf(),
        ensures
            final(self).wf(),
            final(self).created() == created_after_link(old(self).handles().len(), old(self).created()),
            final(self).values() == seq![data] + old(self).values(),
            final(self).handles() == seq![final(self).handles()[0]] + old(self).handles(),
            !old(self).handles().contains(final(self).handles()[0]),
            old(self).node_pool().free().len() > 0 ==> final(self).handles()[0] == old(self).node_pool().free().last()
                    && final(self).node_pool().free() == old(self).node_pool().free().drop_last(),
            old(self).node_pool().free().len() == 0 ==> final(self).handles()[0] == old(self).created()
                    && final(self).node_pool().free() == old(self).node_pool().free(),
    {
        match self.head {
            Some(h) => {
                proof {
                    assert(self.order@[0] == h);
                }
                self.insert(Side::Before, data, h);
                proof {
                    assert(old(self).values().insert(0, data) =~= seq![data] + old(self).values());
                    assert(old(self).handles().insert(0, self.handles()[0]) =~= seq![self.handles()[0]]
                        + old(self).handles());
                }
            },
            None => {
                self.push_into_empty(data);
                proof {
                    assert(self.values() =~= seq![data] + old(self).values());
                    assert(self.handles() =~= seq![self.handles()[0]] + old(self).handles());
                }
            },
        }
    }

    /// Adds `data` at the head; the same as `push_front`.
    pub fn push_first(&mut self, data: T)
        requires
            old(self).wf(),
        ensures
            final(self).wf(),
            final(self).created() == created_after_link(old(self).handles().len(), old(self).created()),
            final(self).values() == seq![data] + old(self).values(),
            final(self).handles() == seq![final(self).handles()[0]] + old(self).handles(),
            !old(self).handles().contains(final(self).handles()[0]),
            old(self).node_pool().free().len() > 0 ==> final(self).handles()[0] == old(self).node_pool().free().last()
                    && final(self).node_pool().free() == old(self).node_pool().free().drop_last(),
            old(self).node_pool().free().len() == 0 ==> final(self).handles()[0] == old(self).created()
                    && final(self).node_pool().free() == old(self).node_pool().free(),
    {
        self.push_front(data)
    }

    /// Adds `data` at the tail.
    pub fn push_back(&mut self, data: T)
        requires
            old(self).wf(),
        ensures
            final(self).wf(),
            final(self).created() == created_after_link(old(self).handles().len(), old(self).created()),
            final(self).values() == old(self).values().push(data),
            final(self).handles() == old(self).handles().push(final(self).handles().last()),
            !old(self).handles().contains(final(self).handles().last()),
            old(self).node_pool().free().len() > 0 ==> final(self).handles().last() == old(self).node_pool().free().last()
                    && final(self).node_pool().free() == old(self).node_pool().free().drop_last(),
            old(self).node_pool().free().len() == 0 ==> final(self).handles().last() == old(self).created()
                    && final(self).node_pool().free() == old(self).node_pool().free(),
    {
        match self.tail {
            Some(t) => {
                let ghost n = self.order@.len() - 1;
                proof {
                    assert(self.order@[n] == t);
                }
                self.insert(Side::After, data, t);
                proof {
                    assert(old(self).values().insert(n + 1, data) =~= old(self).values().push(data));
                    let h = self.handles()[n + 1];
                    assert(old(self).handles().insert(n + 1, h) =~= old(self).handles().push(h));
                }
            },
            None => {
                self.push_into_empty(data);
                proof {
                    assert(self.values() =~= old(self).values().push(data));
                    assert(self.handles() =~= old(self).handles().push(self.handles().last()));
                }
            },
        }
    }

    /// Removes the tail and yields its payload; `None` when the list is empty,
    /// which is then left as it was.
    pub fn pop_back(&mut self) -> (r: Option<T>)
        requires
            old(self).wf(),
        ensures
            final(self).wf(),
            final(self).created() == old(self).created(),
            old(self).values().len() == 0 ==> r is None && final(self).handles() == old(self).handles()
                && final(self).values() == old(self).values() 
                && final(self).node_pool() == old(self).node_pool(),
            old(self).values().len() > 0 ==> r == Some(old(self).values().last())
                && final(self).handles() == old(self).handles().drop_last()
                && final(self).values() == old(self).values().drop_last(),
            old(self).values().len() > 0 ==> final(self).node_pool().free()
                == old(self).node_pool().free().push(old(self).handles().last()),
    {
        match self.tail {
            Some(t) => {
                let ghost n = self.order@.len() - 1;
                proof {
                    assert(self.order@[n] == t);
                }
                let r = self.remove(t);
                proof {
                    assert(old(self).values().remove(n) =~= old(self).values().drop_last());
                    assert(old(self).handles().remove(n) =~= old(self).handles().drop_last());
                }
                r
            },
            None => None,
        }
    }

    /// Removes the head and yields its payload; `None` when the list is empty,
    /// which is then left as it was.
    pub fn pop_first(&mut self) -> (r: Option<T>)
        requires
            old(self).wf(),
        ensures
            final(self).wf(),
            final(self).created() == old(self).created(),
            old(self).values().len() == 0 ==> r is None && final(self).handles() == old(self).handles()
                && final(self).values() == old(self).values() 
                && final(self).node_pool() == old(self).node_pool(),
            old(self).values().len() > 0 ==> r == Some(old(self).values()[0])
                && final(self).handles() == old(self).handles().drop_first()
                && final(self).values() == old(self).values().drop_first(),
            old(self).values().len() > 0 ==> final(self).node_pool().free()
                == old(self).node_pool().free().push(old(self).handles()[0]),
    {
        match self.head {
            Some(h) => {
                proof {
                    assert(self.order@[0] == h);
                }
                let r = self.remove(h);
                proof {
                    assert(old(self).values().remove(0) =~= old(self).values().drop_first());
                    assert(old(self).handles().remove(0) =~= old(self).handles().drop_first());
                }
                r
            },
            None => None,
        }
    }

    /// Points `left` and `right` at each other; where a side is absent, the
    /// other becomes the head or the tail.
    fn bridge(&mut self, left: Option<usize>, right: Option<usize>)
        requires
            left matches Some(l) ==> l < old(self).pool.nodes().len(),
            right matches Some(r) ==> r < old(self).pool.nodes().len(),
            left matches Some(l) ==> right != Some(l),
        ensures
            final(self).order == old(self).order,
            final(self).pool.free() == old(self).pool.free(),
            final(self).pool.nodes().len() == old(self).pool.nodes().len(),
            left matches Some(l) ==> final(self).pool.nodes()[l as int] == (Node {
                next: right,
                ..old(self).pool.nodes()[l as int]
            }),
            right matches Some(r) ==> final(self).pool.nodes()[r as int] == (Node {
                prev: left,
                ..old(self).pool.nodes()[r as int]
            }),
            forall|x: int|
                0 <= x < old(self).pool.nodes().len() && Some(x as usize) != left && Some(x as usize)
                    != right ==> #[trigger] final(self).pool.nodes()[x] == old(self).pool.nodes()[x],
            final(self).head == if left is None { right } else { old(self).head },
            final(self).tail == if right is None { left } else { old(self).tail },
    {
        match left {
            Some(l) => self.pool.set_next(l, right),
            None => self.head = right,
        }
        match right {
            Some(r) => self.pool.set_prev(r, left),
            None => self.tail = left,
        }
    }

    /// Points node `fresh` at `left` and `right`, and points those back at
    /// it; where a side is absent, `fresh` becomes the head or the tail.
    fn splice(&mut self, fresh: usize, left: Option<usize>, right: Option<usize>)
        requires
            fresh < old(self).pool.nodes().len(),
            left matches Some(l) ==> l < old(self).pool.nodes().len() && l != fresh,
            right matches Some(r) ==> r < old(self).pool.nodes().len() && r != fresh,
            left matches Some(l) ==> right != Some(l),
        ensures
            final(self).order == old(self).order,
            final(self).pool.free() == old(self).pool.free(),
            final(self).pool.nodes().len() == old(self).pool.nodes().len(),
            final(self).pool.nodes()[fresh as int] == (Node {
                data: old(self).pool.nodes()[fresh as int].data,
                prev: left,
                next: right,
            }),
            left matches Some(l) ==> final(self).pool.nodes()[l as int] == (Node {
                next: Some(fresh),
                ..old(self).pool.nodes()[l as int]
            }),
            right matches Some(r) ==> final(self).pool.nodes()[r as int] == (Node {
                prev: Some(fresh),
                ..old(self).pool.nodes()[r as int]
            }),
            forall|x: int|
                0 <= x < old(self).pool.nodes().len() && x != fresh && Some(x as usize) != left && Some(
                    x as usize,
                ) != right ==> #[trigger] final(self).pool.nodes()[x] == old(self).pool.nodes()[x],
            final(self).head == if left is None { Some(fresh) } else { old(self).head },
            final(self).tail == if right is None { Some(fresh) } else { old(self).tail },
    {
        self.pool.set_prev(fresh, left);
        self.pool.set_next(fresh, right);
        match left {
            Some(l) => self.pool.set_next(l, Some(fresh)),
            None => self.head = Some(fresh),
        }
        match right {
            Some(r) => self.pool.set_prev(r, Some(fresh)),
            None => self.tail = Some(fresh),
        }
    }
}

} // verus!
