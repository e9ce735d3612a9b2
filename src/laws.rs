use vstd::prelude::*;
use crate::Side;
use crate::linked_list::{created_after_link, DoublyLinkedList};

verus! {

/// `s` read from its last element to its first.
pub open spec fn backwards<T>(s: Seq<T>) -> Seq<T> {
    Seq::new(s.len(), |i: int| s[s.len() - 1 - i])
}

/// The contents after pushing `v` at the head (`Before`) or the tail
/// (`After`), as `push_front` and `push_back` state it.
pub open spec fn push_at<T>(s: Seq<T>, end: Side, v: T) -> Seq<T> {
    match end {
        Side::Before => seq![v] + s,
        Side::After => s.push(v),
    }
}

/// The payload that `pop_first` (`Before`) or `pop_back` (`After`) yields
/// from non-empty contents `s`.
pub open spec fn peek_at<T>(s: Seq<T>, end: Side) -> T {
    match end {
        Side::Before => s[0],
        Side::After => s.last(),
    }
}

/// The contents after `pop_first` (`Before`) or `pop_back` (`After`) on
/// non-empty contents `s`.
pub open spec fn pop_at<T>(s: Seq<T>, end: Side) -> Seq<T> {
    match end {
        Side::Before => s.drop_first(),
        Side::After => s.drop_last(),
    }
}

/// Runs `ops` on contents `s`: `Some(v)` pushes `v` at `push_end`, `None`
/// pops at `pop_end` (and does nothing on empty contents). Yields the final
/// contents and the payloads popped, in the order they came out.
pub open spec fn run<T>(s: Seq<T>, ops: Seq<Option<T>>, push_end: Side, pop_end: Side) -> (Seq<T>, Seq<T>)
    decreases ops.len(),
{
    if ops.len() == 0 {
        (s, Seq::empty())
    } else {
        match ops[0] {
            Some(v) => run(push_at(s, push_end, v), ops.drop_first(), push_end, pop_end),
            None => if s.len() == 0 {
                run(s, ops.drop_first(), push_end, pop_end)
            } else {
                let r = run(pop_at(s, pop_end), ops.drop_first(), push_end, pop_end);
                (r.0, seq![peek_at(s, pop_end)] + r.1)
            },
        }
    }
}

/// The payloads that `ops` pushes, in order.
pub open spec fn pushes<T>(ops: Seq<Option<T>>) -> Seq<T>
    decreases ops.len(),
{
    if ops.len() == 0 {
        Seq::empty()
    } else {
        match ops[0] {
            Some(v) => seq![v] + pushes(ops.drop_first()),
            None => pushes(ops.drop_first()),
        }
    }
}

/// Queue order through `push_back` and `pop_first`: the payloads popped,
/// followed by what is left, are the starting contents followed by the
/// payloads pushed, in the same order.
pub proof fn lemma_fifo_back_to_front<T>(s: Seq<T>, ops: Seq<Option<T>>)
    ensures
        ({
            let r = run(s, ops, Side::After, Side::Before);
            r.1 + r.0 == s + pushes(ops)
        }),
    decreases ops.len(),
{
    if ops.len() > 0 {
        let rest = ops.drop_first();
        match ops[0] {
            Some(v) => {
                lemma_fifo_back_to_front(s.push(v), rest);
                assert(s.push(v) + pushes(rest) =~= s + (seq![v] + pushes(rest)));
            },
            None => {
                if s.len() > 0 {
                    lemma_fifo_back_to_front(s.drop_first(), rest);
                    let r = run(s.drop_first(), rest, Side::After, Side::Before);
                    assert(seq![s[0]] + r.1 + r.0 =~= seq![s[0]] + (r.1 + r.0));
                    assert(seq![s[0]] + (s.drop_first() + pushes(rest)) =~= s + pushes(rest));
                } else {
                    lemma_fifo_back_to_front(s, rest);
                }
            },
        }
    } else {
        assert(Seq::<T>::empty() + s =~= s + Seq::<T>::empty());
    }
}

/// Queue order through `push_front` and `pop_back`: read from tail to
/// head, the payloads popped, followed by what is left, are the starting
/// contents followed by the payloads pushed, in the same order.
pub proof fn lemma_fifo_front_to_back<T>(s: Seq<T>, ops: Seq<Option<T>>)
    ensures
        ({
            let r = run(s, ops, Side::Before, Side::After);
            r.1 + backwards(r.0) == backwards(s) + pushes(ops)
        }),
    decreases ops.len(),
{
    if ops.len() > 0 {
        let rest = ops.drop_first();
        match ops[0] {
            Some(v) => {
                lemma_fifo_front_to_back(seq![v] + s, rest);
                assert(backwards(seq![v] + s) =~= backwards(s).push(v));
                assert(backwards(s).push(v) + pushes(rest) =~= backwards(s) + (seq![v] + pushes(rest)));
            },
            None => {
                if s.len() > 0 {
                    lemma_fifo_front_to_back(s.drop_last(), rest);
                    let r = run(s.drop_last(), rest, Side::Before, Side::After);
                    assert(seq![s.last()] + r.1 + backwards(r.0) =~= seq![s.last()] + (r.1 + backwards(r.0)));
                    assert(backwards(s) =~= seq![s.last()] + backwards(s.drop_last()));
                    assert(seq![s.last()] + (backwards(s.drop_last()) + pushes(rest)) =~= backwards(s)
                        + pushes(rest));
                } else {
                    lemma_fifo_front_to_back(s, rest);
                }
            },
        }
    } else {
        assert(Seq::<T>::empty() + backwards(s) =~= backwards(s) + Seq::<T>::empty());
    }
}

/// The operations that push each of `vs` in turn and then pop as many times.
pub open spec fn push_all_then_pop_all<T>(vs: Seq<T>) -> Seq<Option<T>> {
    vs.map_values(|v: T| Some(v)) + Seq::new(vs.len(), |i: int| None)
}

/// Stack order through `push_back` and `pop_back`: pushing any payloads and
/// then popping as many times yields them last-pushed first and leaves the
/// contents as they were.
pub proof fn lemma_lifo<T>(s: Seq<T>, vs: Seq<T>)
    ensures
        run(s, push_all_then_pop_all(vs), Side::After, Side::After) == (s, backwards(vs)),
    decreases vs.len(),
{
    if vs.len() > 0 {
        let v = vs[0];
        let tail = vs.drop_first();
        let ops = push_all_then_pop_all(vs);
        let inner = push_all_then_pop_all(tail);
        lemma_lifo(s.push(v), tail);
        // After pushing `v`, the rest of the run is the run of `tail` on
        // `s.push(v)` followed by one more pop.
        assert(ops.drop_first() =~= inner.push(None));
        lemma_run_then_pop(s.push(v), inner);
        assert(backwards(tail).push(v) =~= backwards(vs));
    } else {
        assert(push_all_then_pop_all(vs) =~= Seq::<Option<T>>::empty());
        assert(backwards(vs) =~= Seq::<T>::empty());
    }
}

/// Appending one pop to a push-and-pop run of `push_back`/`pop_back` pops
/// once more from what the run leaves.
proof fn lemma_run_then_pop<T>(s: Seq<T>, ops: Seq<Option<T>>)
    ensures
        ({
            let r = run(s, ops, Side::After, Side::After);
            run(s, ops.push(None), Side::After, Side::After) == if r.0.len() == 0 {
                r
            } else {
                (r.0.drop_last(), r.1.push(r.0.last()))
            }
        }),
    decreases ops.len(),
{
    let e: Seq<Option<T>> = Seq::empty();
    let longer = ops.push(None);
    if ops.len() == 0 {
        assert(longer[0] == None::<T>);
        assert(longer.drop_first() =~= e);
        assert(run(s, e, Side::After, Side::After) == (s, Seq::<T>::empty()));
        if s.len() > 0 {
            assert(run(s.drop_last(), e, Side::After, Side::After) == (s.drop_last(), Seq::<T>::empty()));
            assert(seq![s.last()] + Seq::<T>::empty() =~= Seq::<T>::empty().push(s.last()));
        } else {
            assert(run(s, e, Side::After, Side::After) == (s, Seq::<T>::empty()));
        }
    } else {
        let rest = ops.drop_first();
        assert(longer[0] == ops[0]);
        assert(longer.drop_first() =~= rest.push(None));
        match ops[0] {
            Some(v) => {
                lemma_run_then_pop(s.push(v), rest);
            },
            None => {
                if s.len() > 0 {
                    lemma_run_then_pop(s.drop_last(), rest);
                    let r = run(s.drop_last(), rest, Side::After, Side::After);
                    if r.0.len() > 0 {
                        assert(seq![s.last()] + r.1.push(r.0.last()) =~= (seq![s.last()] + r.1).push(
                            r.0.last(),
                        ));
                    }
                } else {
                    lemma_run_then_pop(s, rest);
                }
            },
        }
    }
}

/// Inserting next to the anchor at position `i` and then removing the node
/// that the insert linked yields the inserted payload and leaves the list as it
/// was: the same handles in the same order, hence the same head, tail and
/// links, and the same payloads. When the pool had a free node to lend, its
/// free collection is also as it was. The requirements are what `insert` and
/// `remove` ensure of `mid` and `after`.
pub proof fn lemma_insert_then_remove<T>(
    before: DoublyLinkedList<T>,
    mid: DoublyLinkedList<T>,
    after: DoublyLinkedList<T>,
    side: Side,
    data: T,
    i: int,
    r: Option<T>,
)
    requires
        before.wf(),
        mid.wf(),
        0 <= i < before.handles().len(),
        ({
            let k = if side == Side::Before { i } else { i + 1 };
            &&& !before.handles().contains(mid.handles()[k])
            &&& mid.handles() == before.handles().insert(k, mid.handles()[k])
            &&& mid.values() == before.values().insert(k, data)
            &&& before.node_pool().free().len() > 0 ==> mid.handles()[k] == before.node_pool().free().last()
                && mid.node_pool().free() == before.node_pool().free().drop_last()
        }),
        after.node_pool().free() == mid.node_pool().free().push(
            mid.handles()[if side == Side::Before { i } else { i + 1 }],
        ),
        forall|j: int|
            0 <= j < mid.handles().len() && mid.handles()[j] == mid.handles()[if side == Side::Before {
                i
            } else {
                i + 1
            }] ==> {
                &&& r == Some(mid.values()[j])
                &&& after.handles() == mid.handles().remove(j)
                &&& after.values() == mid.values().remove(j)
            },
    ensures
        r == Some(data),
        after.handles() == before.handles(),
        after.values() == before.values(),
        before.node_pool().free().len() > 0 ==> after.node_pool().free() == before.node_pool().free(),
{
    let k = if side == Side::Before { i } else { i + 1 };
    if before.node_pool().free().len() > 0 {
        assert(before.node_pool().free().drop_last().push(before.node_pool().free().last())
            =~= before.node_pool().free());
    }
    before.lemma_len_bounded();
    mid.lemma_len_bounded();
    assert(mid.values()[k] == data);
    assert(before.handles().insert(k, mid.handles()[k]).remove(k) =~= before.handles());
    assert(before.values().insert(k, data).remove(k) =~= before.values());
}

/// The linked count after linking (`true`) or unlinking (`false`) one node.
pub open spec fn linked_after(linked: nat, link: bool) -> nat {
    if link {
        linked + 1
    } else if linked > 0 {
        (linked - 1) as nat
    } else {
        0
    }
}

/// The number of nodes created after `ops` (`true` links a node, `false`
/// unlinks one), starting from `linked` nodes in use out of `created`.
pub open spec fn created_after(linked: nat, created: nat, ops: Seq<bool>) -> nat
    decreases ops.len(),
{
    if ops.len() == 0 {
        created
    } else if ops[0] {
        created_after(linked + 1, created_after_link(linked, created), ops.drop_first())
    } else {
        created_after(linked_after(linked, false), created, ops.drop_first())
    }
}

/// The largest number of nodes in use at any point of `ops`.
pub open spec fn peak(linked: nat, ops: Seq<bool>) -> nat
    decreases ops.len(),
{
    if ops.len() == 0 {
        linked
    } else {
        let rest = peak(linked_after(linked, ops[0]), ops.drop_first());
        if linked < rest {
            rest
        } else {
            linked
        }
    }
}

/// The peak is at least the starting count.
proof fn lemma_peak_at_least(linked: nat, ops: Seq<bool>)
    ensures
        peak(linked, ops) >= linked,
    decreases ops.len(),
{
    if ops.len() > 0 {
        lemma_peak_at_least(linked_after(linked, ops[0]), ops.drop_first());
    }
}

/// Pool reuse: over any mix of links and unlinks, the arena ends with as many
/// nodes as it started with or as were ever in use at once, whichever is
/// more. In particular a pool populated with at least as many nodes as are
/// ever in use never allocates.
pub proof fn lemma_pool_reuse(linked: nat, created: nat, ops: Seq<bool>)
    requires
        linked <= created,
    ensures
        created_after(linked, created, ops) == if created < peak(linked, ops) {
            peak(linked, ops)
        } else {
            created
        },
        peak(linked, ops) <= created ==> created_after(linked, created, ops) == created,
    decreases ops.len(),
{
    if ops.len() > 0 {
        let rest = ops.drop_first();
        if ops[0] {
            lemma_pool_reuse(linked + 1, created_after_link(linked, created), rest);
            lemma_peak_at_least(linked + 1, rest);
        } else {
            lemma_pool_reuse(linked_after(linked, false), created, rest);
        }
    }
}

/// `b` follows `a` by one call as the list's contracts state it: a call that
/// links a node (`push_front`, `push_first`, `push_back`, `insert`) adds one
/// handle and creates a node only when none is free; any other call creates
/// none.
pub open spec fn pool_step<T>(a: DoublyLinkedList<T>, b: DoublyLinkedList<T>) -> bool {
    ||| b.handles().len() == a.handles().len() + 1 && b.created() == created_after_link(
        a.handles().len(),
        a.created(),
    )
    ||| b.created() == a.created()
}

/// Pool reuse on a list: along any history of calls that starts with `k`
/// nodes created (say, by `init(k, ..)` on a new list) and never has more
/// than `k` nodes linked, no node is ever created.
pub proof fn lemma_list_pool_reuse<T>(states: Seq<DoublyLinkedList<T>>, k: nat)
    requires
        states.len() > 0,
        states[0].created() == k,
        forall|j: int| 0 <= j < states.len() ==> (#[trigger] states[j]).handles().len() <= k,
        forall|j: int| 0 <= j < states.len() - 1 ==> pool_step(#[trigger] states[j], states[j + 1]),
    ensures
        forall|j: int| 0 <= j < states.len() ==> (#[trigger] states[j]).created() == k,
    decreases states.len(),
{
    if states.len() > 1 {
        let front = states.drop_last();
        assert forall|j: int| 0 <= j < front.len() - 1 implies pool_step(#[trigger] front[j], front[j + 1]) by {
            assert(front[j] == states[j] && front[j + 1] == states[j + 1]);
        }
        assert forall|j: int| 0 <= j < front.len() implies (#[trigger] front[j]).handles().len() <= k by {
            assert(front[j] == states[j]);
        }
        lemma_list_pool_reuse(front, k);
        let n = states.len() - 1;
        assert(front[n - 1] == states[n - 1]);
        assert(pool_step(states[n - 1], states[n]));
        assert(states[n].handles().len() <= k);
        assert forall|j: int| 0 <= j < states.len() implies (#[trigger] states[j]).created() == k by {
            if j < n {
                assert(front[j] == states[j]);
            }
        }
    }
}

} // verus!
