use vstd::prelude::*;
use vstd::multiset::Multiset;

use min_max_heap::MinMaxHeap;

verus! {

#[verifier::external_type_specification]
#[verifier::external_body]
#[verifier::reject_recursive_types(T)]
pub struct ExMinMaxHeap<T>(MinMaxHeap<T>);

/// The items a heap holds.
pub uninterp spec fn heap_items(h: MinMaxHeap<(u64, u64)>) -> Multiset<(u64, u64)>;

/// The order of std's tuples: by the first field, then by the second.
pub open spec fn pair_le(a: (u64, u64), b: (u64, u64)) -> bool {
    a.0 < b.0 || (a.0 == b.0 && a.1 <= b.1)
}

/// Relies on `MinMaxHeap::with_capacity`: the heap starts empty.
#[verifier::external_body]
fn heap_with_capacity(capacity: usize) -> (r: MinMaxHeap<(u64, u64)>)
    ensures
        heap_items(r) == Multiset::<(u64, u64)>::empty(),
{
    MinMaxHeap::with_capacity(capacity)
}

/// Relies on `MinMaxHeap::len`: the number of items held.
#[verifier::external_body]
fn heap_len(h: &MinMaxHeap<(u64, u64)>) -> (r: usize)
    ensures
        r == heap_items(*h).len(),
{
    h.len()
}

/// Relies on `MinMaxHeap::peek_min`: a least item, or `None` when empty.
#[verifier::external_body]
fn heap_peek_min(h: &MinMaxHeap<(u64, u64)>) -> (r: Option<(u64, u64)>)
    ensures
        match r {
            None => heap_items(*h).len() == 0,
            Some(m) => heap_items(*h).contains(m) && forall|x: (u64, u64)|
                #[trigger] heap_items(*h).contains(x) ==> pair_le(m, x),
        },
{
    h.peek_min().copied()
}

/// Relies on `MinMaxHeap::push`: the item is added.
#[verifier::external_body]
fn heap_push(h: &mut MinMaxHeap<(u64, u64)>, v: (u64, u64))
    ensures
        heap_items(*final(h)) == heap_items(*old(h)).insert(v),
{
    h.push(v)
}

/// Relies on `MinMaxHeap::push_pop_min`: pushes the item, then removes and
/// returns a least item.
#[verifier::external_body]
fn heap_push_pop_min(h: &mut MinMaxHeap<(u64, u64)>, v: (u64, u64)) -> (r: (u64, u64))
    ensures
        heap_items(*old(h)).insert(v).contains(r),
        forall|x: (u64, u64)| #[trigger] heap_items(*old(h)).insert(v).contains(x) ==> pair_le(r, x),
        heap_items(*final(h)) == heap_items(*old(h)).insert(v).remove(r),
{
    h.push_pop_min(v)
}

/// Keeps the `capacity` greatest items inserted into it.
pub struct FixedHeap {
    inner: MinMaxHeap<(u64, u64)>,
    capacity: usize,
}

/// One insertion into a bounded heap: `kept` becomes `kept2`, and `out` is
/// the item turned away, if any.
pub open spec fn insert_step(
    kept: Multiset<(u64, u64)>,
    v: (u64, u64),
    capacity: nat,
    kept2: Multiset<(u64, u64)>,
    out: Option<(u64, u64)>,
) -> bool {
    match out {
        None => kept.len() < capacity && kept2 == kept.insert(v),
        Some(x) => {
            &&& kept.len() == capacity
            &&& kept2.insert(x) == kept.insert(v)
            &&& forall|y: (u64, u64)| #[trigger] kept2.contains(y) ==> pair_le(x, y)
        },
    }
}

impl FixedHeap {
    pub closed spec fn items(&self) -> Multiset<(u64, u64)> {
        heap_items(self.inner)
    }

    pub closed spec fn cap(&self) -> nat {
        self.capacity as nat
    }

    pub closed spec fn wf(&self) -> bool {
        heap_items(self.inner).len() <= self.capacity
    }

    pub fn new(capacity: usize) -> (r: FixedHeap)
        ensures
            r.wf(),
            r.items() == Multiset::<(u64, u64)>::empty(),
            r.cap() == capacity,
    {
        FixedHeap { inner: heap_with_capacity(capacity), capacity }
    }

    /// Inserts `v`. Below capacity it is kept and nothing is returned. At
    /// capacity, when `v` is greater than the least item held, that item is
    /// replaced and returned; otherwise `v` itself is returned.
    pub fn insert(&mut self, v: (u64, u64)) -> (r: Option<(u64, u64)>)
        requires
            old(self).wf(),
        ensures
            final(self).wf(),
            final(self).cap() == old(self).cap(),
            insert_step(old(self).items(), v, old(self).cap(), final(self).items(), r),
    {
        if heap_len(&self.inner) == self.capacity {
            match heap_peek_min(&self.inner) {
                Some(m) => {
                    if m.0 < v.0 || (m.0 == v.0 && m.1 < v.1) {
                        let ghost before = heap_items(self.inner);
                        let out = heap_push_pop_min(&mut self.inner, v);
                        proof {
                            broadcast use vstd::multiset::group_multiset_axioms;
                            let all = before.insert(v);
                            assert(heap_items(self.inner).insert(out) =~= all);
                            assert forall|y: (u64, u64)| #[trigger] heap_items(self.inner).contains(y)
                                implies pair_le(out, y) by {
                                assert(all.contains(y));
                            }
                        }
                        Some(out)
                    } else {
                        proof {
                            assert forall|y: (u64, u64)| #[trigger] heap_items(self.inner).contains(y)
                                implies pair_le(v, y) by {
                                assert(pair_le(m, y));
                            }
                        }
                        Some(v)
                    }
                },
                None => Some(v),
            }
        } else {
            heap_push(&mut self.inner, v);
            None
        }
    }

    /// The underlying heap.
    pub fn into_inner(self) -> (r: MinMaxHeap<(u64, u64)>)
        ensures
            heap_items(r) == self.items(),
    {
        self.inner
    }
}

/// What a sequence of insertions into a bounded heap keeps: every item
/// inserted is either kept or turned away (none is lost or duplicated), no
/// more than the capacity is kept and the heap is full once that many were
/// inserted, and every item kept is at least every item turned away. So the
/// items kept are the greatest items inserted.
pub open spec fn top_k(
    kept: Multiset<(u64, u64)>,
    out: Multiset<(u64, u64)>,
    inserted: Multiset<(u64, u64)>,
    capacity: nat,
) -> bool {
    &&& kept.add(out) == inserted
    &&& kept.len() <= capacity
    &&& inserted.len() >= capacity ==> kept.len() == capacity
    &&& out.len() > 0 ==> kept.len() == capacity
    &&& forall|a: (u64, u64), b: (u64, u64)|
        #[trigger] kept.contains(a) && #[trigger] out.contains(b) ==> pair_le(b, a)
}

/// Each insertion keeps `top_k`: from an empty heap, after any number of
/// insertions the heap holds the greatest items inserted.
pub proof fn lemma_top_k_insert(
    kept: Multiset<(u64, u64)>,
    out: Multiset<(u64, u64)>,
    inserted: Multiset<(u64, u64)>,
    capacity: nat,
    v: (u64, u64),
    kept2: Multiset<(u64, u64)>,
    r: Option<(u64, u64)>,
)
    requires
        top_k(kept, out, inserted, capacity),
        insert_step(kept, v, capacity, kept2, r),
    ensures
        top_k(
            kept2,
            match r {
                None => out,
                Some(x) => out.insert(x),
            },
            inserted.insert(v),
            capacity,
        ),
{
    broadcast use vstd::multiset::group_multiset_axioms;
    match r {
        None => {
            assert(kept2.add(out) =~= inserted.insert(v));
            vstd::multiset::lemma_multiset_empty_len(out);
        },
        Some(x) => {
            let out2 = out.insert(x);
            assert(kept2.add(out2) =~= kept2.insert(x).add(out));
            assert(kept2.add(out2) =~= inserted.insert(v));
            vstd::multiset::lemma_insert_len(kept2, x);
            vstd::multiset::lemma_insert_len(kept, v);
            assert(kept2.len() + 1 == kept.len() + 1);
            assert forall|a: (u64, u64), b: (u64, u64)|
                #[trigger] kept2.contains(a) && #[trigger] out2.contains(b) implies pair_le(b, a) by {
                assert(kept2.insert(x).count(a) == kept.insert(v).count(a));
                assert(kept2.insert(x).count(x) == kept.insert(v).count(x));
                if b != x {
                    assert(out.contains(b));
                    if !kept.contains(a) {
                        assert(a == v && a != x);
                        assert(kept.contains(x));
                        assert(pair_le(b, x));
                        assert(pair_le(x, a));
                    }
                }
            }
        },
    }
}

/// An empty heap holds the greatest of no items.
pub proof fn lemma_top_k_empty(capacity: nat)
    ensures
        top_k(
            Multiset::<(u64, u64)>::empty(),
            Multiset::<(u64, u64)>::empty(),
            Multiset::<(u64, u64)>::empty(),
            capacity,
        ),
{
    assert(Multiset::<(u64, u64)>::empty().add(Multiset::<(u64, u64)>::empty()) =~= Multiset::<
        (u64, u64),
    >::empty());
}

} // verus!
