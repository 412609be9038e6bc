//! The abstract semantics of the ring.
//!
//! A ring is modelled as the sequence of its payload values in
//! cursor-first forward order: element 0 is the current node, and element
//! `k + 1` is the node reached from element `k` by one `next` step (the
//! node before the cursor is therefore the last element). The spec
//! functions here say how each operation transforms that sequence; the
//! executable methods of `Circle` promise exactly these transformations.

use vstd::prelude::*;

verus! {

/// The ring after one step of the cursor in the `next` direction: the old
/// current node becomes the last element.
pub open spec fn rotated_left<T>(s: Seq<T>) -> Seq<T> {
    if s.len() == 0 {
        s
    } else {
        s.subrange(1, s.len() as int).push(s[0])
    }
}

/// The ring after one step of the cursor in the `previous` direction: the
/// old last element becomes the current node.
pub open spec fn rotated_right<T>(s: Seq<T>) -> Seq<T> {
    if s.len() == 0 {
        s
    } else {
        seq![s[s.len() - 1]] + s.subrange(0, s.len() - 1)
    }
}

/// The ring after removing the current node: the cursor moves to the old
/// `next` neighbour. Removing from an empty ring changes nothing.
pub open spec fn removed_front<T>(s: Seq<T>) -> Seq<T> {
    if s.len() == 0 {
        s
    } else {
        s.subrange(1, s.len() as int)
    }
}

/// An insertion into a non-empty ring at capacity must evict a node first.
pub open spec fn needs_eviction(len: nat, cap: Option<usize>) -> bool {
    match cap {
        Some(m) => 0 < len && m <= len,
        None => false,
    }
}

/// The ring after evicting the node at `cursor.next`, with the cursor
/// staying where it is: the element at index 1 leaves the view. On a
/// singleton ring the sole node itself is evicted.
pub open spec fn evicted_next<T>(s: Seq<T>) -> Seq<T> {
    if s.len() <= 1 {
        Seq::empty()
    } else {
        s.remove(1)
    }
}

/// The ring after `insert_after_current(v)`: when at capacity, the node at
/// `cursor.next` is evicted first and the cursor is restored, so the new
/// node takes the freed slot immediately after the cursor. On an empty
/// ring the new node becomes the sole node and the cursor.
pub open spec fn inserted_after<T>(s: Seq<T>, cap: Option<usize>, v: T) -> Seq<T> {
    let t = if needs_eviction(s.len(), cap) {
        evicted_next(s)
    } else {
        s
    };
    if t.len() == 0 {
        seq![v]
    } else {
        t.insert(1, v)
    }
}

/// Stepping forward, removing the current node, and stepping back evicts
/// exactly the node after the cursor.
pub proof fn lemma_evicted_next_by_steps<T>(s: Seq<T>)
    ensures
        rotated_right(removed_front(rotated_left(s))) == evicted_next(s),
{
    if s.len() >= 2 {
        assert(rotated_right(removed_front(rotated_left(s))) =~= s.remove(1));
    } else {
        assert(rotated_right(removed_front(rotated_left(s))) =~= Seq::<T>::empty());
        assert(evicted_next(s) =~= Seq::<T>::empty());
    }
}

/// The ring after `insert_before_current(v)`: when at capacity, the node at
/// `cursor.previous` is evicted first (step backward, remove, which puts the
/// cursor back on the node it started from); the new node is then spliced
/// immediately before the cursor, so it becomes the last element of the
/// cursor-first view. On an empty ring the new node becomes the sole node.
pub open spec fn inserted_before<T>(s: Seq<T>, cap: Option<usize>, v: T) -> Seq<T> {
    let t = if needs_eviction(s.len(), cap) {
        removed_front(rotated_right(s))
    } else {
        s
    };
    t.push(v)
}

} // verus!
