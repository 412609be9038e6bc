//! Proved laws of the ring's semantics, stated over the abstract model.

use crate::model::{
    evicted_next, inserted_after, inserted_before, needs_eviction, removed_front, rotated_left,
    rotated_right,
};
use vstd::prelude::*;

verus! {

/// One ring operation, as it acts on the abstract cursor-first view.
pub enum RingOp<T> {
    InsertAfter(T),
    InsertBefore(T),
    RemoveCurrent,
    MoveNext,
    MovePrevious,
}

/// Whether an operation inserts a node.
pub open spec fn is_insertion<T>(op: RingOp<T>) -> bool {
    match op {
        RingOp::InsertAfter(_) => true,
        RingOp::InsertBefore(_) => true,
        _ => false,
    }
}

/// The view after one operation on a ring with capacity `cap`.
pub open spec fn applied<T>(s: Seq<T>, cap: Option<usize>, op: RingOp<T>) -> Seq<T> {
    match op {
        RingOp::InsertAfter(v) => inserted_after(s, cap, v),
        RingOp::InsertBefore(v) => inserted_before(s, cap, v),
        RingOp::RemoveCurrent => removed_front(s),
        RingOp::MoveNext => rotated_left(s),
        RingOp::MovePrevious => rotated_right(s),
    }
}

/// The view after a whole sequence of operations, applied first to last.
pub open spec fn applied_all<T>(s: Seq<T>, cap: Option<usize>, ops: Seq<RingOp<T>>) -> Seq<T>
    decreases ops.len(),
{
    if ops.len() == 0 {
        s
    } else {
        applied_all(applied(s, cap, ops[0]), cap, ops.subrange(1, ops.len() as int))
    }
}

/// How many operations of the sequence insert a node.
pub open spec fn insertions<T>(ops: Seq<RingOp<T>>) -> nat
    decreases ops.len(),
{
    if ops.len() == 0 {
        0
    } else {
        (if is_insertion(ops[0]) {
            1 as nat
        } else {
            0 as nat
        }) + insertions(ops.subrange(1, ops.len() as int))
    }
}

/// How many removals of the sequence actually remove a node, that is,
/// run while the ring is non-empty.
pub open spec fn removals_done<T>(s: Seq<T>, cap: Option<usize>, ops: Seq<RingOp<T>>) -> nat
    decreases ops.len(),
{
    if ops.len() == 0 {
        0
    } else {
        (if ops[0] is RemoveCurrent && s.len() > 0 {
            1 as nat
        } else {
            0 as nat
        }) + removals_done(applied(s, cap, ops[0]), cap, ops.subrange(1, ops.len() as int))
    }
}

/// How many insertions of the sequence trigger a capacity eviction.
pub open spec fn evictions<T>(s: Seq<T>, cap: Option<usize>, ops: Seq<RingOp<T>>) -> nat
    decreases ops.len(),
{
    if ops.len() == 0 {
        0
    } else {
        (if is_insertion(ops[0]) && needs_eviction(s.len(), cap) {
            1 as nat
        } else {
            0 as nat
        }) + evictions(applied(s, cap, ops[0]), cap, ops.subrange(1, ops.len() as int))
    }
}

/// Cycle integrity, as an accounting law: after any sequence of
/// operations the node count equals the starting count plus the
/// insertions, minus the removals that found a node to remove, minus the
/// capacity-triggered evictions. Cursor moves change nothing.
pub proof fn lemma_count_accounting<T>(s: Seq<T>, cap: Option<usize>, ops: Seq<RingOp<T>>)
    ensures
        applied_all(s, cap, ops).len() + removals_done(s, cap, ops) + evictions(s, cap, ops)
            == s.len() + insertions(ops),
    decreases ops.len(),
{
    if ops.len() > 0 {
        let s1 = applied(s, cap, ops[0]);
        let rest = ops.subrange(1, ops.len() as int);
        assert(s1.len() + (if ops[0] is RemoveCurrent && s.len() > 0 {
            1 as nat
        } else {
            0 as nat
        }) + (if is_insertion(ops[0]) && needs_eviction(s.len(), cap) {
            1 as nat
        } else {
            0 as nat
        }) == s.len() + (if is_insertion(ops[0]) {
            1 as nat
        } else {
            0 as nat
        })) by {
            match ops[0] {
                RingOp::InsertAfter(v) => {
                    if needs_eviction(s.len(), cap) {
                        let t = evicted_next(s);
                        if s.len() >= 2 {
                            s.remove_ensures(1);
                        }
                        assert(t.len() == s.len() - 1);
                        if t.len() > 0 {
                            t.insert_ensures(1, v);
                        }
                    } else {
                        if s.len() > 0 {
                            s.insert_ensures(1, v);
                        }
                    }
                },
                RingOp::InsertBefore(v) => {
                    assert(inserted_before(s, cap, v).len() == (if needs_eviction(s.len(), cap) {
                        s.len()
                    } else {
                        s.len() + 1
                    }));
                },
                _ => {},
            }
        }
        lemma_count_accounting(s1, cap, rest);
    }
}

/// Capacity bound, one step: with a capacity of at least one, a ring
/// holding no more nodes than the capacity still holds no more after any
/// single operation.
pub proof fn lemma_capacity_preserved_step<T>(s: Seq<T>, m: usize, op: RingOp<T>)
    requires
        m >= 1,
        s.len() <= m,
    ensures
        applied(s, Some(m), op).len() <= m,
{
    match op {
        RingOp::InsertAfter(v) => {
            if needs_eviction(s.len(), Some(m)) {
                let t = evicted_next(s);
                if s.len() >= 2 {
                    s.remove_ensures(1);
                }
                if t.len() > 0 {
                    t.insert_ensures(1, v);
                }
            } else {
                if s.len() > 0 {
                    s.insert_ensures(1, v);
                }
            }
        },
        _ => {},
    }
}

/// Capacity bound: with a capacity of at least one, a ring holding no
/// more nodes than the capacity still holds no more after any sequence of
/// operations — in particular after any number of insertions.
pub proof fn lemma_capacity_bound<T>(s: Seq<T>, m: usize, ops: Seq<RingOp<T>>)
    requires
        m >= 1,
        s.len() <= m,
    ensures
        applied_all(s, Some(m), ops).len() <= m,
    decreases ops.len(),
{
    if ops.len() > 0 {
        lemma_capacity_preserved_step(s, m, ops[0]);
        lemma_capacity_bound(applied(s, Some(m), ops[0]), m, ops.subrange(1, ops.len() as int));
    }
}

/// Cursor stability for `insert_after_current`: the insertion leaves the
/// current value unchanged on any non-empty ring, eviction included,
/// whenever at least two nodes are present. (A triggered eviction on a
/// singleton ring replaces the sole node, so that input is excluded.)
pub proof fn lemma_insert_after_keeps_cursor<T>(s: Seq<T>, cap: Option<usize>, v: T)
    requires
        s.len() > 0,
        needs_eviction(s.len(), cap) ==> s.len() >= 2,
    ensures
        inserted_after(s, cap, v).len() > 0,
        inserted_after(s, cap, v)[0] == s[0],
{
    if needs_eviction(s.len(), cap) {
        let t = evicted_next(s);
        s.remove_ensures(1);
        assert(t[0] == s[0]);
        t.insert_ensures(1, v);
    } else {
        s.insert_ensures(1, v);
    }
}

/// Cursor stability for `insert_before_current`: the insertion leaves the
/// current value unchanged on any non-empty ring when no eviction is
/// needed, and also under eviction whenever at least two nodes are
/// present. (A triggered eviction on a singleton ring replaces the sole
/// node, so that input is excluded.)
pub proof fn lemma_insert_before_keeps_cursor<T>(s: Seq<T>, cap: Option<usize>, v: T)
    requires
        s.len() > 0,
        needs_eviction(s.len(), cap) ==> s.len() >= 2,
    ensures
        inserted_before(s, cap, v).len() > 0,
        inserted_before(s, cap, v)[0] == s[0],
{
}

} // verus!
