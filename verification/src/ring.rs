//! The ring itself: an arena-backed circular doubly-linked list.

use crate::model::{
    evicted_next, inserted_after, inserted_before, lemma_evicted_next_by_steps, needs_eviction,
    removed_front, rotated_left, rotated_right,
};
use vstd::pervasive::VecAdditionalExecFns;
use vstd::prelude::*;

verus! {

/// One node of the ring: the payload and the arena indices of its two
/// neighbours. Nodes never exist outside a ring.
struct Node<T> {
    value: T,
    next: usize,
    prev: usize,
}

/// A circular doubly-linked list with a movable cursor (`head`) and an
/// optional capacity (`max_size`).
///
/// Nodes live in the `nodes` arena and refer to each other by slot index;
/// slots vacated by a removal are kept on `free` and reused by later
/// insertions, so the cyclic linkage involves no shared ownership. The
/// ghost `order` records the slot indices in cursor-first forward order
/// and ties the linkage to the abstract view `self@`.
pub struct Circle<T> {
    nodes: Vec<Option<Node<T>>>,
    free: Vec<usize>,
    head: Option<usize>,
    max_size: Option<usize>,
    order: Ghost<Seq<usize>>,
}

impl<T> Circle<T> {
    /// The arena slot `i`.
    spec fn slot(&self, i: usize) -> Option<Node<T>> {
        self.nodes@[i as int]
    }

    /// Slot `i` exists and holds a node.
    spec fn live(&self, i: usize) -> bool {
        i < self.nodes@.len() && self.slot(i) is Some
    }

    /// The node in slot `i`.
    spec fn node(&self, i: usize) -> Node<T>
        recommends
            self.live(i),
    {
        self.slot(i).unwrap()
    }

    /// The cyclic linkage: following `next` from the cursor visits exactly
    /// the slots of `order`, each pair of neighbours points at each other,
    /// and a singleton ring is a self-loop.
    spec fn linked(&self) -> bool {
        let ord = self.order@;
        let n = ord.len() as int;
        &&& forall|k: int| 0 <= k < n ==> self.live(#[trigger] ord[k])
        &&& ord.no_duplicates()
        &&& forall|k: int| 0 <= k < n - 1 ==> (#[trigger] self.node(ord[k])).next == ord[k + 1]
        &&& (n > 0 ==> self.node(ord[n - 1]).next == ord[0])
        &&& forall|k: int| 1 <= k < n ==> (#[trigger] self.node(ord[k])).prev == ord[k - 1]
        &&& (n > 0 ==> self.node(ord[0]).prev == ord[n - 1])
    }

    /// The free list names distinct vacant slots of the arena.
    spec fn free_ok(&self) -> bool {
        let fr = self.free@;
        &&& forall|k: int|
            0 <= k < fr.len() ==> (#[trigger] fr[k]) < self.nodes@.len() && self.nodes@[fr[k] as int] is None
        &&& fr.no_duplicates()
    }

    /// Well-formedness of the ring, maintained by every operation: the
    /// cursor is unset exactly when the ring is empty and otherwise names
    /// the first node of `order`, the linkage forms a single cycle, the
    /// arena is fully accounted for, and a configured capacity of at least
    /// one bounds the number of nodes.
    pub closed spec fn wf(&self) -> bool {
        &&& (self.head is None <==> self.order@.len() == 0)
        &&& (self.order@.len() > 0 ==> self.head == Some(self.order@[0]))
        &&& self.linked()
        &&& self.free_ok()
        &&& self.order@.len() + self.free@.len() == self.nodes@.len()
        &&& (match self.max_size {
            Some(m) => m >= 1 ==> self.order@.len() <= m,
            None => true,
        })
    }

    /// The capacity the ring was constructed with.
    pub closed spec fn capacity(&self) -> Option<usize> {
        self.max_size
    }
}

impl<T> View for Circle<T> {
    type V = Seq<T>;

    /// The ring's values in cursor-first forward order.
    closed spec fn view(&self) -> Seq<T> {
        Seq::new(self.order@.len(), |k: int| self.node(self.order@[k]).value)
    }
}

impl<T> Circle<T> {
    /// Creates an empty ring with an optional capacity.
    pub fn new(max_size: Option<usize>) -> (r: Circle<T>)
        ensures
            r.wf(),
            r@ == Seq::<T>::empty(),
            r.capacity() == max_size,
    {
        let r = Circle {
            nodes: Vec::new(),
            free: Vec::new(),
            head: None,
            max_size,
            order: Ghost(Seq::empty()),
        };
        proof {
            assert(r@ =~= Seq::<T>::empty());
        }
        r
    }

    /// True iff the ring has no nodes.
    pub fn is_empty(&self) -> (r: bool)
        requires
            self.wf(),
        ensures
            r == (self@.len() == 0),
    {
        self.head.is_none()
    }

    /// A copy of the current node's value, or `None` on an empty ring.
    pub fn current_value(&self) -> (r: Option<T>)
        where T: Clone
        requires
            self.wf(),
        ensures
            r is Some <==> self@.len() > 0,
            r matches Some(v) ==> cloned(self@[0], v),
    {
        match self.head {
            Some(h) => {
                proof {
                    assert(self.live(self.order@[0]));
                }
                match &self.nodes[h] {
                    Some(nd) => Some(nd.value.clone()),
                    None => unreached(),
                }
            },
            None => None,
        }
    }

    /// The slot index of `next` of the node in slot `i`.
    fn next_of(&self, i: usize) -> (r: usize)
        requires
            self.live(i),
        ensures
            r == self.node(i).next,
    {
        match &self.nodes[i] {
            Some(nd) => nd.next,
            None => unreached(),
        }
    }

    /// Makes the node in slot `j` the successor of the node in slot `i`:
    /// sets `i.next` to `j` and `j.prev` to `i`, touching nothing else.
    /// With `i == j` this self-links the node.
    fn combine(&mut self, i: usize, j: usize)
        requires
            old(self).live(i),
            old(self).live(j),
        ensures
            final(self).nodes@.len() == old(self).nodes@.len(),
            forall|k: int|
                0 <= k < old(self).nodes@.len() && k != i && k != j ==> final(self).nodes@[k]
                    == old(self).nodes@[k],
            final(self).live(i),
            final(self).live(j),
            final(self).node(i).next == j,
            final(self).node(i).value == old(self).node(i).value,
            final(self).node(j).prev == i,
            final(self).node(j).value == old(self).node(j).value,
            i != j ==> final(self).node(i).prev == old(self).node(i).prev,
            i != j ==> final(self).node(j).next == old(self).node(j).next,
            final(self).head == old(self).head,
            final(self).max_size == old(self).max_size,
            final(self).free == old(self).free,
            final(self).order == old(self).order,
    {
        if i == j {
            let mut slot: Option<Node<T>> = None;
            self.nodes.set_and_swap(i, &mut slot);
            match slot {
                Some(nd) => {
                    self.nodes.set(i, Some(Node { value: nd.value, next: j, prev: i }));
                },
                None => unreached(),
            }
        } else {
            let mut slot: Option<Node<T>> = None;
            self.nodes.set_and_swap(i, &mut slot);
            match slot {
                Some(nd) => {
                    self.nodes.set(i, Some(Node { value: nd.value, next: j, prev: nd.prev }));
                },
                None => unreached(),
            }
            let mut slot2: Option<Node<T>> = None;
            self.nodes.set_and_swap(j, &mut slot2);
            match slot2 {
                Some(nd) => {
                    self.nodes.set(j, Some(Node { value: nd.value, next: nd.next, prev: i }));
                },
                None => unreached(),
            }
        }
    }

    /// Puts `value` into a vacant arena slot — reusing a freed slot when
    /// one exists, extending the arena otherwise — and returns its index.
    /// The new node starts out self-linked; the caller splices it in.
    fn new_node(&mut self, value: T) -> (j: usize)
        requires
            old(self).free_ok(),
        ensures
            final(self).free_ok(),
            final(self).head == old(self).head,
            final(self).max_size == old(self).max_size,
            final(self).order == old(self).order,
            j < final(self).nodes@.len(),
            !old(self).live(j),
            forall|k: int|
                0 <= k < old(self).nodes@.len() && k != j ==> final(self).nodes@[k]
                    == old(self).nodes@[k],
            old(self).free@.len() > 0 ==> final(self).free@ == old(self).free@.drop_last()
                && final(self).nodes@.len() == old(self).nodes@.len(),
            old(self).free@.len() == 0 ==> final(self).free@ == old(self).free@ && j == old(
                self,
            ).nodes@.len() && final(self).nodes@.len() == old(self).nodes@.len() + 1,
            final(self).live(j),
            final(self).node(j).value == value,
            final(self).node(j).next == j,
            final(self).node(j).prev == j,
    {
        let popped = self.free.pop();
        match popped {
            Some(j) => {
                proof {
                    assert(old(self).free@[old(self).free@.len() - 1] == j);
                    assert(!old(self).live(j));
                }
                self.nodes.set(j, Some(Node { value, next: j, prev: j }));
                proof {
                    assert forall|k: int|
                        0 <= k < final(self).free@.len() implies (#[trigger] final(self).free@[k])
                        < final(self).nodes@.len() && final(self).nodes@[final(self).free@[k] as int]
                        is None by {
                        assert(final(self).free@[k] == old(self).free@[k]);
                        assert(old(self).free@[k] != j);
                    }
                }
                j
            },
            None => {
                let j = self.nodes.len();
                self.nodes.push(Some(Node { value, next: j, prev: j }));
                j
            },
        }
    }

    /// The slot index of `previous` of the node in slot `i`.
    fn prev_of(&self, i: usize) -> (r: usize)
        requires
            self.live(i),
        ensures
            r == self.node(i).prev,
    {
        match &self.nodes[i] {
            Some(nd) => nd.prev,
            None => unreached(),
        }
    }

    /// Moves the cursor one step in the chosen direction without touching
    /// any node. A no-op on an empty ring.
    fn step(&mut self, move_to_next: bool)
        requires
            old(self).wf(),
        ensures
            final(self).wf(),
            final(self).capacity() == old(self).capacity(),
            move_to_next ==> final(self)@ == rotated_left(old(self)@),
            !move_to_next ==> final(self)@ == rotated_right(old(self)@),
    {
        match self.head {
            Some(h) => {
                proof {
                    assert(self.live(self.order@[0]));
                }
                let adj = if move_to_next {
                    self.next_of(h)
                } else {
                    self.prev_of(h)
                };
                self.head = Some(adj);
                let ghost ord = self.order@;
                let ghost n = self.order@.len() as int;
                if move_to_next {
                    self.order = Ghost(self.order@.subrange(1, n).push(ord[0]));
                    proof {
                        let new_ord = self.order@;
                        assert(new_ord.len() == n);
                        assert(forall|k: int| 0 <= k < n - 1 ==> new_ord[k] == ord[k + 1]);
                        assert(new_ord[n - 1] == ord[0]);
                        assert forall|k: int| 0 <= k < n implies self.node(#[trigger] new_ord[k])
                            == old(self).node(new_ord[k]) && old(self).live(new_ord[k]) by {
                            if k < n - 1 {
                                assert(old(self).live(ord[k + 1]));
                            } else {
                                assert(old(self).live(ord[0]));
                            }
                        }
                        assert forall|k: int| 0 <= k < n - 1 implies (#[trigger] self.node(
                            new_ord[k],
                        )).next == new_ord[k + 1] by {
                            if k < n - 2 {
                                assert(old(self).node(ord[k + 1]).next == ord[k + 2]);
                            } else {
                                assert(old(self).node(ord[n - 1]).next == ord[0]);
                            }
                        }
                        assert forall|k: int| 1 <= k < n implies (#[trigger] self.node(
                            new_ord[k],
                        )).prev == new_ord[k - 1] by {
                            if k < n - 1 {
                                assert(old(self).node(ord[k + 1]).prev == ord[k]);
                            } else {
                                assert(old(self).node(ord[0]).prev == ord[n - 1]);
                            }
                        }
                        if n >= 2 {
                            assert(self.node(new_ord[n - 1]).next == new_ord[0]) by {
                                assert(old(self).node(ord[0]).next == ord[1]);
                            }
                            assert(self.node(new_ord[0]).prev == new_ord[n - 1]) by {
                                assert(old(self).node(ord[1]).prev == ord[0]);
                            }
                        }
                        assert(new_ord.no_duplicates());
                        assert(self.linked());
                        assert forall|k: int| 0 <= k < n implies self@[k] == rotated_left(
                            old(self)@,
                        )[k] by {
                            if k < n - 1 {
                                assert(old(self)@[k + 1] == old(self).node(ord[k + 1]).value);
                            } else {
                                assert(old(self)@[0] == old(self).node(ord[0]).value);
                            }
                        }
                        assert(self@ =~= rotated_left(old(self)@));
                    }
                } else {
                    self.order = Ghost(seq![ord[n - 1]] + self.order@.subrange(0, n - 1));
                    proof {
                        let new_ord = self.order@;
                        assert(new_ord.len() == n);
                        assert(forall|k: int| 1 <= k < n ==> new_ord[k] == ord[k - 1]);
                        assert(new_ord[0] == ord[n - 1]);
                        assert forall|k: int| 0 <= k < n implies self.node(#[trigger] new_ord[k])
                            == old(self).node(new_ord[k]) && old(self).live(new_ord[k]) by {
                            if k >= 1 {
                                assert(old(self).live(ord[k - 1]));
                            } else {
                                assert(old(self).live(ord[n - 1]));
                            }
                        }
                        assert forall|k: int| 0 <= k < n - 1 implies (#[trigger] self.node(
                            new_ord[k],
                        )).next == new_ord[k + 1] by {
                            if k >= 1 {
                                assert(old(self).node(ord[k - 1]).next == ord[k]);
                            } else {
                                assert(old(self).node(ord[n - 1]).next == ord[0]);
                            }
                        }
                        assert forall|k: int| 1 <= k < n implies (#[trigger] self.node(
                            new_ord[k],
                        )).prev == new_ord[k - 1] by {
                            if k >= 2 {
                                assert(old(self).node(ord[k - 1]).prev == ord[k - 2]);
                            } else {
                                assert(old(self).node(ord[0]).prev == ord[n - 1]);
                            }
                        }
                        if n >= 2 {
                            assert(self.node(new_ord[n - 1]).next == new_ord[0]) by {
                                assert(old(self).node(ord[n - 2]).next == ord[n - 1]);
                            }
                            assert(self.node(new_ord[0]).prev == new_ord[n - 1]) by {
                                assert(old(self).node(ord[n - 1]).prev == ord[n - 2]);
                            }
                        }
                        assert(new_ord.no_duplicates());
                        assert(self.linked());
                        assert forall|k: int| 0 <= k < n implies self@[k] == rotated_right(
                            old(self)@,
                        )[k] by {
                            if k >= 1 {
                                assert(old(self)@[k - 1] == old(self).node(ord[k - 1]).value);
                            } else {
                                assert(old(self)@[n - 1] == old(self).node(ord[n - 1]).value);
                            }
                        }
                        assert(self@ =~= rotated_right(old(self)@));
                    }
                }
            },
            None => {
                proof {
                    assert(self@ =~= rotated_left(old(self)@));
                    assert(self@ =~= rotated_right(old(self)@));
                }
            },
        }
    }

    /// Moves the cursor one step in the chosen direction and returns the
    /// new current value. A no-op on an empty ring.
    fn move_to(&mut self, move_to_next: bool) -> (r: Option<T>)
        where T: Clone
        requires
            old(self).wf(),
        ensures
            final(self).wf(),
            final(self).capacity() == old(self).capacity(),
            move_to_next ==> final(self)@ == rotated_left(old(self)@),
            !move_to_next ==> final(self)@ == rotated_right(old(self)@),
            r is Some <==> old(self)@.len() > 0,
            r matches Some(v) ==> cloned(final(self)@[0], v),
    {
        self.step(move_to_next);
        self.current_value()
    }

    /// A copy of the value in slot `i`.
    fn value_of(&self, i: usize) -> (r: T)
        where T: Clone
        requires
            self.live(i),
        ensures
            cloned(self.node(i).value, r),
    {
        match &self.nodes[i] {
            Some(nd) => nd.value.clone(),
            None => unreached(),
        }
    }

    /// The number of nodes, counted by walking `next` links from the
    /// cursor until the walk returns to it. Zero on an empty ring.
    pub fn count(&self) -> (r: usize)
        requires
            self.wf(),
        ensures
            r == self@.len(),
    {
        match self.head {
            Some(h) => {
                proof {
                    assert(self.live(self.order@[0]));
                }
                let ghost ord = self.order@;
                let ghost n = ord.len() as int;
                let arena = self.nodes.len();
                proof {
                    assert(n <= arena);
                }
                let mut c: usize = 1;
                let mut cur: usize = self.next_of(h);
                while cur != h
                    invariant
                        self.wf(),
                        ord == self.order@,
                        n == ord.len() as int,
                        n <= arena,
                        Some(h) == self.head,
                        1 <= c <= n,
                        c < n ==> cur == ord[c as int],
                        c == n ==> cur == ord[0],
                    decreases n - c,
                {
                    proof {
                        assert(c < n) by {
                            if c == n {
                                assert(cur == ord[0]);
                            }
                        }
                        assert(self.live(ord[c as int]));
                        assert(n <= self.nodes@.len());
                        if c == n - 1 {
                            assert(self.node(ord[c as int]).next == ord[0]);
                        } else {
                            assert(self.node(ord[c as int]).next == ord[c + 1]);
                        }
                    }
                    cur = self.next_of(cur);
                    c = c + 1;
                }
                proof {
                    assert(c == n) by {
                        if c < n {
                            assert(ord[c as int] != ord[0]);
                        }
                    }
                }
                c
            },
            None => 0,
        }
    }

    /// All values in cursor-relative forward order, the current value
    /// first. An empty ring yields an empty vector.
    pub fn to_vec(&self) -> (r: Vec<T>)
        where T: Clone
        requires
            self.wf(),
        ensures
            r@.len() == self@.len(),
            forall|k: int| 0 <= k < self@.len() ==> cloned(self@[k], #[trigger] r@[k]),
    {
        let mut ret: Vec<T> = Vec::new();
        match self.head {
            Some(h) => {
                proof {
                    assert(self.live(self.order@[0]));
                }
                let ghost ord = self.order@;
                let ghost n = ord.len() as int;
                let arena = self.nodes.len();
                proof {
                    assert(n <= arena);
                }
                ret.push(self.value_of(h));
                let mut c: usize = 1;
                let mut cur: usize = self.next_of(h);
                while cur != h
                    invariant
                        self.wf(),
                        ord == self.order@,
                        n == ord.len() as int,
                        n <= arena,
                        Some(h) == self.head,
                        1 <= c <= n,
                        c < n ==> cur == ord[c as int],
                        c == n ==> cur == ord[0],
                        ret@.len() == c,
                        forall|k: int| 0 <= k < c ==> cloned(self@[k], #[trigger] ret@[k]),
                    decreases n - c,
                {
                    proof {
                        assert(c < n) by {
                            if c == n {
                                assert(cur == ord[0]);
                            }
                        }
                        assert(self.live(ord[c as int]));
                        assert(n <= self.nodes@.len());
                        assert(self@[c as int] == self.node(ord[c as int]).value);
                        if c == n - 1 {
                            assert(self.node(ord[c as int]).next == ord[0]);
                        } else {
                            assert(self.node(ord[c as int]).next == ord[c + 1]);
                        }
                    }
                    ret.push(self.value_of(cur));
                    cur = self.next_of(cur);
                    c = c + 1;
                }
                proof {
                    assert(c == n) by {
                        if c < n {
                            assert(ord[c as int] != ord[0]);
                        }
                    }
                }
            },
            None => {},
        }
        ret
    }

    /// Removes the current node and returns its value; the cursor moves to
    /// the removed node's `next` neighbour (a singleton ring becomes
    /// empty). Returns `None`, and changes nothing, on an empty ring.
    pub fn remove_current(&mut self) -> (r: Option<T>)
        requires
            old(self).wf(),
        ensures
            final(self).wf(),
            final(self).capacity() == old(self).capacity(),
            final(self)@ == removed_front(old(self)@),
            old(self)@.len() == 0 ==> r is None,
            old(self)@.len() > 0 ==> r == Some(old(self)@[0]),
    {
        match self.head {
            Some(h) => {
                proof {
                    assert(self.live(self.order@[0]));
                }
                let nxt = self.next_of(h);
                let prv = self.prev_of(h);
                let mut slot: Option<Node<T>> = None;
                self.nodes.set_and_swap(h, &mut slot);
                self.free.push(h);
                let ghost ord = old(self).order@;
                let ghost n = ord.len() as int;
                proof {
                    assert(old(self)@[0] == old(self).node(ord[0]).value);
                    if n >= 2 {
                        assert(ord[1] != ord[0] && ord[n - 1] != ord[0]);
                        assert(nxt == ord[1] && prv == ord[n - 1]);
                    }
                }
                if nxt == h {
                    proof {
                        assert(n == 1) by {
                            if n >= 2 {
                                assert(nxt == ord[1]);
                            }
                        }
                    }
                    self.head = None;
                    self.order = Ghost(Seq::empty());
                    proof {
                        assert(self@ =~= removed_front(old(self)@));
                    }
                } else {
                    self.head = Some(nxt);
                    self.order = Ghost(ord.subrange(1, n));
                    proof {
                        assert(self.live(nxt) && self.live(prv));
                    }
                    self.combine(prv, nxt);
                    proof {
                        let new_ord = self.order@;
                        let nn = n - 1;
                        assert(new_ord.len() == nn);
                        assert(forall|k: int| 0 <= k < nn ==> new_ord[k] == ord[k + 1]);
                        assert(h == ord[0]);
                        assert(n >= 2) by {
                            if n == 1 {
                                assert(old(self).node(ord[0]).next == ord[0]);
                            }
                        }
                        assert(prv == ord[n - 1] && nxt == ord[1]);
                        assert(n >= 3 ==> prv != nxt);
                        assert(new_ord.no_duplicates());
                        assert forall|k: int| 0 <= k < nn implies self.live(
                            #[trigger] new_ord[k],
                        ) && self.node(new_ord[k]).value == old(self).node(new_ord[k]).value by {
                            let x = ord[k + 1];
                            assert(old(self).live(x));
                            assert(x != ord[0]);
                            if x == prv || x == nxt {
                                assert(self.live(prv) && self.live(nxt));
                            } else {
                                assert(self.nodes@[x as int] == old(self).nodes@[x as int]);
                            }
                        }
                        assert forall|k: int| 0 <= k < nn - 1 implies (#[trigger] self.node(
                            new_ord[k],
                        )).next == new_ord[k + 1] by {
                            let x = ord[k + 1];
                            assert(old(self).node(x).next == ord[k + 2]);
                            assert(x != ord[0] && x != ord[n - 1]);
                            if x == nxt {
                                assert(prv != nxt);
                                assert(self.node(nxt).next == old(self).node(nxt).next);
                            } else {
                                assert(self.nodes@[x as int] == old(self).nodes@[x as int]);
                            }
                        }
                        assert(self.node(new_ord[nn - 1]).next == new_ord[0]) by {
                            assert(self.node(prv).next == nxt);
                            assert(new_ord[nn - 1] == ord[n - 1]);
                        }
                        assert forall|k: int| 1 <= k < nn implies (#[trigger] self.node(
                            new_ord[k],
                        )).prev == new_ord[k - 1] by {
                            let x = ord[k + 1];
                            assert(old(self).node(x).prev == ord[k]);
                            assert(x != ord[0] && x != ord[1]);
                            if x == prv {
                                assert(prv != nxt);
                                assert(self.node(prv).prev == old(self).node(prv).prev);
                            } else {
                                assert(self.nodes@[x as int] == old(self).nodes@[x as int]);
                            }
                        }
                        assert(self.node(new_ord[0]).prev == new_ord[nn - 1]) by {
                            assert(self.node(nxt).prev == prv);
                        }
                        assert(self.linked());
                        assert forall|k: int|
                            0 <= k < self.free@.len() implies (#[trigger] self.free@[k])
                            < self.nodes@.len() && self.nodes@[self.free@[k] as int] is None by {
                            if k < self.free@.len() - 1 {
                                assert(self.free@[k] == old(self).free@[k]);
                                assert(old(self).nodes@[self.free@[k] as int] is None);
                                assert(self.free@[k] != prv && self.free@[k] != nxt);
                            } else {
                                assert(self.free@[k] == h);
                                assert(h != prv && h != nxt);
                            }
                        }
                        assert forall|i: int, j: int|
                            0 <= i < self.free@.len() && 0 <= j < self.free@.len() && i != j
                            implies self.free@[i] != self.free@[j] by {
                            let fl = self.free@.len() as int;
                            if i < fl - 1 && j < fl - 1 {
                                assert(old(self).free@[i] != old(self).free@[j]);
                            } else if i == fl - 1 {
                                assert(old(self).nodes@[self.free@[j] as int] is None);
                            } else {
                                assert(old(self).nodes@[self.free@[i] as int] is None);
                            }
                        }
                        assert(self.free@.no_duplicates());
                        assert forall|k: int| 0 <= k < nn implies self@[k] == old(self)@[k
                            + 1] by {
                            assert(old(self)@[k + 1] == old(self).node(ord[k + 1]).value);
                        }
                        assert(self@ =~= removed_front(old(self)@));
                    }
                }
                match slot {
                    Some(nd) => Some(nd.value),
                    None => unreached(),
                }
            },
            None => {
                proof {
                    assert(self@ =~= removed_front(old(self)@));
                }
                None
            },
        }
    }

    /// Moves the cursor to the next node and returns the new current
    /// value, or `None` on an empty ring.
    pub fn move_next(&mut self) -> (r: Option<T>)
        where T: Clone
        requires
            old(self).wf(),
        ensures
            final(self).wf(),
            final(self).capacity() == old(self).capacity(),
            final(self)@ == rotated_left(old(self)@),
            r is Some <==> old(self)@.len() > 0,
            r matches Some(v) ==> cloned(final(self)@[0], v),
    {
        self.move_to(true)
    }

    /// Moves the cursor to the previous node and returns the new current
    /// value, or `None` on an empty ring.
    pub fn move_previous(&mut self) -> (r: Option<T>)
        where T: Clone
        requires
            old(self).wf(),
        ensures
            final(self).wf(),
            final(self).capacity() == old(self).capacity(),
            final(self)@ == rotated_right(old(self)@),
            r is Some <==> old(self)@.len() > 0,
            r matches Some(v) ==> cloned(final(self)@[0], v),
    {
        self.move_to(false)
    }

    /// Splices a new node with value `val` immediately after (or before)
    /// the cursor, evicting the adjacent node in the insertion direction
    /// first when the ring is at capacity.
    #[verifier::rlimit(50)]
    fn insert_node(&mut self, val: T, insert_after: bool)
        requires
            old(self).wf(),
        ensures
            final(self).wf(),
            final(self).capacity() == old(self).capacity(),
            insert_after ==> final(self)@ == inserted_after(
                old(self)@,
                old(self).capacity(),
                val,
            ),
            !insert_after ==> final(self)@ == inserted_before(
                old(self)@,
                old(self).capacity(),
                val,
            ),
    {
        let ghost s0 = self@;
        let ghost cap0 = self.capacity();
        if let Some(max_size) = self.max_size {
            if self.count() >= max_size {
                if insert_after {
                    // evict the node at cursor.next, then restore the cursor
                    self.step(true);
                    let _ = self.remove_current();
                    self.step(false);
                } else {
                    // evict the node at cursor.previous; removal already
                    // puts the cursor back on its starting node
                    self.step(false);
                    let _ = self.remove_current();
                }
            }
        }
        let ghost t = self@;
        proof {
            lemma_evicted_next_by_steps(s0);
            if needs_eviction(s0.len(), cap0) {
                if insert_after {
                    assert(t == evicted_next(s0));
                } else {
                    assert(t == removed_front(rotated_right(s0)));
                }
            } else {
                assert(t == s0);
            }
        }
        match self.head {
            Some(h) => {
                proof {
                    assert(self.live(self.order@[0]));
                }
                let adj = if insert_after {
                    self.next_of(h)
                } else {
                    self.prev_of(h)
                };
                let ghost mid = *self;
                let ghost ord_t = self.order@;
                let ghost n = ord_t.len() as int;
                proof {
                    assert(h == ord_t[0]);
                    if n == 1 {
                        assert(adj == h);
                    } else if insert_after {
                        assert(mid.node(ord_t[0]).next == ord_t[1]);
                        assert(adj == ord_t[1]);
                    } else {
                        assert(adj == ord_t[n - 1]);
                    }
                    assert(mid.live(adj));
                }
                let j = self.new_node(val);
                let ghost mid2 = *self;
                proof {
                    assert forall|k: int| 0 <= k < n implies (#[trigger] ord_t[k]) != j by {
                        assert(mid.live(ord_t[k]));
                    }
                    assert(h != j && adj != j);
                    assert(mid2.live(h) && mid2.live(adj)) by {
                        assert(self.nodes@[h as int] == mid.nodes@[h as int]);
                        assert(self.nodes@[adj as int] == mid.nodes@[adj as int]);
                    }
                }
                if insert_after {
                    self.combine(h, j);
                    self.combine(j, adj);
                    self.order = Ghost(ord_t.insert(1, j));
                } else {
                    self.combine(adj, j);
                    self.combine(j, h);
                    self.order = Ghost(ord_t.push(j));
                }
                proof {
                    let new_ord = self.order@;
                    let nn = n + 1;
                    if insert_after {
                        ord_t.insert_ensures(1, j);
                    }
                    assert(new_ord.len() == nn);
                    assert(new_ord[0] == h);
                    // where the old slots sit in the new order
                    if insert_after {
                        assert(new_ord[1] == j);
                        assert(forall|k: int| 2 <= k < nn ==> new_ord[k] == ord_t[k - 1]);
                    } else {
                        assert(new_ord[nn - 1] == j);
                        assert(forall|k: int| 0 <= k < n ==> new_ord[k] == ord_t[k]);
                    }
                    // the four link fields the splice wrote
                    assert(self.node(j).value == val && self.live(j));
                    if insert_after {
                        assert(self.node(h).next == j && self.node(j).prev == h);
                        assert(self.node(j).next == adj && self.node(adj).prev == j);
                    } else {
                        assert(self.node(adj).next == j && self.node(j).prev == adj);
                        assert(self.node(j).next == h && self.node(h).prev == j);
                    }
                    // slots away from the splice kept their nodes
                    assert forall|x: usize|
                        mid.live(x) && x != h && x != adj && x != j implies self.nodes@[x as int]
                        == mid.nodes@[x as int] && #[trigger] self.node(x) == mid.node(x)
                        && self.live(x) by {
                        assert(mid2.nodes@[x as int] == mid.nodes@[x as int]);
                    }
                    // values of the spliced endpoints survived
                    assert(self.node(h).value == mid.node(h).value);
                    assert(self.node(adj).value == mid.node(adj).value);
                    if n >= 2 {
                        if insert_after {
                            assert(self.node(adj).next == mid.node(adj).next);
                            assert(self.node(h).prev == mid.node(h).prev);
                        } else {
                            assert(self.node(adj).prev == mid.node(adj).prev);
                            assert(self.node(h).next == mid.node(h).next);
                        }
                    }
                    // liveness of every new slot
                    assert forall|k: int| 0 <= k < nn implies self.live(#[trigger] new_ord[k]) by {
                        if new_ord[k] != j {
                            assert(mid.live(new_ord[k]));
                        }
                    }
                    // distinctness
                    assert forall|i: int, k: int|
                        0 <= i < nn && 0 <= k < nn && i != k implies new_ord[i] != new_ord[k] by {
                        if new_ord[i] != j && new_ord[k] != j {
                            let i0 = if insert_after { if i >= 2 { i - 1 } else { i } } else { i };
                            let k0 = if insert_after { if k >= 2 { k - 1 } else { k } } else { k };
                            assert(new_ord[i] == ord_t[i0] && new_ord[k] == ord_t[k0]);
                            assert(ord_t[i0] != ord_t[k0]);
                        }
                    }
                    assert(new_ord.no_duplicates());
                    // next pointers around the new cycle
                    assert forall|k: int| 0 <= k < nn - 1 implies (#[trigger] self.node(
                        new_ord[k],
                    )).next == new_ord[k + 1] by {
                        if insert_after {
                            if k >= 2 {
                                let x = ord_t[k - 1];
                                assert(mid.node(x).next == ord_t[k]);
                                if x != adj {
                                    assert(self.node(x) == mid.node(x));
                                }
                            }
                        } else {
                            if 1 <= k < n - 1 {
                                let x = ord_t[k];
                                assert(mid.node(x).next == ord_t[k + 1]);
                                if x != adj {
                                    assert(self.node(x) == mid.node(x));
                                }
                            }
                            if k == n - 1 && n >= 2 {
                                assert(new_ord[k] == adj);
                            }
                        }
                    }
                    assert(self.node(new_ord[nn - 1]).next == new_ord[0]) by {
                        if insert_after {
                            if n == 1 {
                                assert(new_ord[nn - 1] == j);
                            } else {
                                let x = ord_t[n - 1];
                                assert(new_ord[nn - 1] == x);
                                assert(mid.node(x).next == ord_t[0]);
                                if x != adj {
                                    assert(self.node(x) == mid.node(x));
                                }
                            }
                        } else {
                            assert(new_ord[nn - 1] == j);
                        }
                    }
                    // prev pointers around the new cycle
                    assert forall|k: int| 1 <= k < nn implies (#[trigger] self.node(
                        new_ord[k],
                    )).prev == new_ord[k - 1] by {
                        if insert_after {
                            if k >= 3 {
                                let x = ord_t[k - 1];
                                assert(mid.node(x).prev == ord_t[k - 2]);
                                if x != adj {
                                    assert(self.node(x) == mid.node(x));
                                }
                            }
                            if k == 2 {
                                assert(new_ord[k] == adj);
                            }
                        } else {
                            if 1 <= k < n {
                                let x = ord_t[k];
                                assert(mid.node(x).prev == ord_t[k - 1]);
                                if x != adj && x != h {
                                    assert(self.node(x) == mid.node(x));
                                }
                                if x == adj {
                                    assert(self.node(adj).prev == mid.node(adj).prev);
                                }
                            }
                        }
                    }
                    assert(self.node(new_ord[0]).prev == new_ord[nn - 1]) by {
                        if insert_after {
                            if n == 1 {
                                assert(self.node(h).prev == j);
                            } else {
                                assert(self.node(h).prev == mid.node(h).prev);
                                assert(mid.node(ord_t[0]).prev == ord_t[n - 1]);
                            }
                        }
                    }
                    assert(self.linked());
                    // the free list still names vacant slots
                    assert forall|k: int|
                        0 <= k < self.free@.len() implies (#[trigger] self.free@[k])
                        < self.nodes@.len() && self.nodes@[self.free@[k] as int] is None by {
                        assert(mid2.free@[k] == self.free@[k]);
                        assert(mid2.nodes@[self.free@[k] as int] is None);
                        assert(self.free@[k] != h && self.free@[k] != adj && self.free@[k] != j);
                    }
                    assert(self.free@.no_duplicates()) by {
                        assert(mid2.free@ == self.free@);
                        assert(mid2.free_ok());
                    }
                    // the arena stays fully accounted for
                    assert(self.order@.len() + self.free@.len() == self.nodes@.len()) by {
                        if mid.free@.len() > 0 {
                            assert(mid2.free@ == mid.free@.drop_last());
                        }
                    }
                    // the new view is the old one with `val` spliced in
                    assert forall|k: int| 0 <= k < nn implies self@[k] == (if insert_after {
                        t.insert(1, val)
                    } else {
                        t.push(val)
                    })[k] by {
                        t.insert_ensures(1, val);
                        assert(self@[k] == self.node(new_ord[k]).value);
                        if new_ord[k] != j {
                            let k0 = if insert_after { if k >= 2 { k - 1 } else { k } } else { k };
                            assert(new_ord[k] == ord_t[k0]);
                            assert(t[k0] == mid.node(ord_t[k0]).value);
                            assert(self.node(ord_t[k0]).value == mid.node(ord_t[k0]).value) by {
                                let x = ord_t[k0];
                                if x != h && x != adj {
                                    assert(self.node(x) == mid.node(x));
                                }
                            }
                        }
                    }
                    if insert_after {
                        t.insert_ensures(1, val);
                        assert(self@ =~= t.insert(1, val));
                        assert(self@ =~= inserted_after(s0, cap0, val));
                    } else {
                        assert(self@ =~= t.push(val));
                        assert(self@ =~= inserted_before(s0, cap0, val));
                    }
                }
            },
            None => {
                let ghost mid = *self;
                let j = self.new_node(val);
                self.head = Some(j);
                self.order = Ghost(Seq::empty().push(j));
                proof {
                    assert(self.live(j));
                    assert(self.node(j).next == j && self.node(j).prev == j);
                    assert(self.order@.no_duplicates());
                    assert(self.linked());
                    assert(self.free_ok());
                    assert(self.order@.len() + self.free@.len() == self.nodes@.len()) by {
                        if mid.free@.len() > 0 {
                            assert(self.free@ == mid.free@.drop_last());
                        }
                    }
                    assert(self@ =~= seq![val]);
                    assert(t.len() == 0);
                    if insert_after {
                        assert(self@ =~= inserted_after(s0, cap0, val));
                    } else {
                        assert(self@ =~= inserted_before(s0, cap0, val));
                    }
                }
            },
        }
    }

    /// Inserts a new node with the given value immediately after the
    /// current node, leaving the cursor where it is; the sole node of a
    /// previously empty ring becomes the cursor. At capacity, the node at
    /// `cursor.next` is evicted first.
    pub fn insert_after_current(&mut self, val: T)
        requires
            old(self).wf(),
        ensures
            final(self).wf(),
            final(self).capacity() == old(self).capacity(),
            final(self)@ == inserted_after(old(self)@, old(self).capacity(), val),
    {
        self.insert_node(val, true)
    }

    /// Inserts a new node with the given value immediately before the
    /// current node, leaving the cursor where it is; the sole node of a
    /// previously empty ring becomes the cursor. At capacity, the node at
    /// `cursor.previous` is evicted first.
    pub fn insert_before_current(&mut self, val: T)
        requires
            old(self).wf(),
        ensures
            final(self).wf(),
            final(self).capacity() == old(self).capacity(),
            final(self)@ == inserted_before(old(self)@, old(self).capacity(), val),
    {
        self.insert_node(val, false)
    }
}

} // verus!
