//! A bounded circular doubly-linked list with a movable cursor.
//!
//! [`Circle`] keeps its nodes in an arena of slots addressed by stable
//! indices, so the cyclic `next`/`previous` linkage needs no shared
//! ownership, and structural changes need `&mut` access, so exclusive
//! borrowing serializes them. Every operation is specified against the
//! ring's abstract view: the sequence of payload values in cursor-first
//! forward order.

mod laws;
mod model;
mod ring;

pub use laws::RingOp;
pub use laws::applied;
pub use laws::applied_all;
pub use laws::evictions;
pub use laws::insertions;
pub use laws::is_insertion;
pub use laws::lemma_capacity_bound;
pub use laws::lemma_capacity_preserved_step;
pub use laws::lemma_count_accounting;
pub use laws::lemma_insert_after_keeps_cursor;
pub use laws::lemma_insert_before_keeps_cursor;
pub use laws::removals_done;
pub use model::evicted_next;
pub use model::inserted_after;
pub use model::inserted_before;
pub use model::lemma_evicted_next_by_steps;
pub use model::needs_eviction;
pub use model::removed_front;
pub use model::rotated_left;
pub use model::rotated_right;
pub use ring::Circle;
