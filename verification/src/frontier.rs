//! The crawl frontier: player identifiers that wait to be processed, in the
//! order in which they were found, and the identifiers already processed.
//!
//! Every operation that changes the frontier takes it by `&mut`: it runs
//! from start to end with no other operation in between. Callers that share
//! a frontier between tasks keep it behind a lock, and each operation is
//! then one step under that lock: the check and the insert of
//! [`Frontier::enqueue_if_new`] cannot be parted.

use crate::order::{string_eq, views};
use std::collections::VecDeque;
use vstd::hash_set::StringHashSet;
use vstd::prelude::*;
use vstd::seq_lib::{to_multiset_build, to_multiset_contains};

verus! {

/// What a [`Frontier`] holds.
pub ghost struct FrontierView {
    /// The identifiers that wait, first in line first. One may wait twice.
    pub pending: Seq<Seq<char>>,
    /// The identifiers that were processed.
    pub visited: Set<Seq<char>>,
}

impl FrontierView {
    /// The frontier with nothing pending and nothing visited.
    pub open spec fn empty() -> FrontierView {
        FrontierView { pending: Seq::empty(), visited: Set::empty() }
    }

    /// An identifier is known when it waits or was processed.
    pub open spec fn knows(self, identifier: Seq<char>) -> bool {
        self.visited.contains(identifier) || self.pending.contains(identifier)
    }

    /// The frontier after `identifiers` joined the end of the line unchecked.
    pub open spec fn seed(self, identifiers: Seq<Seq<char>>) -> FrontierView {
        FrontierView { pending: self.pending + identifiers, visited: self.visited }
    }

    /// How many identifiers leave the line when up to `max_count` are asked
    /// for.
    pub open spec fn batch_len(self, max_count: nat) -> nat {
        if max_count < self.pending.len() {
            max_count
        } else {
            self.pending.len()
        }
    }

    /// The identifiers that leave the line when up to `max_count` are asked
    /// for: those at its front.
    pub open spec fn batch(self, max_count: nat) -> Seq<Seq<char>> {
        self.pending.take(self.batch_len(max_count) as int)
    }

    /// The frontier after up to `max_count` identifiers left the line.
    pub open spec fn drain_batch(self, max_count: nat) -> FrontierView {
        FrontierView {
            pending: self.pending.skip(self.batch_len(max_count) as int),
            visited: self.visited,
        }
    }

    /// The frontier after `identifier` was offered: it joins the end of the
    /// line unless it is known.
    pub open spec fn enqueue_if_new(self, identifier: Seq<char>) -> FrontierView {
        if self.knows(identifier) {
            self
        } else {
            FrontierView { pending: self.pending.push(identifier), visited: self.visited }
        }
    }

    /// The frontier after `identifier` was processed.
    pub open spec fn mark_visited(self, identifier: Seq<char>) -> FrontierView {
        FrontierView { pending: self.pending, visited: self.visited.insert(identifier) }
    }
}

/// The crawl frontier.
pub struct Frontier {
    pending: VecDeque<String>,
    visited: StringHashSet,
}

impl View for Frontier {
    type V = FrontierView;

    closed spec fn view(&self) -> FrontierView {
        FrontierView { pending: views(self.pending@), visited: self.visited@ }
    }
}

impl Frontier {
    /// A frontier with nothing pending and nothing visited.
    pub fn new() -> (frontier: Frontier)
        ensures
            frontier@ == FrontierView::empty(),
    {
        let frontier = Frontier { pending: VecDeque::new(), visited: StringHashSet::new() };
        proof {
            assert(views(frontier.pending@) =~= Seq::<Seq<char>>::empty());
        }
        frontier
    }

    /// Adds the identifiers to the end of the pending queue, in their order,
    /// without asking whether they are known.
    pub fn seed(&mut self, identifiers: Vec<String>)
        ensures
            final(self)@ == old(self)@.seed(views(identifiers@)),
    {
        let ghost all = views(identifiers@);
        for identifier in it: identifiers
            invariant
                it.seq() == identifiers@,
                all == views(identifiers@),
                self.visited@ == old(self).visited@,
                views(self.pending@) == views(old(self).pending@) + all.take(it.index() as int),
        {
            let ghost before = self.pending@;
            self.pending.push_back(identifier);
            proof {
                assert(all[it.index() as int] == identifier@);
                assert(all.take(it.index() + 1) =~= all.take(it.index() as int).push(identifier@));
                assert(views(self.pending@) =~= views(before).push(identifier@));
                assert(views(self.pending@) =~= views(old(self).pending@) + all.take(
                    it.index() + 1,
                ));
            }
        }
        proof {
            assert(all.take(all.len() as int) =~= all);
        }
    }

    /// Removes up to `max_count` identifiers from the front of the pending
    /// queue and returns them in their order. Fewer are returned, possibly
    /// none, where fewer are pending.
    pub fn drain_batch(&mut self, max_count: usize) -> (batch: Vec<String>)
        ensures
            views(batch@) == old(self)@.batch(max_count as nat),
            final(self)@ == old(self)@.drain_batch(max_count as nat),
    {
        let ghost start = views(self.pending@);
        let mut batch: Vec<String> = Vec::new();
        while batch.len() < max_count && self.pending.len() > 0
            invariant
                batch@.len() <= max_count,
                batch@.len() <= start.len(),
                self.visited@ == old(self).visited@,
                start == views(old(self).pending@),
                views(batch@) == start.take(batch@.len() as int),
                views(self.pending@) == start.skip(batch@.len() as int),
            decreases self.pending@.len(),
        {
            let ghost taken = batch@.len() as int;
            let ghost queue = self.pending@;
            let ghost drained = batch@;
            let front = self.pending.pop_front();
            match front {
                Some(identifier) => {
                    batch.push(identifier);
                    proof {
                        assert(views(queue)[0] == queue[0]@);
                        assert(views(queue).len() == queue.len());
                        assert(start.skip(taken)[0] == start[taken]);
                        assert(start[taken] == identifier@);
                        assert(start.take(taken + 1) =~= start.take(taken).push(start[taken]));
                        assert(views(batch@) =~= views(drained).push(identifier@));
                        assert(views(batch@) =~= start.take(taken + 1));
                        assert(views(self.pending@) =~= views(queue).skip(1));
                        assert(views(self.pending@) =~= start.skip(taken + 1));
                    }
                },
                None => {},
            }
        }
        batch
    }

    /// Adds the identifier to the end of the pending queue unless it is
    /// pending or visited. Returns whether it was added.
    pub fn enqueue_if_new(&mut self, identifier: String) -> (added: bool)
        ensures
            final(self)@ == old(self)@.enqueue_if_new(identifier@),
            added == !old(self)@.knows(identifier@),
    {
        if self.visited.contains(identifier.as_str()) || self.is_pending(identifier.as_str()) {
            return false;
        }
        self.pending.push_back(identifier);
        proof {
            assert(views(self.pending@) =~= views(old(self).pending@).push(identifier@));
        }
        true
    }

    /// Records that the identifier was processed. The pending queue is left
    /// as it is.
    pub fn mark_visited(&mut self, identifier: String)
        ensures
            final(self)@ == old(self)@.mark_visited(identifier@),
    {
        self.visited.insert(identifier);
    }

    /// Whether no identifier is pending. Visited identifiers do not count.
    pub fn is_empty(&self) -> (empty: bool)
        ensures
            empty == (self@.pending.len() == 0),
    {
        self.pending.len() == 0
    }

    /// The number of pending entries.
    pub fn pending_len(&self) -> (len: usize)
        ensures
            len == self@.pending.len(),
    {
        self.pending.len()
    }

    /// The number of visited identifiers.
    pub fn visited_len(&self) -> (len: usize)
        ensures
            len == self@.visited.len(),
    {
        self.visited.len()
    }

    /// Whether `identifier` was marked visited.
    pub fn is_visited(&self, identifier: &str) -> (visited: bool)
        ensures
            visited == self@.visited.contains(identifier@),
    {
        self.visited.contains(identifier)
    }

    /// Whether `identifier` is pending.
    pub fn is_pending(&self, identifier: &str) -> (pending: bool)
        ensures
            pending == self@.pending.contains(identifier@),
    {
        let mut i: usize = 0;
        while i < self.pending.len()
            invariant
                i <= self.pending@.len(),
                forall|k: int| 0 <= k < i ==> views(self.pending@)[k] != identifier@,
            decreases self.pending@.len() - i,
        {
            if string_eq(self.pending[i].as_str(), identifier) {
                proof {
                    assert(views(self.pending@)[i as int] == identifier@);
                }
                return true;
            }
            i += 1;
        }
        false
    }
}

/// Offering an identifier twice while it is neither pending nor visited
/// leaves exactly one pending entry for it: the first offer appends it, the
/// second changes nothing.
pub proof fn law_enqueue_twice_pends_once(frontier: FrontierView, identifier: Seq<char>)
    requires
        !frontier.knows(identifier),
    ensures
        frontier.enqueue_if_new(identifier).pending == frontier.pending.push(identifier),
        frontier.enqueue_if_new(identifier).enqueue_if_new(identifier) == frontier.enqueue_if_new(
            identifier,
        ),
        frontier.enqueue_if_new(identifier).enqueue_if_new(identifier).pending.to_multiset().count(
            identifier,
        ) == 1,
{
    let once = frontier.enqueue_if_new(identifier);
    assert(once.pending.last() == identifier);
    assert(once.pending.contains(identifier));
    to_multiset_contains(frontier.pending, identifier);
    to_multiset_build(frontier.pending, identifier);
}

/// Offering an identifier that was visited changes nothing: the pending
/// queue keeps its entries and its length.
pub proof fn law_enqueue_visited_is_noop(frontier: FrontierView, identifier: Seq<char>)
    requires
        frontier.visited.contains(identifier),
    ensures
        frontier.enqueue_if_new(identifier) == frontier,
        frontier.enqueue_if_new(identifier).pending.len() == frontier.pending.len(),
{
}

/// No operation takes an identifier out of the visited set.
pub proof fn law_visited_never_shrinks(
    frontier: FrontierView,
    identifier: Seq<char>,
    identifiers: Seq<Seq<char>>,
    max_count: nat,
)
    ensures
        frontier.visited.subset_of(frontier.seed(identifiers).visited),
        frontier.visited.subset_of(frontier.drain_batch(max_count).visited),
        frontier.visited.subset_of(frontier.enqueue_if_new(identifier).visited),
        frontier.visited.subset_of(frontier.mark_visited(identifier).visited),
        frontier.mark_visited(identifier).visited.contains(identifier),
{
}

/// Draining neither loses nor repeats an identifier: the batch followed by
/// what stays pending is the queue as it was, and the batch is no longer
/// than asked for.
pub proof fn law_drain_splits_the_queue(frontier: FrontierView, max_count: nat)
    ensures
        frontier.batch(max_count) + frontier.drain_batch(max_count).pending == frontier.pending,
        frontier.batch(max_count).len() <= max_count,
        frontier.batch(max_count).len() == max_count || frontier.drain_batch(
            max_count,
        ).pending.len() == 0,
{
    assert(frontier.batch(max_count) + frontier.drain_batch(max_count).pending
        =~= frontier.pending);
}

/// Offers schedule an identifier at most once: where no pending identifier
/// occurs twice or was visited, the same holds after an offer.
pub proof fn law_enqueue_schedules_once(frontier: FrontierView, identifier: Seq<char>)
    requires
        frontier.pending.no_duplicates(),
        forall|i: int|
            0 <= i < frontier.pending.len() ==> !frontier.visited.contains(
                #[trigger] frontier.pending[i],
            ),
    ensures
        frontier.enqueue_if_new(identifier).pending.no_duplicates(),
        forall|i: int|
            0 <= i < frontier.enqueue_if_new(identifier).pending.len()
                ==> !frontier.enqueue_if_new(identifier).visited.contains(
                #[trigger] frontier.enqueue_if_new(identifier).pending[i],
            ),
{
}

} // verus!
