//! The crawl orchestrator as a state machine.
//!
//! The caller performs what the machine asks for: it waits, fetches and
//! archives. The machine decides what is drained, what may start, what is
//! passed over, what is discovered, and when the crawl has ended.

use crate::api_models::{Battle, BattleView, battle_views};
use crate::frontier::{Frontier, FrontierView};
use crate::order::{string_eq, views};
use std::collections::VecDeque;
use vstd::prelude::*;

verus! {

/// The number of identifiers drained from the frontier at a time.
pub const BATCH_SIZE: usize = 50;

/// The number of identifiers that may be in flight at a time.
pub const CONCURRENT_REQUESTS: usize = 10;

/// The seconds to wait when the frontier is found empty.
pub const IDLE_WAIT_SECONDS: u64 = 5;

/// Where a crawl stands. Draining a batch is no phase of its own: it is
/// the step from `Idle` or `Waiting` to `Dispatching`.
#[derive(Debug, Clone, Copy, PartialEq, Eq, Structural)]
pub enum Phase {
    /// Between cycles: nothing is drained, nothing is in flight.
    Idle,
    /// The frontier was found empty and the idle wait is due or running.
    Waiting,
    /// A batch was drained and is not done yet.
    Dispatching,
    /// The frontier was empty before and after the idle wait.
    Terminated,
}

/// What the caller is to do next.
#[derive(Debug, Clone, Copy, PartialEq, Eq, Structural)]
pub enum Step {
    /// Start identifiers, process them, and report each as complete.
    Dispatch,
    /// Wait for the idle interval, then ask again.
    Wait,
    /// Stop: the crawl has ended.
    Stop,
}

/// What a [`Crawler`] holds.
pub ghost struct CrawlerView {
    pub frontier: FrontierView,
    pub phase: Phase,
    /// Drained identifiers that have not started, first to start first.
    pub batch: Seq<Seq<char>>,
    /// Identifiers that started and are not complete, in starting order.
    pub in_flight: Seq<Seq<char>>,
    pub batch_size: nat,
    pub max_in_flight: nat,
}

/// The number of identifiers at the front of `batch` that were visited.
pub open spec fn leading_visited(batch: Seq<Seq<char>>, visited: Set<Seq<char>>) -> nat
    decreases batch.len(),
{
    if batch.len() > 0 && visited.contains(batch[0]) {
        1 + leading_visited(batch.drop_first(), visited)
    } else {
        0
    }
}

/// The sequence without the first occurrence of `item`, if it has one.
pub open spec fn remove_first(items: Seq<Seq<char>>, item: Seq<char>) -> Seq<Seq<char>>
    decreases items.len(),
{
    if items.len() == 0 {
        items
    } else if items[0] == item {
        items.drop_first()
    } else {
        seq![items[0]] + remove_first(items.drop_first(), item)
    }
}

/// The frontier after each identifier was offered in turn.
pub open spec fn enqueue_all(frontier: FrontierView, identifiers: Seq<Seq<char>>) -> FrontierView
    decreases identifiers.len(),
{
    if identifiers.len() == 0 {
        frontier
    } else {
        enqueue_all(frontier, identifiers.drop_last()).enqueue_if_new(identifiers.last())
    }
}

/// The identifier of the first opponent of each battle that has one, in the
/// battles' order. A battle counts whether or not it is well formed.
pub open spec fn opponent_tags(log: Seq<BattleView>) -> Seq<Seq<char>>
    decreases log.len(),
{
    if log.len() == 0 {
        Seq::empty()
    } else if log.last().opponent.len() > 0 {
        opponent_tags(log.drop_last()).push(log.last().opponent[0].tag)
    } else {
        opponent_tags(log.drop_last())
    }
}

impl CrawlerView {
    /// The crawler before anything was seeded: idle, with nothing pending,
    /// nothing visited and nothing under way.
    pub open spec fn idle(batch_size: nat, max_in_flight: nat) -> CrawlerView {
        CrawlerView {
            frontier: FrontierView::empty(),
            phase: Phase::Idle,
            batch: Seq::empty(),
            in_flight: Seq::empty(),
            batch_size,
            max_in_flight,
        }
    }

    /// What holds of every crawler: both limits are positive, no more
    /// identifiers are in flight than the limit allows, and the phase is
    /// `Dispatching` exactly while a drained identifier has not completed.
    pub open spec fn wf(self) -> bool {
        &&& self.batch_size > 0
        &&& self.max_in_flight > 0
        &&& self.in_flight.len() <= self.max_in_flight
        &&& (self.phase is Dispatching) == (self.batch.len() + self.in_flight.len() > 0)
    }

    /// What the caller is to do in this phase. An idle crawler counts as
    /// waiting; asked for its next step, a crawler is never left idle.
    pub open spec fn step(self) -> Step {
        match self.phase {
            Phase::Idle => Step::Wait,
            Phase::Waiting => Step::Wait,
            Phase::Dispatching => Step::Dispatch,
            Phase::Terminated => Step::Stop,
        }
    }

    /// The crawler after identifiers joined the pending queue unchecked.
    pub open spec fn seed(self, identifiers: Seq<Seq<char>>) -> CrawlerView {
        CrawlerView { frontier: self.frontier.seed(identifiers), ..self }
    }

    /// The start of a cycle: a batch is drained. With an empty batch the
    /// idle wait is due, else the batch is to be dispatched.
    pub open spec fn start_cycle(self) -> CrawlerView {
        let drained = self.frontier.batch(self.batch_size);
        if drained.len() == 0 {
            CrawlerView { phase: Phase::Waiting, ..self }
        } else {
            CrawlerView {
                frontier: self.frontier.drain_batch(self.batch_size),
                phase: Phase::Dispatching,
                batch: drained,
                ..self
            }
        }
    }

    /// The crawler after it was asked for the next step. Idle, it starts a
    /// cycle. After the idle wait it ends the crawl where the frontier is
    /// still empty, and starts a cycle where it is not. While a batch is
    /// under way, and after the end, nothing changes.
    pub open spec fn next_step(self) -> CrawlerView {
        match self.phase {
            Phase::Idle => self.start_cycle(),
            Phase::Waiting => if self.frontier.pending.len() == 0 {
                CrawlerView { phase: Phase::Terminated, ..self }
            } else {
                self.start_cycle()
            },
            Phase::Dispatching => self,
            Phase::Terminated => self,
        }
    }

    /// The identifier that may start now, if any: the first of the batch
    /// that was not visited, provided a slot is free.
    pub open spec fn next_to_start(self) -> Option<Seq<char>> {
        let skipped = leading_visited(self.batch, self.frontier.visited);
        if self.in_flight.len() < self.max_in_flight && skipped < self.batch.len() {
            Some(self.batch[skipped as int])
        } else {
            None
        }
    }

    /// The crawler after it was asked to start an identifier. With no slot
    /// free nothing changes. Else the visited identifiers at the front of
    /// the batch are passed over, and the next one, if there is one, is in
    /// flight. A batch that is used up with nothing in flight ends the
    /// cycle.
    pub open spec fn start_next(self) -> CrawlerView {
        let skipped = leading_visited(self.batch, self.frontier.visited);
        if self.in_flight.len() >= self.max_in_flight {
            self
        } else if skipped < self.batch.len() {
            CrawlerView {
                batch: self.batch.skip((skipped + 1) as int),
                in_flight: self.in_flight.push(self.batch[skipped as int]),
                ..self
            }
        } else {
            CrawlerView {
                batch: Seq::empty(),
                phase: if self.phase is Dispatching && self.in_flight.len() == 0 {
                    Phase::Idle
                } else {
                    self.phase
                },
                ..self
            }
        }
    }

    /// The crawler after the processing of `identifier` ended, with or
    /// without success. Each discovered identifier is offered to the
    /// frontier in turn, then `identifier` is marked visited and leaves the
    /// identifiers in flight. When it was the last of its batch, the cycle
    /// ends.
    pub open spec fn complete(self, identifier: Seq<char>, discovered: Seq<Seq<char>>)
        -> CrawlerView {
        let in_flight = remove_first(self.in_flight, identifier);
        CrawlerView {
            frontier: enqueue_all(self.frontier, discovered).mark_visited(identifier),
            in_flight,
            phase: if self.phase is Dispatching && self.batch.len() == 0 && in_flight.len() == 0 {
                Phase::Idle
            } else {
                self.phase
            },
            ..self
        }
    }
}

/// Removing the first occurrence removes the entry at its index.
proof fn lemma_remove_first_at(items: Seq<Seq<char>>, item: Seq<char>, i: int)
    requires
        0 <= i < items.len(),
        items[i] == item,
        forall|k: int| 0 <= k < i ==> items[k] != item,
    ensures
        remove_first(items, item) == items.remove(i),
    decreases items.len(),
{
    if i == 0 {
        assert(items.drop_first() =~= items.remove(0));
    } else {
        let rest = items.drop_first();
        assert forall|k: int| 0 <= k < i - 1 implies rest[k] != item by {
            assert(rest[k] == items[k + 1]);
        }
        lemma_remove_first_at(rest, item, i - 1);
        assert(seq![items[0]] + rest.remove(i - 1) =~= items.remove(i));
    }
}

/// Where the item does not occur, removing its first occurrence changes
/// nothing.
proof fn lemma_remove_first_absent(items: Seq<Seq<char>>, item: Seq<char>)
    requires
        forall|k: int| 0 <= k < items.len() ==> items[k] != item,
    ensures
        remove_first(items, item) == items,
    decreases items.len(),
{
    if items.len() > 0 {
        let rest = items.drop_first();
        assert forall|k: int| 0 <= k < rest.len() implies rest[k] != item by {
            assert(rest[k] == items[k + 1]);
        }
        lemma_remove_first_absent(rest, item);
        assert(seq![items[0]] + rest =~= items);
    }
}

/// The crawl orchestrator.
pub struct Crawler {
    frontier: Frontier,
    phase: Phase,
    batch: VecDeque<String>,
    in_flight: Vec<String>,
    batch_size: usize,
    max_in_flight: usize,
}

impl View for Crawler {
    type V = CrawlerView;

    closed spec fn view(&self) -> CrawlerView {
        CrawlerView {
            frontier: self.frontier@,
            phase: self.phase,
            batch: views(self.batch@),
            in_flight: views(self.in_flight@),
            batch_size: self.batch_size as nat,
            max_in_flight: self.max_in_flight as nat,
        }
    }
}

/// The identifier of the first opponent of each battle that has one, in the
/// battles' order.
pub fn discover_opponents(battle_log: &Vec<Battle>) -> (tags: Vec<String>)
    ensures
        views(tags@) == opponent_tags(battle_views(battle_log@)),
{
    let ghost log = battle_views(battle_log@);
    let mut tags: Vec<String> = Vec::new();
    let mut i: usize = 0;
    proof {
        assert(views(tags@) =~= opponent_tags(log.take(0)));
    }
    while i < battle_log.len()
        invariant
            i <= battle_log@.len(),
            log == battle_views(battle_log@),
            views(tags@) == opponent_tags(log.take(i as int)),
        decreases battle_log@.len() - i,
    {
        let battle = &battle_log[i];
        let ghost before = tags@;
        proof {
            let next = log.take(i + 1);
            assert(next.drop_last() =~= log.take(i as int));
            assert(next.last() == battle@);
        }
        if battle.opponent.len() > 0 {
            tags.push(battle.opponent[0].tag.clone());
            proof {
                assert(battle@.opponent[0].tag == battle.opponent@[0].tag@);
                assert(views(tags@) =~= views(before).push(battle@.opponent[0].tag));
            }
        }
        i += 1;
    }
    proof {
        assert(log.take(i as int) =~= log);
    }
    tags
}

impl Crawler {
    #[verifier::type_invariant]
    spec fn well_formed(self) -> bool {
        self@.wf()
    }

    fn fresh(batch_size: usize, max_in_flight: usize) -> (crawler: Crawler)
        requires
            batch_size > 0,
            max_in_flight > 0,
        ensures
            crawler@ == CrawlerView::idle(batch_size as nat, max_in_flight as nat),
    {
        let crawler = Crawler {
            frontier: Frontier::new(),
            phase: Phase::Idle,
            batch: VecDeque::new(),
            in_flight: Vec::new(),
            batch_size,
            max_in_flight,
        };
        proof {
            assert(crawler@.batch =~= Seq::empty());
            assert(crawler@.in_flight =~= Seq::empty());
        }
        crawler
    }

    /// A crawler with the given limits, idle, with nothing pending and
    /// nothing visited. None where a limit is 0.
    pub fn with_limits(batch_size: usize, max_in_flight: usize) -> (crawler: Option<Crawler>)
        ensures
            crawler is Some <==> batch_size > 0 && max_in_flight > 0,
            crawler matches Some(c) ==> c@ == CrawlerView::idle(
                batch_size as nat,
                max_in_flight as nat,
            ),
    {
        if batch_size == 0 || max_in_flight == 0 {
            None
        } else {
            Some(Crawler::fresh(batch_size, max_in_flight))
        }
    }

    /// A crawler with the default limits: batches of [`BATCH_SIZE`] and up
    /// to [`CONCURRENT_REQUESTS`] identifiers in flight.
    pub fn new() -> (crawler: Crawler)
        ensures
            crawler@ == CrawlerView::idle(BATCH_SIZE as nat, CONCURRENT_REQUESTS as nat),
    {
        Crawler::fresh(BATCH_SIZE, CONCURRENT_REQUESTS)
    }

    /// Adds the identifiers to the end of the pending queue without asking
    /// whether they are known.
    pub fn seed(&mut self, identifiers: Vec<String>)
        ensures
            final(self)@ == old(self)@.seed(views(identifiers@)),
            final(self)@.wf(),
    {
        proof {
            use_type_invariant(&*self);
        }
        let mut taken = Crawler::new();
        core::mem::swap(self, &mut taken);
        let Crawler { mut frontier, phase, batch, in_flight, batch_size, max_in_flight } = taken;
        frontier.seed(identifiers);
        *self = Crawler { frontier, phase, batch, in_flight, batch_size, max_in_flight };
    }

    /// Moves the crawl on and says what the caller is to do next. After
    /// [`Step::Wait`] the caller waits [`IDLE_WAIT_SECONDS`] before it asks
    /// again.
    pub fn next_step(&mut self) -> (step: Step)
        ensures
            final(self)@ == old(self)@.next_step(),
            step == final(self)@.step(),
            step is Wait <==> final(self)@.phase is Waiting,
            step is Dispatch <==> final(self)@.phase is Dispatching,
            step is Stop <==> final(self)@.phase is Terminated,
            final(self)@.wf(),
    {
        proof {
            use_type_invariant(&*self);
        }
        let mut taken = Crawler::new();
        core::mem::swap(self, &mut taken);
        let Crawler {
            mut frontier,
            mut phase,
            mut batch,
            in_flight,
            batch_size,
            max_in_flight,
        } = taken;
        let mut step = Step::Stop;
        match phase {
            Phase::Dispatching => {
                step = Step::Dispatch;
            },
            Phase::Terminated => {},
            _ => {
                if phase == Phase::Waiting && frontier.is_empty() {
                    phase = Phase::Terminated;
                } else {
                    let drained = frontier.drain_batch(batch_size);
                    if drained.len() == 0 {
                        phase = Phase::Waiting;
                        step = Step::Wait;
                        proof {
                            assert(frontier@.pending =~= old(self)@.frontier.pending);
                        }
                    } else {
                        let ghost all = views(drained@);
                        batch = VecDeque::new();
                        proof {
                            assert(views(batch@) =~= all.take(0));
                        }
                        for identifier in it: drained
                            invariant
                                it.seq() == drained@,
                                all == views(drained@),
                                views(batch@) == all.take(it.index() as int),
                        {
                            let ghost before = batch@;
                            batch.push_back(identifier);
                            proof {
                                assert(all[it.index() as int] == identifier@);
                                assert(views(batch@) =~= views(before).push(identifier@));
                                assert(all.take(it.index() + 1) =~= all.take(
                                    it.index() as int,
                                ).push(identifier@));
                            }
                        }
                        proof {
                            assert(all.take(all.len() as int) =~= all);
                        }
                        phase = Phase::Dispatching;
                        step = Step::Dispatch;
                    }
                }
            },
        }
        *self = Crawler { frontier, phase, batch, in_flight, batch_size, max_in_flight };
        step
    }

    /// Starts the next identifier of the batch, if one may start: returns
    /// it, and counts it as in flight until [`Crawler::complete`] is called
    /// for it. Identifiers that were visited since they were drained are
    /// passed over. None where no slot is free or the batch is used up.
    pub fn start_next(&mut self) -> (started: Option<String>)
        ensures
            final(self)@ == old(self)@.start_next(),
            started is Some <==> old(self)@.next_to_start() is Some,
            started matches Some(identifier) ==> old(self)@.next_to_start() == Some(identifier@),
            final(self)@.wf(),
    {
        proof {
            use_type_invariant(&*self);
        }
        let mut taken = Crawler::new();
        core::mem::swap(self, &mut taken);
        let Crawler {
            frontier,
            mut phase,
            mut batch,
            mut in_flight,
            batch_size,
            max_in_flight,
        } = taken;
        let ghost start = views(batch@);
        let ghost visited = frontier@.visited;
        let mut started: Option<String> = None;
        if in_flight.len() < max_in_flight {
            let ghost flying = views(in_flight@);
            let ghost mut passed: int = 0;
            proof {
                assert(start.skip(0) =~= start);
            }
            while started.is_none() && batch.len() > 0
                invariant
                    visited == frontier@.visited,
                    0 <= passed <= start.len(),
                    in_flight@.len() <= max_in_flight,
                    leading_visited(start, visited) == passed + (if started is None {
                        leading_visited(views(batch@), visited)
                    } else {
                        0
                    }),
                    started is None ==> views(batch@) == start.skip(passed) && views(in_flight@)
                        == flying && in_flight@.len() < max_in_flight,
                    started matches Some(identifier) ==> passed < start.len() && identifier@
                        == start[passed] && views(batch@) == start.skip(passed + 1) && views(
                        in_flight@,
                    ) == flying.push(start[passed]),
                decreases batch@.len() + (if started is None { 1nat } else { 0nat }),
            {
                let ghost queue = batch@;
                let front = batch.pop_front();
                match front {
                    Some(identifier) => {
                        proof {
                            assert(views(queue)[0] == queue[0]@);
                            assert(views(queue).len() == queue.len());
                            assert(start.skip(passed)[0] == start[passed]);
                            assert(views(batch@) =~= views(queue).drop_first());
                            assert(views(batch@) =~= start.skip(passed + 1));
                        }
                        if !frontier.is_visited(identifier.as_str()) {
                            let ghost before = in_flight@;
                            in_flight.push(identifier.clone());
                            proof {
                                assert(views(in_flight@) =~= views(before).push(identifier@));
                            }
                            started = Some(identifier);
                        } else {
                            proof {
                                passed = passed + 1;
                            }
                        }
                    },
                    None => {},
                }
            }
            if started.is_none() {
                proof {
                    assert(views(batch@) =~= Seq::<Seq<char>>::empty());
                }
                if phase == Phase::Dispatching && in_flight.len() == 0 {
                    phase = Phase::Idle;
                }
            }
        }
        *self = Crawler { frontier, phase, batch, in_flight, batch_size, max_in_flight };
        started
    }

    /// Reports that the processing of `identifier` ended, with or without
    /// success, and hands in the identifiers that it discovered (none
    /// where the fetch failed). Each discovered identifier is offered to the
    /// frontier, then `identifier` is marked visited.
    pub fn complete(&mut self, identifier: String, discovered: Vec<String>)
        ensures
            final(self)@ == old(self)@.complete(identifier@, views(discovered@)),
            final(self)@.wf(),
    {
        proof {
            use_type_invariant(&*self);
        }
        let mut taken = Crawler::new();
        core::mem::swap(self, &mut taken);
        let Crawler {
            mut frontier,
            mut phase,
            batch,
            mut in_flight,
            batch_size,
            max_in_flight,
        } = taken;
        let ghost all = views(discovered@);
        let ghost frontier_before = frontier@;
        proof {
            assert(all.take(0) =~= Seq::<Seq<char>>::empty());
        }
        for found in it: discovered
            invariant
                it.seq() == discovered@,
                all == views(discovered@),
                frontier@ == enqueue_all(frontier_before, all.take(it.index() as int)),
        {
            proof {
                let next = all.take(it.index() + 1);
                assert(next.drop_last() =~= all.take(it.index() as int));
                assert(next.last() == found@);
            }
            frontier.enqueue_if_new(found);
        }
        proof {
            assert(all.take(all.len() as int) =~= all);
        }
        let ghost flying = views(in_flight@);
        let mut i: usize = 0;
        let mut removed = false;
        while !removed && i < in_flight.len()
            invariant
                i <= in_flight@.len(),
                !removed ==> views(in_flight@) == flying,
                !removed ==> forall|k: int| 0 <= k < i ==> flying[k] != identifier@,
                removed ==> views(in_flight@) == remove_first(flying, identifier@),
                in_flight@.len() <= flying.len(),
            decreases in_flight@.len() - i + (if removed { 0nat } else { 1nat }),
        {
            if string_eq(in_flight[i].as_str(), identifier.as_str()) {
                let ghost before = in_flight@;
                in_flight.remove(i);
                removed = true;
                proof {
                    assert(flying[i as int] == before[i as int]@);
                    lemma_remove_first_at(flying, identifier@, i as int);
                    assert(views(in_flight@) =~= flying.remove(i as int));
                }
            } else {
                proof {
                    assert(flying[i as int] == in_flight@[i as int]@);
                }
                i += 1;
            }
        }
        proof {
            if !removed {
                lemma_remove_first_absent(flying, identifier@);
            }
        }
        frontier.mark_visited(identifier);
        if phase == Phase::Dispatching && batch.len() == 0 && in_flight.len() == 0 {
            phase = Phase::Idle;
        }
        *self = Crawler { frontier, phase, batch, in_flight, batch_size, max_in_flight };
    }

    /// Where the crawl stands.
    pub fn phase(&self) -> (phase: Phase)
        ensures
            phase == self@.phase,
    {
        self.phase
    }

    /// The number of identifiers in flight: never more than the limit.
    pub fn in_flight_len(&self) -> (len: usize)
        ensures
            len == self@.in_flight.len(),
            len <= self@.max_in_flight,
    {
        proof {
            use_type_invariant(self);
        }
        self.in_flight.len()
    }

    /// The number of drained identifiers that have not started.
    pub fn batch_len(&self) -> (len: usize)
        ensures
            len == self@.batch.len(),
    {
        self.batch.len()
    }

    /// The frontier of the crawl.
    pub fn frontier(&self) -> (frontier: &Frontier)
        ensures
            frontier@ == self@.frontier,
    {
        &self.frontier
    }
}

/// The identifiers passed over at the front of a batch were all visited,
/// and the one after them, if there is one, was not.
pub proof fn lemma_leading_visited(batch: Seq<Seq<char>>, visited: Set<Seq<char>>)
    ensures
        leading_visited(batch, visited) <= batch.len(),
        forall|k: int| 0 <= k < leading_visited(batch, visited) ==> visited.contains(batch[k]),
        leading_visited(batch, visited) < batch.len() ==> !visited.contains(
            batch[leading_visited(batch, visited) as int],
        ),
    decreases batch.len(),
{
    if batch.len() > 0 && visited.contains(batch[0]) {
        let rest = batch.drop_first();
        lemma_leading_visited(rest, visited);
        assert forall|k: int| 0 <= k < leading_visited(batch, visited) implies visited.contains(
            batch[k],
        ) by {
            if k > 0 {
                assert(batch[k] == rest[k - 1]);
            }
        }
        if leading_visited(batch, visited) < batch.len() {
            assert(batch[leading_visited(batch, visited) as int] == rest[leading_visited(
                rest,
                visited,
            ) as int]);
        }
    }
}

/// Offers change the pending queue only: the visited set stays as it is,
/// and what was pending stays pending, in its place.
pub proof fn lemma_enqueue_all_keeps(frontier: FrontierView, identifiers: Seq<Seq<char>>)
    ensures
        enqueue_all(frontier, identifiers).visited == frontier.visited,
        frontier.pending.is_prefix_of(enqueue_all(frontier, identifiers).pending),
    decreases identifiers.len(),
{
    if identifiers.len() > 0 {
        lemma_enqueue_all_keeps(frontier, identifiers.drop_last());
    }
}

/// Every identifier that was offered is known afterwards: it is pending
/// or was visited.
pub proof fn law_offered_identifiers_are_known(
    frontier: FrontierView,
    identifiers: Seq<Seq<char>>,
)
    ensures
        forall|k: int|
            0 <= k < identifiers.len() ==> enqueue_all(frontier, identifiers).knows(
                #[trigger] identifiers[k],
            ),
        forall|identifier: Seq<char>|
            frontier.knows(identifier) ==> #[trigger] enqueue_all(frontier, identifiers).knows(
                identifier,
            ),
    decreases identifiers.len(),
{
    if identifiers.len() > 0 {
        let init = identifiers.drop_last();
        let before = enqueue_all(frontier, init);
        let after = enqueue_all(frontier, identifiers);
        law_offered_identifiers_are_known(frontier, init);
        assert forall|identifier: Seq<char>| before.knows(identifier) implies after.knows(
            identifier,
        ) by {
            if before.pending.contains(identifier) {
                let i = choose|i: int|
                    0 <= i < before.pending.len() && before.pending[i] == identifier;
                assert(after.pending[i] == identifier);
            }
        }
        assert(after.knows(identifiers.last())) by {
            if !before.knows(identifiers.last()) {
                assert(after.pending[before.pending.len() as int] == identifiers.last());
            }
        }
        assert forall|k: int| 0 <= k < identifiers.len() implies after.knows(
            #[trigger] identifiers[k],
        ) by {
            if k < init.len() {
                assert(init[k] == identifiers[k]);
            }
        }
    }
}

/// Every transition keeps a crawler well formed. In particular no
/// transition puts more identifiers in flight than the limit allows.
pub proof fn law_crawler_stays_well_formed(
    crawler: CrawlerView,
    identifier: Seq<char>,
    identifiers: Seq<Seq<char>>,
)
    requires
        crawler.wf(),
    ensures
        crawler.seed(identifiers).wf(),
        crawler.next_step().wf(),
        crawler.start_next().wf(),
        crawler.complete(identifier, identifiers).wf(),
{
    lemma_leading_visited(crawler.batch, crawler.frontier.visited);
    lemma_remove_first_len(crawler.in_flight, identifier);
}

/// Removing the first occurrence of an item takes one entry away where the
/// item occurs, and none where it does not.
pub proof fn lemma_remove_first_len(items: Seq<Seq<char>>, item: Seq<char>)
    ensures
        remove_first(items, item).len() == if items.contains(item) {
            items.len() - 1
        } else {
            items.len() as int
        },
    decreases items.len(),
{
    if items.len() > 0 {
        if items[0] == item {
            assert(items.contains(item));
        } else {
            let rest = items.drop_first();
            lemma_remove_first_len(rest, item);
            if rest.contains(item) {
                let k = choose|k: int| 0 <= k < rest.len() && rest[k] == item;
                assert(items[k + 1] == item);
            }
            if items.contains(item) {
                let k = choose|k: int| 0 <= k < items.len() && items[k] == item;
                assert(rest[k - 1] == item);
            }
        }
    }
}

/// No transition of a crawler takes an identifier out of the visited set,
/// and completing an identifier puts it in.
pub proof fn law_crawl_never_forgets(
    crawler: CrawlerView,
    identifier: Seq<char>,
    identifiers: Seq<Seq<char>>,
)
    ensures
        crawler.frontier.visited.subset_of(crawler.seed(identifiers).frontier.visited),
        crawler.frontier.visited.subset_of(crawler.next_step().frontier.visited),
        crawler.frontier.visited.subset_of(crawler.start_next().frontier.visited),
        crawler.frontier.visited.subset_of(
            crawler.complete(identifier, identifiers).frontier.visited,
        ),
        crawler.complete(identifier, identifiers).frontier.visited
            == crawler.frontier.visited.insert(identifier),
{
    lemma_enqueue_all_keeps(crawler.frontier, identifiers);
}

/// An identifier starts only while it is not visited and a slot is free,
/// and it is the first such identifier of the batch.
pub proof fn law_started_was_not_visited(crawler: CrawlerView)
    requires
        crawler.next_to_start() is Some,
    ensures
        !crawler.frontier.visited.contains(crawler.next_to_start()->0),
        crawler.batch.contains(crawler.next_to_start()->0),
        crawler.in_flight.len() < crawler.max_in_flight,
        crawler.start_next().in_flight == crawler.in_flight.push(crawler.next_to_start()->0),
{
    lemma_leading_visited(crawler.batch, crawler.frontier.visited);
}

/// The crawl ends exactly when the frontier is found empty after the idle
/// wait, and an ended crawl stays ended. An idle crawler that finds the
/// frontier empty waits first.
pub proof fn law_crawl_ends_after_an_idle_wait(crawler: CrawlerView)
    requires
        crawler.wf(),
    ensures
        crawler.next_step().phase is Terminated <==> crawler.phase is Terminated || (
        crawler.phase is Waiting && crawler.frontier.pending.len() == 0),
        crawler.phase is Idle && crawler.frontier.pending.len() == 0 ==> crawler.next_step().phase
            is Waiting && crawler.next_step().next_step().phase is Terminated,
        crawler.phase is Terminated ==> crawler.next_step() == crawler,
        !(crawler.phase is Terminated) && crawler.frontier.pending.len() > 0
            ==> crawler.next_step().phase is Dispatching,
{
}

} // verus!
