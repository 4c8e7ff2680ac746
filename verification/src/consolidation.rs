//! The mathematics of consolidating the uppers that the shards of one
//! collection report.
//!
//! A collection has one slot per shard. A live slot holds the join of what
//! its shard has reported; a retired slot holds nothing. Beside the slots
//! stand counts of times: a report takes the slot's time out of the counts and
//! puts the reported time in. The consolidated frontier is the least time
//! with a positive count.

use crate::antichain::{least_positive, no_counts};
use crate::frontier::{
    consolidated, frontier_join, frontier_le, frontier_lt, lemma_consolidated_is,
};
use vstd::prelude::*;

verus! {

/// The state of one collection: the count of every time, and the slot of
/// every shard.
pub struct CollectionUppers {
    /// The count of each time. The map is total.
    pub counts: Map<u64, int>,
    /// The slot of each shard: `None` once the shard is retired, and else the
    /// frontier that the shard has reached.
    pub shards: Seq<Option<Option<u64>>>,
}

/// What one shard does to a collection.
pub enum ShardEvent {
    /// The shard reports an upper.
    Report { shard: int, upper: Option<u64> },
    /// The shard reports that the collection is dropped.
    Retire { shard: int },
}

/// The counts after the time of a frontier, if it has one, changes by `delta`.
pub open spec fn adjusted(counts: Map<u64, int>, f: Option<u64>, delta: int) -> Map<u64, int> {
    match f {
        Some(t) => counts.insert(t, counts[t] + delta),
        None => counts,
    }
}

/// The number of live slots that hold the frontier `{t}`.
pub open spec fn occurrences(shards: Seq<Option<Option<u64>>>, t: u64) -> int
    decreases shards.len(),
{
    if shards.len() == 0 {
        0
    } else {
        occurrences(shards.drop_last(), t) + if shards.last() == Some(Some(t)) {
            1int
        } else {
            0int
        }
    }
}

/// Whether every slot is retired.
pub open spec fn all_retired(shards: Seq<Option<Option<u64>>>) -> bool {
    forall|i: int| 0 <= i < shards.len() ==> shards[i] is None
}

impl CollectionUppers {
    /// The collection as it starts, with `parts` shards: every slot holds
    /// `{0}`, and zero is counted once for each.
    pub open spec fn initial(parts: nat) -> CollectionUppers {
        CollectionUppers {
            counts: no_counts().insert(0, parts as int),
            shards: Seq::new(parts, |i: int| Some(Some(0u64))),
        }
    }

    /// The consolidated frontier of the collection.
    pub open spec fn frontier(self) -> Option<u64> {
        consolidated(self.counts)
    }

    /// Whether `shard` is a live shard of the collection.
    pub open spec fn is_live(self, shard: int) -> bool {
        0 <= shard < self.shards.len() && self.shards[shard] is Some
    }

    /// The collection after a live shard reports `upper`: the slot's time
    /// leaves the counts, the reported time enters them, and the slot holds
    /// the join of what it held and the report.
    pub open spec fn report(self, shard: int, upper: Option<u64>) -> CollectionUppers {
        let held = self.shards[shard]->Some_0;
        CollectionUppers {
            counts: adjusted(adjusted(self.counts, held, -1), upper, 1),
            shards: self.shards.update(shard, Some(frontier_join(held, upper))),
        }
    }

    /// What a report emits: the new consolidated frontier where it lies
    /// strictly beyond the old one, and nothing otherwise.
    pub open spec fn emitted(self, shard: int, upper: Option<u64>) -> Option<Option<u64>> {
        let after = self.report(shard, upper).frontier();
        if frontier_lt(self.frontier(), after) {
            Some(after)
        } else {
            None
        }
    }

    /// The collection after a live shard is retired. The counts stay.
    pub open spec fn retire(self, shard: int) -> CollectionUppers {
        CollectionUppers { counts: self.counts, shards: self.shards.update(shard, None) }
    }

    /// By how much the count of `t` exceeds the number of live slots at `t`.
    pub open spec fn surplus(self, t: u64) -> int {
        self.counts[t] - occurrences(self.shards, t)
    }

    /// Whether the counts are exactly the live slots.
    pub open spec fn clean(self) -> bool {
        forall|t: u64| self.surplus(t) == 0
    }

    /// Whether `cap` is the first time whose count differs from its slots,
    /// and is counted more often than it has slots.
    pub open spec fn capped_at(self, cap: u64) -> bool {
        &&& self.surplus(cap) > 0
        &&& forall|t: u64| t < cap ==> self.surplus(t) == 0
    }

    /// The invariant of a collection: the counts are total, and the first
    /// time whose count differs from its slots, if there is one, is counted
    /// too often, never too rarely.
    pub open spec fn wf(self) -> bool {
        &&& forall|t: u64| self.counts.contains_key(t)
        &&& (self.clean() || exists|cap: u64| self.capped_at(cap))
    }

    /// Whether the consolidated frontier stands at a time that is counted
    /// more often than it has slots. No report can then take the time's
    /// count to zero, and the frontier cannot advance.
    pub open spec fn stuck(self) -> bool {
        exists|cap: u64| self.capped_at(cap) && self.frontier() == Some(cap)
    }

    /// The collection after an event.
    pub open spec fn step(self, event: ShardEvent) -> CollectionUppers {
        match event {
            ShardEvent::Report { shard, upper } => self.report(shard, upper),
            ShardEvent::Retire { shard } => self.retire(shard),
        }
    }

    /// Whether an event names a live shard.
    pub open spec fn admits(self, event: ShardEvent) -> bool {
        match event {
            ShardEvent::Report { shard, .. } => self.is_live(shard),
            ShardEvent::Retire { shard } => self.is_live(shard),
        }
    }

    /// What an event emits.
    pub open spec fn emits(self, event: ShardEvent) -> Option<Option<u64>> {
        match event {
            ShardEvent::Report { shard, upper } => self.emitted(shard, upper),
            ShardEvent::Retire { .. } => None,
        }
    }
}

/// Below a positive count lies a least one.
pub proof fn lemma_least_positive_exists(counts: Map<u64, int>, t: u64)
    requires
        counts[t] > 0,
    ensures
        consolidated(counts) is Some,
        consolidated(counts)->Some_0 <= t,
        least_positive(counts, consolidated(counts)->Some_0),
    decreases t,
{
    if forall|e: u64| e < t ==> counts[e] <= 0 {
        assert(least_positive(counts, t));
        lemma_consolidated_is(counts, t);
    } else {
        let e = choose|e: u64| e < t && counts[e] > 0;
        lemma_least_positive_exists(counts, e);
    }
}

/// What the consolidated frontier says of the counts.
pub proof fn lemma_consolidated_facts(counts: Map<u64, int>)
    ensures
        consolidated(counts) matches Some(t) ==> least_positive(counts, t),
        consolidated(counts) is None ==> forall|t: u64| counts[t] <= 0,
{
    if consolidated(counts) is None {
        assert forall|t: u64| counts[t] <= 0 by {
            if counts[t] > 0 {
                lemma_least_positive_exists(counts, t);
            }
        }
    }
}

/// The number of slots at a time is not negative, and positive where a slot
/// holds the time.
pub proof fn lemma_occurrences_bounds(shards: Seq<Option<Option<u64>>>, t: u64)
    ensures
        occurrences(shards, t) >= 0,
        forall|i: int|
            0 <= i < shards.len() && shards[i] == Some(Some(t)) ==> occurrences(shards, t) >= 1,
        occurrences(shards, t) > 0 ==> exists|i: int|
            0 <= i < shards.len() && shards[i] == Some(Some(t)),
    decreases shards.len(),
{
    if shards.len() > 0 {
        lemma_occurrences_bounds(shards.drop_last(), t);
        assert forall|i: int|
            0 <= i < shards.len() && shards[i] == Some(Some(t)) implies occurrences(shards, t)
            >= 1 by {
            if i < shards.len() - 1 {
                assert(shards.drop_last()[i] == shards[i]);
            }
        }
        if occurrences(shards, t) > 0 {
            if shards.last() == Some(Some(t)) {
                assert(shards[shards.len() - 1] == Some(Some(t)));
            } else {
                let i = choose|i: int|
                    0 <= i < shards.drop_last().len() && shards.drop_last()[i] == Some(Some(t));
                assert(shards[i] == Some(Some(t)));
            }
        }
    }
}

/// What a change of one slot does to the number of slots at a time.
pub proof fn lemma_occurrences_update(
    shards: Seq<Option<Option<u64>>>,
    i: int,
    v: Option<Option<u64>>,
    t: u64,
)
    requires
        0 <= i < shards.len(),
    ensures
        occurrences(shards.update(i, v), t) == occurrences(shards, t) - (if shards[i] == Some(
            Some(t),
        ) {
            1int
        } else {
            0int
        }) + (if v == Some(Some(t)) {
            1int
        } else {
            0int
        }),
    decreases shards.len(),
{
    let updated = shards.update(i, v);
    if i == shards.len() - 1 {
        assert(updated.drop_last() =~= shards.drop_last());
    } else {
        assert(updated.drop_last() =~= shards.drop_last().update(i, v));
        lemma_occurrences_update(shards.drop_last(), i, v, t);
    }
}

/// The time whose surplus an event raises by one, if there is one: the
/// reported time where the report lies below what the slot holds or the slot
/// holds the empty frontier, and the slot's time where the shard is retired.
pub open spec fn gain(c: CollectionUppers, event: ShardEvent) -> Option<u64> {
    match event {
        ShardEvent::Report { shard, upper } => match (c.shards[shard]->Some_0, upper) {
            (Some(h), Some(u)) => if u < h {
                Some(u)
            } else {
                None
            },
            (None, Some(u)) => Some(u),
            _ => None,
        },
        ShardEvent::Retire { shard } => c.shards[shard]->Some_0,
    }
}

/// The time whose surplus an event lowers by one, if there is one: the
/// slot's time where the report lies below it.
pub open spec fn loss(c: CollectionUppers, event: ShardEvent) -> Option<u64> {
    match event {
        ShardEvent::Report { shard, upper } => match (c.shards[shard]->Some_0, upper) {
            (Some(h), Some(u)) => if u < h {
                Some(h)
            } else {
                None
            },
            _ => None,
        },
        ShardEvent::Retire { .. } => None,
    }
}

/// One, where the two are the same time.
pub open spec fn one_if(a: Option<u64>, t: u64) -> int {
    if a == Some(t) {
        1
    } else {
        0
    }
}

/// What an event does to the count and to the surplus of a time.
pub proof fn lemma_step_at(c: CollectionUppers, event: ShardEvent, t: u64)
    requires
        c.admits(event),
    ensures
        c.step(event).surplus(t) == c.surplus(t) + one_if(gain(c, event), t) - one_if(
            loss(c, event),
            t,
        ),
        event matches ShardEvent::Report { shard, upper } ==> c.step(event).counts[t]
            == c.counts[t] - one_if(c.shards[shard]->Some_0, t) + one_if(upper, t),
        event is Retire ==> c.step(event).counts[t] == c.counts[t],
        c.counts.contains_key(t) ==> c.step(event).counts.contains_key(t),
{
    match event {
        ShardEvent::Report { shard, upper } => {
            let held = c.shards[shard]->Some_0;
            lemma_occurrences_update(c.shards, shard, Some(frontier_join(held, upper)), t);
        },
        ShardEvent::Retire { shard } => {
            lemma_occurrences_update(c.shards, shard, None, t);
        },
    }
}

/// A loss lies beyond the gain that comes with it.
pub proof fn lemma_loss_beyond_gain(c: CollectionUppers, event: ShardEvent)
    ensures
        loss(c, event) matches Some(l) ==> gain(c, event) matches Some(g) && g < l,
{
}

/// Every event on a live shard keeps the invariant of a collection.
pub proof fn lemma_step_keeps_wf(c: CollectionUppers, event: ShardEvent)
    requires
        c.wf(),
        c.admits(event),
    ensures
        c.step(event).wf(),
{
    let next = c.step(event);
    assert forall|t: u64| next.counts.contains_key(t) by {
        lemma_step_at(c, event, t);
    }
    assert forall|t: u64|
        next.surplus(t) == c.surplus(t) + one_if(gain(c, event), t) - one_if(
            loss(c, event),
            t,
        ) by {
        lemma_step_at(c, event, t);
    }
    lemma_loss_beyond_gain(c, event);
    match gain(c, event) {
        None => {
            if c.clean() {
                assert(next.clean());
            } else {
                let cap = choose|cap: u64| c.capped_at(cap);
                assert(next.capped_at(cap));
            }
        },
        Some(g) => {
            if c.clean() {
                assert(next.capped_at(g));
            } else {
                let cap = choose|cap: u64| c.capped_at(cap);
                if g < cap {
                    assert(next.capped_at(g));
                } else {
                    assert(next.capped_at(cap));
                }
            }
        },
    }
}

/// The collection as it starts is well formed, and its consolidated frontier
/// is `{0}` where it has a shard.
pub proof fn lemma_initial_is_wf(parts: nat)
    ensures
        CollectionUppers::initial(parts).wf(),
        CollectionUppers::initial(parts).clean(),
        parts > 0 ==> CollectionUppers::initial(parts).frontier() == Some(0u64),
{
    let c = CollectionUppers::initial(parts);
    assert forall|t: u64| c.surplus(t) == 0 by {
        lemma_occurrences_of_constant(parts, Some(Some(0u64)), t);
    }
    if parts > 0 {
        assert(least_positive(c.counts, 0));
        lemma_consolidated_is(c.counts, 0);
    }
}

/// The number of slots at a time where every slot holds the same.
pub proof fn lemma_occurrences_of_constant(n: nat, v: Option<Option<u64>>, t: u64)
    ensures
        occurrences(Seq::new(n, |i: int| v), t) == if v == Some(Some(t)) {
            n as int
        } else {
            0
        },
    decreases n,
{
    if n > 0 {
        assert(Seq::new(n, |i: int| v).drop_last() =~= Seq::new((n - 1) as nat, |i: int| v));
        lemma_occurrences_of_constant((n - 1) as nat, v, t);
    }
}

/// A slot at a time without surplus is counted.
pub proof fn lemma_slot_is_counted(c: CollectionUppers, i: int, t: u64)
    requires
        0 <= i < c.shards.len(),
        c.shards[i] == Some(Some(t)),
        c.surplus(t) == 0,
    ensures
        c.counts[t] >= 1,
{
    lemma_occurrences_bounds(c.shards, t);
}

/// How an event moves the consolidated frontier. Where the frontier is
/// stuck, it stays stuck and does not advance. Where it is not, it either
/// stays or advances, or it falls back and is stuck from then on.
pub proof fn lemma_step_moves_frontier(c: CollectionUppers, event: ShardEvent)
    requires
        c.wf(),
        c.admits(event),
    ensures
        c.step(event).wf(),
        c.stuck() ==> c.step(event).stuck() && !frontier_lt(
            c.frontier(),
            c.step(event).frontier(),
        ),
        !c.stuck() ==> frontier_le(c.frontier(), c.step(event).frontier()) || c.step(
            event,
        ).stuck(),
{
    let next = c.step(event);
    lemma_step_keeps_wf(c, event);
    lemma_loss_beyond_gain(c, event);
    lemma_consolidated_facts(c.counts);
    lemma_consolidated_facts(next.counts);
    assert forall|t: u64|
        next.surplus(t) == c.surplus(t) + one_if(gain(c, event), t) - one_if(
            loss(c, event),
            t,
        ) by {
        lemma_step_at(c, event, t);
    }
    assert forall|t: u64|
        (event matches ShardEvent::Report { shard, upper } ==> next.counts[t] == c.counts[t]
            - one_if(c.shards[shard]->Some_0, t) + one_if(upper, t)) && (event is Retire
            ==> next.counts[t] == c.counts[t]) by {
        lemma_step_at(c, event, t);
    }
    assert forall|t: u64| occurrences(c.shards, t) >= 0 && occurrences(next.shards, t) >= 0 by {
        lemma_occurrences_bounds(c.shards, t);
        lemma_occurrences_bounds(next.shards, t);
    }
    let shard = match event {
        ShardEvent::Report { shard, .. } => shard,
        ShardEvent::Retire { shard } => shard,
    };
    let held = c.shards[shard]->Some_0;
    // A live slot whose time has no surplus is counted, so it cannot lie
    // below the consolidated frontier.
    if held is Some {
        let h = held->Some_0;
        if c.surplus(h) == 0 {
            lemma_slot_is_counted(c, shard, h);
        }
    }
    if c.stuck() {
        let cap = choose|cap: u64| c.capped_at(cap) && c.frontier() == Some(cap);
        assert(c.counts[cap] >= 1);
        if held == Some(cap) {
            lemma_occurrences_bounds(c.shards, cap);
            assert(c.counts[cap] >= 2);
        }
        match gain(c, event) {
            Some(g) => {
                if g < cap {
                    assert(c.counts[g] <= 0);
                    assert(c.surplus(g) == 0);
                    assert(next.capped_at(g));
                    assert(next.counts[g] >= 1);
                    assert(least_positive(next.counts, g));
                    lemma_consolidated_is(next.counts, g);
                } else {
                    assert(next.capped_at(cap));
                    assert(next.counts[cap] >= 1);
                    assert(least_positive(next.counts, cap));
                    lemma_consolidated_is(next.counts, cap);
                }
            },
            None => {
                assert(next.capped_at(cap));
                assert(next.counts[cap] >= 1);
                assert(least_positive(next.counts, cap));
                lemma_consolidated_is(next.counts, cap);
            },
        }
    } else {
        match gain(c, event) {
            Some(g) => {
                // The reported or retired time is counted once more.
                let below = match c.frontier() {
                    Some(f) => g < f,
                    None => true,
                };
                if event is Report && below {
                    if c.clean() {
                        assert(c.surplus(g) == 0);
                    } else {
                        let cap = choose|cap: u64| c.capped_at(cap);
                        assert(c.counts[cap] >= 1);
                    }
                    assert(c.counts[g] <= 0);
                    assert(c.surplus(g) == 0);
                    assert(next.capped_at(g));
                    assert(next.counts[g] >= 1);
                    assert(least_positive(next.counts, g));
                    lemma_consolidated_is(next.counts, g);
                    assert(next.stuck());
                } else if event is Report {
                    let f = c.frontier()->Some_0;
                    assert(least_positive(next.counts, f));
                    lemma_consolidated_is(next.counts, f);
                } else {
                    assert(next.counts =~= c.counts);
                }
            },
            None => {
                match event {
                    ShardEvent::Report { shard, upper } => {
                        match next.frontier() {
                            Some(after) => {
                                // Nothing below the old frontier became positive.
                                let lower = match c.frontier() {
                                    Some(f) => after < f,
                                    None => true,
                                };
                                if lower {
                                    assert(c.counts[after] <= 0);
                                    assert(upper == Some(after));
                                    let h = held->Some_0;
                                    assert(h <= after);
                                    if c.clean() {
                                        assert(c.surplus(h) == 0);
                                    } else {
                                        let cap = choose|cap: u64| c.capped_at(cap);
                                        assert(c.counts[cap] >= 1);
                                        assert(c.surplus(h) == 0);
                                    }
                                    assert(c.counts[h] >= 1);
                                    assert(false);
                                }
                            },
                            None => {},
                        }
                    },
                    ShardEvent::Retire { .. } => {
                        assert(next.counts =~= c.counts);
                    },
                }
            },
        }
    }
}

/// Whether every event in turn names a shard that is live when it comes.
pub open spec fn admits_all(c: CollectionUppers, events: Seq<ShardEvent>) -> bool
    decreases events.len(),
{
    events.len() == 0 || (c.admits(events[0]) && admits_all(
        c.step(events[0]),
        events.drop_first(),
    ))
}

/// The collection after a sequence of events.
pub open spec fn after_all(c: CollectionUppers, events: Seq<ShardEvent>) -> CollectionUppers
    decreases events.len(),
{
    if events.len() == 0 {
        c
    } else {
        after_all(c.step(events[0]), events.drop_first())
    }
}

/// The frontiers that a sequence of events emits, in order.
pub open spec fn emissions(c: CollectionUppers, events: Seq<ShardEvent>) -> Seq<Option<u64>>
    decreases events.len(),
{
    if events.len() == 0 {
        Seq::empty()
    } else {
        let rest = emissions(c.step(events[0]), events.drop_first());
        match c.emits(events[0]) {
            Some(f) => seq![f] + rest,
            None => rest,
        }
    }
}

/// Every emission of a sequence of events lies at or beyond `floor`, and at
/// or beyond every emission before it, where the consolidated frontier lies
/// at or beyond `floor` or is stuck.
pub proof fn lemma_emissions_from_floor(
    c: CollectionUppers,
    events: Seq<ShardEvent>,
    floor: Option<u64>,
)
    requires
        c.wf(),
        admits_all(c, events),
        frontier_le(floor, c.frontier()) || c.stuck(),
    ensures
        forall|i: int|
            0 <= i < emissions(c, events).len() ==> frontier_le(
                floor,
                #[trigger] emissions(c, events)[i],
            ),
        forall|i: int, j: int|
            0 <= i <= j < emissions(c, events).len() ==> frontier_le(
                #[trigger] emissions(c, events)[i],
                #[trigger] emissions(c, events)[j],
            ),
    decreases events.len(),
{
    if events.len() > 0 {
        let event = events[0];
        let next = c.step(event);
        let rest = emissions(next, events.drop_first());
        lemma_step_moves_frontier(c, event);
        match c.emits(event) {
            Some(f) => {
                assert(f == next.frontier());
                assert(frontier_lt(c.frontier(), f));
                lemma_emissions_from_floor(next, events.drop_first(), f);
                let all = emissions(c, events);
                assert(all == seq![f] + rest);
                assert forall|i: int| 0 <= i < all.len() implies frontier_le(
                    floor,
                    #[trigger] all[i],
                ) by {
                    if i > 0 {
                        assert(all[i] == rest[i - 1]);
                    }
                }
                assert forall|i: int, j: int| 0 <= i <= j < all.len() implies frontier_le(
                    #[trigger] all[i],
                    #[trigger] all[j],
                ) by {
                    if i > 0 {
                        assert(all[i] == rest[i - 1]);
                    }
                    if j > 0 {
                        assert(all[j] == rest[j - 1]);
                    }
                }
            },
            None => {
                lemma_emissions_from_floor(next, events.drop_first(), floor);
            },
        }
    }
}

/// The consolidated frontiers that a collection emits never regress,
/// whatever the shards report and in whatever order: of any two emissions,
/// the later one lies at or beyond the earlier one.
pub proof fn law_emissions_never_regress(c: CollectionUppers, events: Seq<ShardEvent>)
    requires
        c.wf(),
        admits_all(c, events),
    ensures
        forall|i: int, j: int|
            0 <= i <= j < emissions(c, events).len() ==> frontier_le(
                #[trigger] emissions(c, events)[i],
                #[trigger] emissions(c, events)[j],
            ),
{
    lemma_emissions_from_floor(c, events, Some(0u64));
}

/// A report that does not take the consolidated frontier strictly beyond
/// where it stood emits nothing, and one that does emits the new frontier.
pub proof fn law_only_advances_are_emitted(c: CollectionUppers, shard: int, upper: Option<u64>)
    requires
        c.wf(),
        c.is_live(shard),
    ensures
        c.emitted(shard, upper) is None <==> !frontier_lt(
            c.frontier(),
            c.report(shard, upper).frontier(),
        ),
        c.emitted(shard, upper) matches Some(f) ==> f == c.report(shard, upper).frontier(),
{
}

/// The reports in which the shards of `order` report `upper`, one after the
/// other.
pub open spec fn reports_of(order: Seq<int>, upper: Option<u64>) -> Seq<ShardEvent> {
    Seq::new(order.len(), |i: int| ShardEvent::Report { shard: order[i], upper })
}

/// The retirements of the shards of `order`, one after the other.
pub open spec fn retirements_of(order: Seq<int>) -> Seq<ShardEvent> {
    Seq::new(order.len(), |i: int| ShardEvent::Retire { shard: order[i] })
}

/// Where distinct shards whose slots hold `{0}` report `upper` one after the
/// other, into a collection whose counts are exactly its slots, the reports
/// are admitted and leave a collection whose counts are exactly its slots, in
/// which the slots of those shards hold `upper` and the others are unchanged.
pub proof fn lemma_first_reports(c: CollectionUppers, order: Seq<int>, upper: Option<u64>)
    requires
        c.wf(),
        c.clean(),
        order.no_duplicates(),
        forall|i: int|
            0 <= i < order.len() ==> 0 <= #[trigger] order[i] < c.shards.len() && c.shards[order[i]]
                == Some(Some(0u64)),
    ensures
        admits_all(c, reports_of(order, upper)),
        after_all(c, reports_of(order, upper)).clean(),
        after_all(c, reports_of(order, upper)).wf(),
        after_all(c, reports_of(order, upper)).shards.len() == c.shards.len(),
        forall|s: int|
            0 <= s < c.shards.len() ==> #[trigger] after_all(
                c,
                reports_of(order, upper),
            ).shards[s] == if order.contains(s) {
                Some(upper)
            } else {
                c.shards[s]
            },
    decreases order.len(),
{
    let events = reports_of(order, upper);
    if order.len() > 0 {
        let event = events[0];
        let next = c.step(event);
        assert(order[0] == order[0]);
        assert(c.admits(event));
        lemma_forward_report_keeps_clean(c, order[0], upper);
        let rest = order.drop_first();
        assert(events.drop_first() =~= reports_of(rest, upper));
        assert forall|i: int| 0 <= i < rest.len() implies 0 <= #[trigger] rest[i]
            < next.shards.len() && next.shards[rest[i]] == Some(Some(0u64)) by {
            assert(rest[i] == order[i + 1]);
            assert(order[i + 1] != order[0]);
        }
        assert(rest.no_duplicates()) by {
            assert forall|i: int, j: int|
                0 <= i < rest.len() && 0 <= j < rest.len() && i != j implies rest[i]
                != rest[j] by {
                assert(rest[i] == order[i + 1]);
                assert(rest[j] == order[j + 1]);
            }
        }
        lemma_first_reports(next, rest, upper);
        let last = after_all(c, events);
        assert(last == after_all(next, reports_of(rest, upper)));
        assert forall|s: int| 0 <= s < c.shards.len() implies #[trigger] last.shards[s]
            == if order.contains(s) {
            Some(upper)
        } else {
            c.shards[s]
        } by {
            if rest.contains(s) {
                let i = choose|i: int| 0 <= i < rest.len() && rest[i] == s;
                assert(order[i + 1] == s);
            } else if s == order[0] {
                assert(order.contains(s));
                assert(frontier_join(Some(0u64), upper) == upper);
            } else if order.contains(s) {
                let i = choose|i: int| 0 <= i < order.len() && order[i] == s;
                assert(rest[i - 1] == s);
            }
        }
    }
}

/// After every shard of a fresh collection has reported the same upper once,
/// in whatever order, the consolidated frontier is that upper.
pub proof fn law_consolidated_is_common_upper(parts: nat, order: Seq<int>, upper: Option<u64>)
    requires
        parts > 0,
        order.no_duplicates(),
        forall|i: int| 0 <= i < order.len() ==> 0 <= #[trigger] order[i] < parts,
        forall|s: int| 0 <= s < parts ==> order.contains(s),
    ensures
        admits_all(CollectionUppers::initial(parts), reports_of(order, upper)),
        after_all(CollectionUppers::initial(parts), reports_of(order, upper)).frontier() == upper,
{
    let c = CollectionUppers::initial(parts);
    lemma_initial_is_wf(parts);
    lemma_first_reports(c, order, upper);
    let last = after_all(c, reports_of(order, upper));
    assert(last.shards =~= Seq::new(parts, |i: int| Some(upper)));
    assert forall|t: u64| last.counts[t] == if upper == Some(t) {
        parts as int
    } else {
        0
    } by {
        lemma_occurrences_of_constant(parts, Some(upper), t);
        assert(last.surplus(t) == 0);
    }
    match upper {
        Some(u) => {
            assert(least_positive(last.counts, u));
            lemma_consolidated_is(last.counts, u);
        },
        None => {
            assert(forall|t: u64| !least_positive(last.counts, t));
        },
    }
}

/// Where distinct live shards are retired one after the other, the
/// retirements are admitted, and they leave every slot retired if and only if
/// every slot that was live is among them.
pub proof fn law_drop_needs_every_shard(c: CollectionUppers, order: Seq<int>)
    requires
        order.no_duplicates(),
        forall|i: int| 0 <= i < order.len() ==> c.is_live(#[trigger] order[i]),
    ensures
        admits_all(c, retirements_of(order)),
        after_all(c, retirements_of(order)).shards.len() == c.shards.len(),
        forall|s: int|
            0 <= s < c.shards.len() ==> #[trigger] after_all(c, retirements_of(order)).shards[s]
                == if order.contains(s) {
                None
            } else {
                c.shards[s]
            },
        all_retired(after_all(c, retirements_of(order)).shards) <==> forall|s: int|
            c.is_live(s) ==> order.contains(s),
    decreases order.len(),
{
    let events = retirements_of(order);
    let last = after_all(c, events);
    if order.len() > 0 {
        let event = events[0];
        let next = c.step(event);
        assert(c.is_live(order[0]));
        let rest = order.drop_first();
        assert(events.drop_first() =~= retirements_of(rest));
        assert forall|i: int| 0 <= i < rest.len() implies next.is_live(#[trigger] rest[i]) by {
            assert(rest[i] == order[i + 1]);
            assert(c.is_live(order[i + 1]));
            assert(order[i + 1] != order[0]);
        }
        assert(rest.no_duplicates()) by {
            assert forall|i: int, j: int|
                0 <= i < rest.len() && 0 <= j < rest.len() && i != j implies rest[i]
                != rest[j] by {
                assert(rest[i] == order[i + 1]);
                assert(rest[j] == order[j + 1]);
            }
        }
        law_drop_needs_every_shard(next, rest);
        assert(last == after_all(next, retirements_of(rest)));
        assert forall|s: int| 0 <= s < c.shards.len() implies #[trigger] last.shards[s]
            == if order.contains(s) {
            None
        } else {
            c.shards[s]
        } by {
            if rest.contains(s) {
                let i = choose|i: int| 0 <= i < rest.len() && rest[i] == s;
                assert(order[i + 1] == s);
            } else if s == order[0] {
                assert(order.contains(s));
            } else if order.contains(s) {
                let i = choose|i: int| 0 <= i < order.len() && order[i] == s;
                assert(rest[i - 1] == s);
            }
        }
    }
    if all_retired(last.shards) {
        assert forall|s: int| c.is_live(s) implies order.contains(s) by {
            assert(last.shards[s] is None);
        }
    }
    if forall|s: int| c.is_live(s) ==> order.contains(s) {
        assert forall|i: int| 0 <= i < last.shards.len() implies last.shards[i] is None by {
            if !order.contains(i) {
                assert(!c.is_live(i));
            }
        }
    }
}

/// Whether every report of a list names a tracked collection of which
/// `shard` is a live shard.
pub open spec fn admits_uppers(
    m: Map<u64, CollectionUppers>,
    shard: int,
    list: Seq<(u64, Option<u64>)>,
) -> bool {
    forall|i: int|
        0 <= i < list.len() ==> m.contains_key((#[trigger] list[i]).0) && m[list[i].0].is_live(
            shard,
        )
}

/// The collections after `shard` has reported the uppers of a list, one
/// after the other.
pub open spec fn absorb_uppers(
    m: Map<u64, CollectionUppers>,
    shard: int,
    list: Seq<(u64, Option<u64>)>,
) -> Map<u64, CollectionUppers>
    decreases list.len(),
{
    if list.len() == 0 {
        m
    } else {
        let (id, upper) = list[0];
        absorb_uppers(m.insert(id, m[id].report(shard, upper)), shard, list.drop_first())
    }
}

/// Reports retire no shard and neither add nor remove a collection.
pub proof fn lemma_absorb_uppers_keeps_shards(
    m: Map<u64, CollectionUppers>,
    shard: int,
    list: Seq<(u64, Option<u64>)>,
)
    requires
        admits_uppers(m, shard, list),
    ensures
        forall|id: u64|
            m.contains_key(id) <==> #[trigger] absorb_uppers(m, shard, list).contains_key(id),
        forall|id: u64, s: int|
            m.contains_key(id) ==> (#[trigger] absorb_uppers(m, shard, list)[id].is_live(s)
                <==> m[id].is_live(s)),
        forall|id: u64|
            m.contains_key(id) ==> (#[trigger] absorb_uppers(m, shard, list)[id]).shards.len()
                == m[id].shards.len(),
    decreases list.len(),
{
    if list.len() > 0 {
        let (id, upper) = list[0];
        let next = m.insert(id, m[id].report(shard, upper));
        let rest = list.drop_first();
        assert(m.contains_key(list[0].0));
        assert forall|i: int| 0 <= i < rest.len() implies next.contains_key(
            (#[trigger] rest[i]).0,
        ) && next[rest[i].0].is_live(shard) by {
            assert(rest[i] == list[i + 1]);
            assert(m.contains_key(list[i + 1].0));
        }
        lemma_absorb_uppers_keeps_shards(next, shard, rest);
        let last = absorb_uppers(m, shard, list);
        assert(last == absorb_uppers(next, shard, rest));
        assert forall|k: u64| m.contains_key(k) <==> #[trigger] last.contains_key(k) by {
            assert(next.contains_key(k) <==> m.contains_key(k));
        }
        assert forall|k: u64, s: int| m.contains_key(k) implies (#[trigger] last[k].is_live(s)
            <==> m[k].is_live(s)) by {
            assert(next.contains_key(k));
            assert(next[k].is_live(s) <==> m[k].is_live(s));
        }
        assert forall|k: u64| m.contains_key(k) implies (#[trigger] last[k]).shards.len()
            == m[k].shards.len() by {
            assert(next.contains_key(k));
            assert(next[k].shards.len() == m[k].shards.len());
        }
    }
}

/// The collection-level updates that the reports of a list emit, in order:
/// for each report that takes the consolidated frontier of its collection
/// strictly beyond where it stood, the collection and its new frontier.
pub open spec fn emitted_uppers(
    m: Map<u64, CollectionUppers>,
    shard: int,
    list: Seq<(u64, Option<u64>)>,
) -> Seq<(u64, Option<u64>)>
    decreases list.len(),
{
    if list.len() == 0 {
        Seq::empty()
    } else {
        let (id, upper) = list[0];
        let rest = emitted_uppers(
            m.insert(id, m[id].report(shard, upper)),
            shard,
            list.drop_first(),
        );
        match m[id].emitted(shard, upper) {
            Some(f) => seq![(id, f)] + rest,
            None => rest,
        }
    }
}

/// Whether every collection of a set is tracked and has `shard` as a live
/// shard.
pub open spec fn admits_drops(m: Map<u64, CollectionUppers>, shard: int, ids: Set<u64>) -> bool {
    forall|id: u64| #[trigger] ids.contains(id) ==> m.contains_key(id) && m[id].is_live(shard)
}

/// The collections whose drop is emitted when `shard` reports the drop of a
/// set of collections: those of the set of which it was the last live shard.
pub open spec fn emitted_drops(m: Map<u64, CollectionUppers>, shard: int, ids: Set<u64>) -> Set<
    u64,
> {
    Set::new(
        |id: u64| ids.contains(id) && m.contains_key(id) && all_retired(m[id].retire(shard).shards),
    )
}

/// The collections after `shard` has reported the drop of a set of
/// collections: in each, the shard is retired; those whose drop is emitted
/// are no longer tracked.
pub open spec fn absorb_drops(m: Map<u64, CollectionUppers>, shard: int, ids: Set<u64>) -> Map<
    u64,
    CollectionUppers,
> {
    Map::new(
        |id: u64| m.contains_key(id) && !emitted_drops(m, shard, ids).contains(id),
        |id: u64|
            if ids.contains(id) {
                m[id].retire(shard)
            } else {
                m[id]
            },
    )
}

/// After a report, the consolidated frontier does not lie beyond the
/// reported upper.
pub proof fn lemma_report_bounds_frontier(c: CollectionUppers, shard: int, upper: Option<u64>)
    requires
        c.wf(),
        c.is_live(shard),
    ensures
        frontier_le(c.report(shard, upper).frontier(), upper),
{
    if let Some(u) = upper {
        let event = ShardEvent::Report { shard, upper };
        let next = c.step(event);
        let held = c.shards[shard]->Some_0;
        lemma_step_at(c, event, u);
        lemma_occurrences_bounds(c.shards, u);
        if c.surplus(u) >= 0 {
            assert(next.counts[u] >= 1);
            lemma_least_positive_exists(next.counts, u);
        } else {
            let cap = choose|cap: u64| c.capped_at(cap);
            assert(cap < u);
            lemma_step_at(c, event, cap);
            lemma_occurrences_bounds(c.shards, cap);
            assert(next.counts[cap] >= 1);
            lemma_least_positive_exists(next.counts, cap);
        }
    }
}

/// A report whose upper does not lie strictly beyond the consolidated
/// frontier emits nothing.
pub proof fn law_report_without_advance_emits_nothing(
    c: CollectionUppers,
    shard: int,
    upper: Option<u64>,
)
    requires
        c.wf(),
        c.is_live(shard),
        !frontier_lt(c.frontier(), upper),
    ensures
        c.emitted(shard, upper) is None,
{
    lemma_report_bounds_frontier(c, shard, upper);
}

/// A report that does not lie before what the slot of its shard holds keeps
/// the counts exactly the slots, and the slot then holds the report.
pub proof fn lemma_forward_report_keeps_clean(c: CollectionUppers, shard: int, upper: Option<u64>)
    requires
        c.wf(),
        c.clean(),
        c.is_live(shard),
        frontier_le(c.shards[shard]->Some_0, upper),
    ensures
        c.report(shard, upper).wf(),
        c.report(shard, upper).clean(),
        c.report(shard, upper).shards == c.shards.update(shard, Some(upper)),
{
    let event = ShardEvent::Report { shard, upper };
    lemma_step_keeps_wf(c, event);
    assert forall|t: u64| c.report(shard, upper).surplus(t) == 0 by {
        lemma_step_at(c, event, t);
        assert(c.surplus(t) == 0);
    }
}

/// Where every slot but that of `shard` holds `upper`, and the counts are
/// exactly the slots, the report of `upper` by `shard` takes the consolidated
/// frontier to `upper`; and it emits `upper` if and only if the slot of
/// `shard` lay strictly before it.
pub proof fn law_last_report_completes(c: CollectionUppers, shard: int, upper: Option<u64>)
    requires
        c.wf(),
        c.clean(),
        c.is_live(shard),
        forall|s: int| 0 <= s < c.shards.len() && s != shard ==> c.shards[s] == Some(upper),
    ensures
        c.report(shard, upper).frontier() == upper,
        c.emitted(shard, upper) == if frontier_lt(c.shards[shard]->Some_0, upper) {
            Some(upper)
        } else {
            None
        },
{
    let n = c.shards.len();
    let held = c.shards[shard]->Some_0;
    let event = ShardEvent::Report { shard, upper };
    let next = c.step(event);
    let base = Seq::new(n, |i: int| Some(upper));
    assert(c.shards =~= base.update(shard, Some(held)));
    assert forall|t: u64|
        #[trigger] c.counts[t] == (if upper == Some(t) {
            n - 1
        } else {
            0
        }) + one_if(held, t) by {
        lemma_occurrences_of_constant(n, Some(upper), t);
        lemma_occurrences_update(base, shard, Some(held), t);
        assert(c.surplus(t) == 0);
    }
    assert forall|t: u64|
        #[trigger] next.counts[t] == (if upper == Some(t) {
            n as int
        } else {
            0
        }) by {
        lemma_step_at(c, event, t);
    }
    match upper {
        Some(u) => {
            assert(least_positive(next.counts, u));
            lemma_consolidated_is(next.counts, u);
        },
        None => {
            assert(forall|t: u64| !least_positive(next.counts, t));
        },
    }
    lemma_consolidated_facts(c.counts);
    match held {
        Some(h) => {
            if frontier_lt(held, upper) {
                assert(least_positive(c.counts, h));
                lemma_consolidated_is(c.counts, h);
            } else {
                // The slot lies at or beyond the upper: so does the frontier
                // afterwards, and nothing is emitted.
                lemma_report_bounds_frontier(c, shard, upper);
                if c.frontier() is None {
                    assert(c.counts[h] <= 0);
                }
                if let Some(u) = upper {
                    if n > 1 {
                        assert(least_positive(c.counts, u));
                        lemma_consolidated_is(c.counts, u);
                    } else {
                        assert(least_positive(c.counts, h));
                        lemma_consolidated_is(c.counts, h);
                    }
                }
            }
        },
        None => {
            assert(upper is None ==> forall|t: u64| c.counts[t] == 0);
            if let Some(u) = upper {
                if n > 1 {
                    assert(least_positive(c.counts, u));
                    lemma_consolidated_is(c.counts, u);
                }
            }
        },
    }
}

/// Whether every tracked collection is well formed and has a floor that its
/// consolidated frontier has reached, unless the frontier is stuck.
pub open spec fn floored(m: Map<u64, CollectionUppers>, floor: Map<u64, Option<u64>>) -> bool {
    forall|id: u64| #[trigger]
        m.contains_key(id) ==> m[id].wf() && floor.contains_key(id) && (m[id].stuck()
            || frontier_le(floor[id], m[id].frontier()))
}

/// The consolidated frontiers of the tracked collections.
pub open spec fn frontiers_of(m: Map<u64, CollectionUppers>) -> Map<u64, Option<u64>> {
    Map::new(|id: u64| m.contains_key(id), |id: u64| m[id].frontier())
}

/// A report keeps every floor, and what it emits lies strictly beyond the
/// floor of its collection.
pub proof fn lemma_report_keeps_floor(
    m: Map<u64, CollectionUppers>,
    shard: int,
    id: u64,
    upper: Option<u64>,
    floor: Map<u64, Option<u64>>,
)
    requires
        floored(m, floor),
        m.contains_key(id),
        m[id].is_live(shard),
    ensures
        floored(m.insert(id, m[id].report(shard, upper)), floor),
        m[id].report(shard, upper).is_live(shard),
        m[id].emitted(shard, upper) matches Some(f) ==> frontier_lt(floor[id], f),
        !frontier_lt(floor[id], upper) ==> m[id].emitted(shard, upper) is None,
{
    let c = m[id];
    let next_m = m.insert(id, c.report(shard, upper));
    lemma_step_moves_frontier(c, ShardEvent::Report { shard, upper });
    assert forall|k: u64| #[trigger] next_m.contains_key(k) implies next_m[k].wf()
        && floor.contains_key(k) && (next_m[k].stuck() || frontier_le(
        floor[k],
        next_m[k].frontier(),
    )) by {
        if k != id {
            assert(m.contains_key(k));
        }
    }
    if !c.stuck() && !frontier_lt(floor[id], upper) {
        law_report_without_advance_emits_nothing(c, shard, upper);
    }
}

/// What the reports of a list emit lies strictly beyond the floor of its
/// collection.
pub proof fn lemma_emitted_uppers_beyond_floor(
    m: Map<u64, CollectionUppers>,
    shard: int,
    list: Seq<(u64, Option<u64>)>,
    floor: Map<u64, Option<u64>>,
)
    requires
        floored(m, floor),
        admits_uppers(m, shard, list),
    ensures
        forall|k: int|
            0 <= k < emitted_uppers(m, shard, list).len() ==> m.contains_key(
                (#[trigger] emitted_uppers(m, shard, list)[k]).0,
            ) && frontier_lt(
                floor[emitted_uppers(m, shard, list)[k].0],
                emitted_uppers(m, shard, list)[k].1,
            ),
        (forall|i: int| 0 <= i < list.len() ==> !frontier_lt(
            floor[(#[trigger] list[i]).0],
            list[i].1,
        )) ==> emitted_uppers(m, shard, list).len() == 0,
    decreases list.len(),
{
    if list.len() > 0 {
        let (id, upper) = list[0];
        let next_m = m.insert(id, m[id].report(shard, upper));
        let rest = list.drop_first();
        assert(m.contains_key(list[0].0));
        lemma_report_keeps_floor(m, shard, id, upper, floor);
        assert forall|i: int| 0 <= i < rest.len() implies next_m.contains_key(
            (#[trigger] rest[i]).0,
        ) && next_m[rest[i].0].is_live(shard) by {
            assert(rest[i] == list[i + 1]);
            assert(m.contains_key(list[i + 1].0));
        }
        lemma_emitted_uppers_beyond_floor(next_m, shard, rest, floor);
        let tail = emitted_uppers(next_m, shard, rest);
        let all = emitted_uppers(m, shard, list);
        assert forall|k: int| 0 <= k < all.len() implies m.contains_key((#[trigger] all[k]).0)
            && frontier_lt(floor[all[k].0], all[k].1) by {
            match m[id].emitted(shard, upper) {
                Some(f) => {
                    assert(all == seq![(id, f)] + tail);
                    if k > 0 {
                        assert(all[k] == tail[k - 1]);
                        assert(next_m.contains_key(tail[k - 1].0));
                    }
                },
                None => {
                    assert(all == tail);
                    assert(next_m.contains_key(tail[k].0));
                },
            }
        }
        if forall|i: int| 0 <= i < list.len() ==> !frontier_lt(
            floor[(#[trigger] list[i]).0],
            list[i].1,
        ) {
            assert(!frontier_lt(floor[list[0].0], list[0].1));
            assert forall|i: int| 0 <= i < rest.len() implies !frontier_lt(
                floor[(#[trigger] rest[i]).0],
                rest[i].1,
            ) by {
                assert(rest[i] == list[i + 1]);
            }
        }
    }
}

/// Every collection-level update that a list of reports emits carries a
/// frontier strictly beyond the consolidated frontier that its collection
/// had before the list came.
pub proof fn law_listed_uppers_advance(
    m: Map<u64, CollectionUppers>,
    shard: int,
    list: Seq<(u64, Option<u64>)>,
)
    requires
        forall|id: u64| #[trigger] m.contains_key(id) ==> m[id].wf(),
        admits_uppers(m, shard, list),
    ensures
        forall|k: int|
            0 <= k < emitted_uppers(m, shard, list).len() ==> m.contains_key(
                (#[trigger] emitted_uppers(m, shard, list)[k]).0,
            ) && frontier_lt(
                m[emitted_uppers(m, shard, list)[k].0].frontier(),
                emitted_uppers(m, shard, list)[k].1,
            ),
{
    lemma_emitted_uppers_beyond_floor(m, shard, list, frontiers_of(m));
}

/// A list of reports none of which carries an upper strictly beyond the
/// consolidated frontier that its collection had before the list came emits
/// nothing.
pub proof fn law_list_without_advance_emits_nothing(
    m: Map<u64, CollectionUppers>,
    shard: int,
    list: Seq<(u64, Option<u64>)>,
)
    requires
        forall|id: u64| #[trigger] m.contains_key(id) ==> m[id].wf(),
        admits_uppers(m, shard, list),
        forall|i: int|
            0 <= i < list.len() ==> !frontier_lt(
                m[(#[trigger] list[i]).0].frontier(),
                list[i].1,
            ),
    ensures
        emitted_uppers(m, shard, list).len() == 0,
{
    let floor = frontiers_of(m);
    assert forall|i: int| 0 <= i < list.len() implies !frontier_lt(
        floor[(#[trigger] list[i]).0],
        list[i].1,
    ) by {
        assert(m.contains_key(list[i].0));
    }
    lemma_emitted_uppers_beyond_floor(m, shard, list, floor);
}

} // verus!
