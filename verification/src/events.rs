//! The timing of rare, high-impact events: which events are active, how many
//! ticks each has left, and which of them act on a given tick. Events start
//! only while none is in effect, which keeps them rare.
//!
//! Events are known here by their position in the order they were added; what
//! an event does to individuals is applied by the caller to the positions that
//! `process_tick` returns.

use vstd::prelude::*;

verus! {

/// An event that is in effect, with the number of ticks it still acts on.
#[derive(Debug, Clone, Copy, PartialEq, Eq)]
pub struct ActiveEvent {
    pub event: usize,
    pub remaining: u32,
}

/// The active events after one tick: each has one tick less, and those that
/// had only this tick left are gone; the order is kept.
pub open spec fn countdown(active: Seq<ActiveEvent>) -> Seq<ActiveEvent>
    decreases active.len(),
{
    if active.len() == 0 {
        active
    } else {
        let before = countdown(active.drop_last());
        let a = active.last();
        if a.remaining > 1 {
            before.push(ActiveEvent { event: a.event, remaining: (a.remaining - 1) as u32 })
        } else {
            before
        }
    }
}

/// The active events after `k` ticks on which nothing new is triggered.
pub open spec fn countdown_n(active: Seq<ActiveEvent>, k: nat) -> Seq<ActiveEvent>
    decreases k,
{
    if k == 0 {
        active
    } else {
        countdown_n(countdown(active), (k - 1) as nat)
    }
}

/// The entries of `active` that have more than `k` ticks left, each with `k`
/// ticks less, in order.
pub open spec fn outlasting(active: Seq<ActiveEvent>, k: nat) -> Seq<ActiveEvent>
    decreases active.len(),
{
    if active.len() == 0 {
        active
    } else {
        let before = outlasting(active.drop_last(), k);
        let a = active.last();
        if a.remaining > k {
            before.push(ActiveEvent { event: a.event, remaining: (a.remaining - k) as u32 })
        } else {
            before
        }
    }
}

/// The events triggered on a tick, in the order the events were added, each
/// with its full duration.
pub open spec fn newly_active(durations: Seq<u32>, triggered: Seq<bool>) -> Seq<ActiveEvent>
    decreases triggered.len(),
{
    if triggered.len() == 0 {
        Seq::empty()
    } else {
        let i = triggered.len() - 1;
        let before = newly_active(durations, triggered.drop_last());
        if triggered.last() {
            before.push(ActiveEvent { event: i as usize, remaining: durations[i] })
        } else {
            before
        }
    }
}

/// The events that start on a tick: those triggered, when none is in effect;
/// none otherwise.
pub open spec fn started(active: Seq<ActiveEvent>, durations: Seq<u32>, triggered: Seq<bool>) -> Seq<
    ActiveEvent,
> {
    if active.len() == 0 {
        newly_active(durations, triggered)
    } else {
        Seq::empty()
    }
}

/// Every active entry names a known event and has between one tick and that
/// event's duration left.
pub open spec fn entries_within(durations: Seq<u32>, active: Seq<ActiveEvent>) -> bool {
    forall|i: int|
        0 <= i < active.len() ==> {
            &&& (#[trigger] active[i]).event < durations.len()
            &&& 1 <= active[i].remaining <= durations[active[i].event as int]
        }
}

/// One tick of countdown is what outlasting one tick keeps.
pub proof fn lemma_countdown_is_outlasting_one(active: Seq<ActiveEvent>)
    ensures
        countdown(active) == outlasting(active, 1),
    decreases active.len(),
{
    if active.len() > 0 {
        lemma_countdown_is_outlasting_one(active.drop_last());
    }
}

/// Outlasting one tick and then `k` more is outlasting `k + 1` ticks.
pub proof fn lemma_outlasting_then(active: Seq<ActiveEvent>, k: nat)
    ensures
        outlasting(outlasting(active, 1), k) == outlasting(active, k + 1),
    decreases active.len(),
{
    if active.len() > 0 {
        lemma_outlasting_then(active.drop_last(), k);
        let a = active.last();
        let rest1 = outlasting(active.drop_last(), 1);
        if a.remaining > 1 {
            let b = ActiveEvent { event: a.event, remaining: (a.remaining - 1) as u32 };
            assert(outlasting(active, 1) == rest1.push(b));
            assert(outlasting(active, 1).drop_last() =~= rest1);
        } else {
            assert(outlasting(active, 1) == rest1);
        }
    }
}

/// After `k` ticks on which nothing new is triggered, exactly the events that
/// had more than `k` ticks left are still active, in the same order, each
/// with `k` ticks less.
pub proof fn lemma_countdown_n(active: Seq<ActiveEvent>, k: nat)
    requires
        forall|i: int| 0 <= i < active.len() ==> (#[trigger] active[i]).remaining >= 1,
    ensures
        countdown_n(active, k) == outlasting(active, k),
    decreases k,
{
    if k == 0 {
        lemma_outlasting_zero(active);
    } else {
        lemma_countdown_positive(active);
        lemma_countdown_n(countdown(active), (k - 1) as nat);
        lemma_countdown_is_outlasting_one(active);
        lemma_outlasting_then(active, (k - 1) as nat);
    }
}

/// After a tick every active event still has at least one tick left.
pub proof fn lemma_countdown_positive(active: Seq<ActiveEvent>)
    ensures
        forall|i: int| 0 <= i < countdown(active).len() ==> (#[trigger] countdown(active)[i]).remaining
            >= 1,
    decreases active.len(),
{
    if active.len() > 0 {
        lemma_countdown_positive(active.drop_last());
        let before = countdown(active.drop_last());
        let a = active.last();
        if a.remaining > 1 {
            let b = ActiveEvent { event: a.event, remaining: (a.remaining - 1) as u32 };
            assert forall|i: int| 0 <= i < countdown(active).len() implies (
            #[trigger] countdown(active)[i]).remaining >= 1 by {
                assert(countdown(active) == before.push(b));
                if i < before.len() {
                    assert(countdown(active)[i] == before[i]);
                }
            }
        }
    }
}

/// Outlasting no tick keeps every active event as it is.
pub proof fn lemma_outlasting_zero(active: Seq<ActiveEvent>)
    requires
        forall|i: int| 0 <= i < active.len() ==> (#[trigger] active[i]).remaining >= 1,
    ensures
        outlasting(active, 0) == active,
    decreases active.len(),
{
    if active.len() > 0 {
        lemma_outlasting_zero(active.drop_last());
        assert(active.drop_last().push(active.last()) =~= active);
    }
}

/// An event that is active with `d` ticks left acts on exactly `d` ticks: it
/// is still active after `k` quiet ticks when `k < d`, with `d - k` ticks
/// left, and gone once `k >= d`.
pub proof fn lemma_event_lifetime(e: ActiveEvent, k: nat)
    requires
        e.remaining >= 1,
    ensures
        countdown_n(seq![e], k) == (if k < e.remaining {
            seq![ActiveEvent { event: e.event, remaining: (e.remaining - k) as u32 }]
        } else {
            Seq::<ActiveEvent>::empty()
        }),
{
    lemma_countdown_n(seq![e], k);
    assert(seq![e].drop_last() =~= Seq::<ActiveEvent>::empty());
    assert(outlasting(Seq::<ActiveEvent>::empty(), k) == Seq::<ActiveEvent>::empty());
    if k < e.remaining {
        assert(Seq::<ActiveEvent>::empty().push(
            ActiveEvent { event: e.event, remaining: (e.remaining - k) as u32 },
        ) =~= seq![ActiveEvent { event: e.event, remaining: (e.remaining - k) as u32 }]);
    }
}

/// The events triggered on a tick are exactly the triggered positions, in
/// increasing order, each starting with the full duration of its event.
pub proof fn lemma_newly_active(durations: Seq<u32>, triggered: Seq<bool>)
    requires
        triggered.len() <= usize::MAX,
    ensures
        forall|k: int|
            0 <= k < newly_active(durations, triggered).len() ==> {
                let a = #[trigger] newly_active(durations, triggered)[k];
                &&& a.event < triggered.len()
                &&& triggered[a.event as int]
                &&& a.remaining == durations[a.event as int]
            },
        forall|k1: int, k2: int|
            0 <= k1 < k2 < newly_active(durations, triggered).len() ==> (#[trigger] newly_active(
                durations,
                triggered,
            )[k1]).event < (#[trigger] newly_active(durations, triggered)[k2]).event,
        forall|i: int|
            0 <= i < triggered.len() && #[trigger] triggered[i] ==> exists|k: int|
                0 <= k < newly_active(durations, triggered).len() && newly_active(
                    durations,
                    triggered,
                )[k].event == i,
    decreases triggered.len(),
{
    if triggered.len() > 0 {
        let init = triggered.drop_last();
        let n = triggered.len() - 1;
        lemma_newly_active(durations, init);
        let before = newly_active(durations, init);
        let now = newly_active(durations, triggered);
        if triggered[n] {
            assert(now == before.push(ActiveEvent { event: n as usize, remaining: durations[n] }));
            assert(now[before.len() as int].event == n);
        } else {
            assert(now == before);
        }
        assert forall|k: int| 0 <= k < before.len() implies (#[trigger] before[k]).event < n by {
            assert(before[k].event < init.len());
        }
        assert forall|k: int| 0 <= k < now.len() implies {
            let a = #[trigger] now[k];
            &&& a.event < triggered.len()
            &&& triggered[a.event as int]
            &&& a.remaining == durations[a.event as int]
        } by {
            if k < before.len() {
                assert(now[k] == before[k]);
                assert(init[before[k].event as int] == triggered[before[k].event as int]);
            }
        }
        assert forall|k1: int, k2: int| 0 <= k1 < k2 < now.len() implies (#[trigger] now[k1]).event
            < (#[trigger] now[k2]).event by {
            assert(now[k1] == before[k1]);
            if k2 < before.len() {
                assert(now[k2] == before[k2]);
            }
        }
        assert forall|i: int| 0 <= i < triggered.len() && #[trigger] triggered[i] implies exists|k: int|
            0 <= k < now.len() && now[k].event == i by {
            if i < n {
                assert(init[i] == triggered[i]);
                let k = choose|k: int| 0 <= k < before.len() && before[k].event == i;
                assert(now[k] == before[k]);
            } else {
                assert(now[before.len() as int].event == i);
            }
        }
    }
}

/// What starts on a tick: nothing while an event is in effect; otherwise
/// exactly the triggered events, in the order they were added, each with the
/// full duration of its event.
pub proof fn lemma_started(active: Seq<ActiveEvent>, durations: Seq<u32>, triggered: Seq<bool>)
    requires
        triggered.len() <= usize::MAX,
    ensures
        active.len() > 0 ==> started(active, durations, triggered).len() == 0,
        active.len() == 0 ==> forall|k: int|
            0 <= k < started(active, durations, triggered).len() ==> {
                let a = #[trigger] started(active, durations, triggered)[k];
                &&& a.event < triggered.len()
                &&& triggered[a.event as int]
                &&& a.remaining == durations[a.event as int]
            },
        forall|k1: int, k2: int|
            0 <= k1 < k2 < started(active, durations, triggered).len() ==> (#[trigger] started(
                active,
                durations,
                triggered,
            )[k1]).event < (#[trigger] started(active, durations, triggered)[k2]).event,
        active.len() == 0 ==> forall|i: int|
            0 <= i < triggered.len() && #[trigger] triggered[i] ==> exists|k: int|
                0 <= k < started(active, durations, triggered).len() && started(
                    active,
                    durations,
                    triggered,
                )[k].event == i,
{
    lemma_newly_active(durations, triggered);
    if active.len() == 0 {
        let now = newly_active(durations, triggered);
        assert(started(active, durations, triggered) == now);
        assert forall|i: int| 0 <= i < triggered.len() && #[trigger] triggered[i] implies exists|k: int|
            0 <= k < now.len() && now[k].event == i by {
            let k = choose|k: int| 0 <= k < now.len() && now[k].event == i;
            assert(now[k].event == i);
        }
    }
}

/// The events that can occur, by duration, and those in effect.
pub struct EventSystem {
    durations: Vec<u32>,
    active_events: Vec<ActiveEvent>,
}

impl EventSystem {
    /// The duration, in ticks, of each event, in the order they were added.
    pub closed spec fn durations(&self) -> Seq<u32> {
        self.durations@
    }

    /// The events in effect, in the order they became active.
    pub closed spec fn active(&self) -> Seq<ActiveEvent> {
        self.active_events@
    }

    #[verifier::type_invariant]
    closed spec fn consistent(self) -> bool {
        entries_within(self.durations@, self.active_events@)
    }

    /// An event system with no events.
    pub fn new() -> (r: Self)
        ensures
            r.durations() == Seq::<u32>::empty(),
            r.active() == Seq::<ActiveEvent>::empty(),
            entries_within(r.durations(), r.active()),
    {
        EventSystem { durations: Vec::new(), active_events: Vec::new() }
    }

    /// Adds an event that acts for `duration_ticks` ticks once triggered, and
    /// returns its position.
    pub fn add_event(&mut self, duration_ticks: u32) -> (r: usize)
        ensures
            r == old(self).durations().len(),
            final(self).durations() == old(self).durations().push(duration_ticks),
            final(self).active() == old(self).active(),
            entries_within(final(self).durations(), final(self).active()),
    {
        proof {
            use_type_invariant(&*self);
        }
        let mut taken = EventSystem { durations: Vec::new(), active_events: Vec::new() };
        std::mem::swap(&mut taken, self);
        let EventSystem { mut durations, active_events } = taken;
        let r = durations.len();
        durations.push(duration_ticks);
        proof {
            assert forall|i: int| 0 <= i < active_events@.len() implies durations@[(
            #[trigger] active_events@[i]).event as int] == old(self).durations()[active_events@[
            i].event as int] by {}
        }
        *self = EventSystem { durations, active_events };
        r
    }

    /// Whether no event is in effect, so that events can start on the next tick.
    pub fn is_quiet(&self) -> (r: bool)
        ensures
            r == (self.active().len() == 0),
    {
        self.active_events.len() == 0
    }

    /// The positions of the events in effect, in the order they became active.
    pub fn get_active_events(&self) -> (r: Vec<usize>)
        ensures
            r@ == self.active().map_values(|a: ActiveEvent| a.event),
    {
        let mut out: Vec<usize> = Vec::new();
        let mut i: usize = 0;
        while i < self.active_events.len()
            invariant
                i <= self.active_events.len(),
                out@ == self.active().subrange(0, i as int).map_values(|a: ActiveEvent| a.event),
            decreases self.active_events.len() - i,
        {
            out.push(self.active_events[i].event);
            i = i + 1;
            proof {
                assert(self.active().subrange(0, i as int).map_values(|a: ActiveEvent| a.event)
                    =~= self.active().subrange(0, i - 1).map_values(|a: ActiveEvent| a.event).push(
                    self.active()[i - 1].event,
                ));
            }
        }
        proof {
            assert(self.active().subrange(0, i as int) =~= self.active());
        }
        out
    }

    /// Processes one tick. When no event is in effect, the events for which
    /// `triggered[i]` holds start, in the order they were added, each with its
    /// full duration; while events are in effect no new event starts, and
    /// `triggered` is not read. Every active event then acts on this tick: the
    /// result lists their positions in that order. Then each has one tick
    /// less, and those that had only this tick left are no longer active.
    pub fn process_tick(&mut self, triggered: &Vec<bool>) -> (applied: Vec<usize>)
        requires
            triggered@.len() == old(self).durations().len(),
            old(self).active().len() == 0 ==> forall|i: int|
                0 <= i < triggered@.len() && #[trigger] triggered@[i] ==> old(self).durations()[i]
                    >= 1,
        ensures
            applied@ == (old(self).active() + started(
                old(self).active(),
                old(self).durations(),
                triggered@,
            )).map_values(|a: ActiveEvent| a.event),
            final(self).active() == countdown(
                old(self).active() + started(old(self).active(), old(self).durations(), triggered@),
            ),
            final(self).durations() == old(self).durations(),
            entries_within(final(self).durations(), final(self).active()),
    {
        proof {
            use_type_invariant(&*self);
        }
        let ghost durs = self.durations@;
        let mut taken = EventSystem { durations: Vec::new(), active_events: Vec::new() };
        std::mem::swap(&mut taken, self);
        let EventSystem { durations, mut active_events } = taken;
        let ghost before = active_events@;
        let quiet = active_events.len() == 0;
        let mut i: usize = 0;
        while quiet && i < triggered.len()
            invariant
                quiet == (before.len() == 0),
                i <= triggered.len(),
                triggered@.len() == durations@.len(),
                durations@ == durs,
                quiet ==> forall|j: int|
                    0 <= j < triggered@.len() && #[trigger] triggered@[j] ==> durs[j] >= 1,
                !quiet ==> i == 0,
                active_events@ == before + newly_active(durs, triggered@.subrange(0, i as int)),
                entries_within(durs, active_events@),
            decreases triggered.len() - i,
        {
            proof {
                assert(triggered@.subrange(0, i + 1).drop_last() =~= triggered@.subrange(
                    0,
                    i as int,
                ));
                assert(triggered@.subrange(0, i + 1).last() == triggered@[i as int]);
            }
            if triggered[i] {
                active_events.push(ActiveEvent { event: i, remaining: durations[i] });
            }
            i = i + 1;
        }
        proof {
            if quiet {
                assert(triggered@.subrange(0, triggered@.len() as int) =~= triggered@);
            } else {
                assert(triggered@.subrange(0, 0) =~= Seq::<bool>::empty());
                assert(before + Seq::<ActiveEvent>::empty() =~= before);
            }
        }
        let ghost joined = active_events@;
        let mut applied: Vec<usize> = Vec::new();
        let mut kept: Vec<ActiveEvent> = Vec::new();
        let mut k: usize = 0;
        while k < active_events.len()
            invariant
                k <= active_events.len(),
                active_events@ == joined,
                entries_within(durs, joined),
                applied@ == joined.subrange(0, k as int).map_values(|a: ActiveEvent| a.event),
                kept@ == countdown(joined.subrange(0, k as int)),
                entries_within(durs, kept@),
            decreases active_events.len() - k,
        {
            let a = active_events[k];
            applied.push(a.event);
            if a.remaining > 1 {
                kept.push(ActiveEvent { event: a.event, remaining: a.remaining - 1 });
            }
            k = k + 1;
            proof {
                let prefix = joined.subrange(0, k as int);
                assert(prefix.drop_last() =~= joined.subrange(0, k - 1));
                assert(prefix.last() == a);
                assert(prefix.map_values(|a: ActiveEvent| a.event) =~= joined.subrange(
                    0,
                    k - 1,
                ).map_values(|a: ActiveEvent| a.event).push(a.event));
            }
        }
        proof {
            assert(joined.subrange(0, joined.len() as int) =~= joined);
        }
        *self = EventSystem { durations, active_events: kept };
        applied
    }
}

} // verus!
