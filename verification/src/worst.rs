//! The longest events, ranked.

use vstd::prelude::*;

verus! {

/// How many events the ranking keeps.
pub const WORST_EVENTS_CAP: usize = 50;

/// An event in the ranking of the longest, with the wall-clock time at which it was recorded.
pub struct WorstEvent {
    pub wall_time_ms: u64,
    pub duration_ns: u64,
    pub cpu_id: u32,
    pub victim_pid: u32,
    pub aggressor_pid: u32,
    pub victim_comm: String,
    pub aggressor_comm: String,
}

/// What a ranked event says, with its task names as character sequences.
pub struct WorstView {
    pub wall_time_ms: u64,
    pub duration_ns: u64,
    pub cpu_id: u32,
    pub victim_pid: u32,
    pub aggressor_pid: u32,
    pub victim_comm: Seq<char>,
    pub aggressor_comm: Seq<char>,
}

impl View for WorstEvent {
    type V = WorstView;

    open spec fn view(&self) -> WorstView {
        WorstView {
            wall_time_ms: self.wall_time_ms,
            duration_ns: self.duration_ns,
            cpu_id: self.cpu_id,
            victim_pid: self.victim_pid,
            aggressor_pid: self.aggressor_pid,
            victim_comm: self.victim_comm@,
            aggressor_comm: self.aggressor_comm@,
        }
    }
}

/// The longest come first.
pub open spec fn descending(events: Seq<WorstView>) -> bool {
    forall|i: int, j: int|
        0 <= i <= j < events.len() ==> (#[trigger] events[i]).duration_ns >= (
        #[trigger] events[j]).duration_ns
}

/// Where an event of this duration goes: behind the last that is at least as long.
pub open spec fn place(events: Seq<WorstView>, duration_ns: u64) -> int
    decreases events.len(),
{
    if events.len() == 0 || events.last().duration_ns >= duration_ns {
        events.len() as int
    } else {
        place(events.drop_last(), duration_ns)
    }
}

/// The events with one more at its place.
pub open spec fn inserted(events: Seq<WorstView>, w: WorstView) -> Seq<WorstView> {
    events.insert(place(events, w.duration_ns), w)
}

/// As many of the events as the ranking keeps.
pub open spec fn capped(events: Seq<WorstView>) -> Seq<WorstView> {
    if events.len() > WORST_EVENTS_CAP {
        events.take(WORST_EVENTS_CAP as int)
    } else {
        events
    }
}

/// The events recorded at `cutoff_ms` or later.
pub open spec fn since(events: Seq<WorstView>, cutoff_ms: u64) -> Seq<WorstView> {
    events.filter(|w: WorstView| w.wall_time_ms >= cutoff_ms)
}

/// What `place` finds: everything before is at least as long, in descending order everything
/// behind is shorter.
pub proof fn lemma_place(events: Seq<WorstView>, duration_ns: u64)
    requires
        descending(events),
    ensures
        0 <= place(events, duration_ns) <= events.len(),
        forall|i: int|
            0 <= i < place(events, duration_ns) ==> (#[trigger] events[i]).duration_ns
                >= duration_ns,
        forall|i: int|
            place(events, duration_ns) <= i < events.len() ==> (#[trigger] events[i]).duration_ns
                < duration_ns,
    decreases events.len(),
{
    if events.len() > 0 && events.last().duration_ns < duration_ns {
        let front = events.drop_last();
        lemma_place(front, duration_ns);
        assert forall|i: int| 0 <= i < place(events, duration_ns) implies (
        #[trigger] events[i]).duration_ns >= duration_ns by {
            assert(front[i] == events[i]);
        }
        assert forall|i: int| place(events, duration_ns) <= i < events.len() implies (
        #[trigger] events[i]).duration_ns < duration_ns by {
            if i < front.len() {
                assert(front[i] == events[i]);
            }
        }
    }
}

/// There is one such place only.
pub proof fn lemma_place_unique(events: Seq<WorstView>, duration_ns: u64, p: int)
    requires
        descending(events),
        0 <= p <= events.len(),
        p > 0 ==> events[p - 1].duration_ns >= duration_ns,
        p < events.len() ==> events[p].duration_ns < duration_ns,
    ensures
        place(events, duration_ns) == p,
{
    lemma_place(events, duration_ns);
    let q = place(events, duration_ns);
    if q < p {
        assert(events[p - 1].duration_ns < duration_ns);
    }
    if p < q {
        assert(events[p].duration_ns >= duration_ns);
    }
}

/// The insertion keeps the order.
pub proof fn lemma_inserted_descending(events: Seq<WorstView>, w: WorstView)
    requires
        descending(events),
    ensures
        descending(inserted(events, w)),
{
    lemma_place(events, w.duration_ns);
    let p = place(events, w.duration_ns);
    let after = inserted(events, w);
    assert forall|i: int, j: int| 0 <= i <= j < after.len() implies (
    #[trigger] after[i]).duration_ns >= (#[trigger] after[j]).duration_ns by {
        let a = if i < p { i } else { i - 1 };
        let b = if j < p { j } else { j - 1 };
        if i != p {
            assert(after[i] == events[a]);
        }
        if j != p {
            assert(after[j] == events[b]);
        }
    }
}

/// Leaving events out keeps the order.
pub proof fn lemma_filter_descending(events: Seq<WorstView>, keep: spec_fn(WorstView) -> bool)
    requires
        descending(events),
    ensures
        descending(events.filter(keep)),
        events.filter(keep).len() <= events.len(),
        forall|i: int|
            0 <= i < events.filter(keep).len() ==> events.contains(#[trigger] events.filter(keep)[i]),
        forall|i: int|
            0 <= i < events.filter(keep).len() ==> keep(#[trigger] events.filter(keep)[i]),
    decreases events.len(),
{
    reveal(Seq::filter);
    if events.len() > 0 {
        let front = events.drop_last();
        lemma_filter_descending(front, keep);
        let kept = front.filter(keep);
        assert forall|i: int| 0 <= i < kept.len() implies (#[trigger] kept[i]).duration_ns
            >= events.last().duration_ns && events.contains(kept[i]) by {
            let k = choose|k: int| 0 <= k < front.len() && front[k] == kept[i];
            assert(events[k] == kept[i]);
        }
        assert(events.contains(events[events.len() - 1]));
    }
}

/// The ranking of the longest events.
pub struct WorstList {
    events: Vec<WorstEvent>,
}

impl View for WorstList {
    type V = Seq<WorstView>;

    closed spec fn view(&self) -> Seq<WorstView> {
        self.events@.map_values(|w: WorstEvent| w@)
    }
}

impl WorstList {
    /// Ranked, and no more than the ranking keeps.
    pub open spec fn wf(self) -> bool {
        descending(self@) && self@.len() <= WORST_EVENTS_CAP
    }

    /// A ranking without events.
    pub fn new() -> (list: WorstList)
        ensures
            list.wf(),
            list@ == Seq::<WorstView>::empty(),
    {
        let list = WorstList { events: Vec::new() };
        assert(list@ =~= Seq::<WorstView>::empty());
        list
    }

    /// The ranked events, longest first.
    pub fn events(&self) -> (events: &Vec<WorstEvent>)
        ensures
            events@.len() == self@.len(),
            forall|i: int| 0 <= i < events@.len() ==> (#[trigger] events@[i])@ == self@[i],
    {
        &self.events
    }

    /// Ranks an event, behind those at least as long. Once the ranking is full, the shortest
    /// gives way, or the event is not taken up.
    pub fn rank(&mut self, w: WorstEvent)
        requires
            old(self).wf(),
        ensures
            final(self).wf(),
            final(self)@ == capped(inserted(old(self)@, w@)),
    {
        let ghost before = self@;
        let ghost entry = w@;
        let len: usize = self.events.len();
        proof {
            lemma_inserted_descending(before, entry);
        }
        if len < WORST_EVENTS_CAP || w.duration_ns > self.events[len - 1].duration_ns {
            let mut p: usize = len;
            while p > 0 && self.events[p - 1].duration_ns < w.duration_ns
                invariant
                    p <= len,
                    len == self.events@.len(),
                    self@ == before,
                    p < len ==> self.events@[p as int].duration_ns < w.duration_ns,
                decreases p,
            {
                p -= 1;
            }
            proof {
                lemma_place_unique(before, entry.duration_ns, p as int);
            }
            self.events.insert(p, w);
            self.events.truncate(WORST_EVENTS_CAP);
            assert(self@ =~= capped(inserted(before, entry)));
        } else {
            proof {
                lemma_place_unique(before, entry.duration_ns, len as int);
                assert(before =~= capped(inserted(before, entry)));
            }
        }
    }

    /// Drops the events recorded before `cutoff_ms`.
    pub fn expire(&mut self, cutoff_ms: u64)
        requires
            old(self).wf(),
        ensures
            final(self).wf(),
            final(self)@ == since(old(self)@, cutoff_ms),
    {
        let ghost before = self@;
        let ghost keep = |w: WorstView| w.wall_time_ms >= cutoff_ms;
        let total: usize = self.events.len();
        let mut seen: usize = 0;
        let mut i: usize = 0;
        proof {
            lemma_filter_descending(before, keep);
            assert(before.take(0).filter(keep) =~= Seq::<WorstView>::empty());
            assert(self@ =~= before.take(0).filter(keep) + before.skip(0));
        }
        while seen < total
            invariant
                seen <= total == before.len(),
                keep == (|w: WorstView| w.wall_time_ms >= cutoff_ms),
                i == before.take(seen as int).filter(keep).len(),
                self@ == before.take(seen as int).filter(keep) + before.skip(seen as int),
            decreases total - seen,
        {
            let ghost kept = before.take(seen as int).filter(keep);
            let ghost current = self@;
            proof {
                before.take(seen as int).lemma_filter_push(before[seen as int], keep);
                assert(before.take(seen as int).push(before[seen as int]) =~= before.take(
                    seen + 1,
                ));
                assert(current.len() == kept.len() + (total - seen));
                assert(current.len() == self.events@.len());
                assert(current[i as int] == before.skip(seen as int)[0]);
                assert(self.events@[i as int]@ == current[i as int]);
            }
            if self.events[i].wall_time_ms >= cutoff_ms {
                i += 1;
                assert(self@ =~= before.take(seen + 1).filter(keep) + before.skip(seen + 1));
            } else {
                self.events.remove(i);
                assert(self@ =~= current.remove(i as int));
                assert(self@ =~= before.take(seen + 1).filter(keep) + before.skip(seen + 1));
            }
            seen += 1;
        }
        proof {
            assert(before.take(total as int) =~= before);
            assert(self@ =~= since(before, cutoff_ms));
        }
    }
}

/// The ranking of these events without a limit.
pub open spec fn ranking(trace: Seq<WorstView>) -> Seq<WorstView>
    decreases trace.len(),
{
    if trace.len() == 0 {
        Seq::empty()
    } else {
        inserted(ranking(trace.drop_last()), trace.last())
    }
}

/// The ranking after these events have been ranked in turn.
pub open spec fn ranked_all(trace: Seq<WorstView>) -> Seq<WorstView>
    decreases trace.len(),
{
    if trace.len() == 0 {
        Seq::empty()
    } else {
        capped(inserted(ranked_all(trace.drop_last()), trace.last()))
    }
}

/// The events of one duration.
pub open spec fn of_duration(events: Seq<WorstView>, duration_ns: u64) -> Seq<WorstView> {
    events.filter(|w: WorstView| w.duration_ns == duration_ns)
}

/// Filtering away everything leaves nothing.
proof fn lemma_filter_none(events: Seq<WorstView>, keep: spec_fn(WorstView) -> bool)
    requires
        forall|i: int| 0 <= i < events.len() ==> !keep(#[trigger] events[i]),
    ensures
        events.filter(keep) == Seq::<WorstView>::empty(),
    decreases events.len(),
{
    reveal(Seq::filter);
    if events.len() > 0 {
        lemma_filter_none(events.drop_last(), keep);
    }
}

/// The unlimited ranking is the stable sort of the events by duration, longest first: it holds the
/// same events, in descending order, and events of one duration in the order of their arrival.
pub proof fn law_ranking_is_stable_sort(trace: Seq<WorstView>)
    ensures
        descending(ranking(trace)),
        ranking(trace).to_multiset() == trace.to_multiset(),
        forall|ns: u64| #[trigger] of_duration(ranking(trace), ns) == of_duration(trace, ns),
    decreases trace.len(),
{
    if trace.len() == 0 {
        assert(trace =~= Seq::<WorstView>::empty());
    } else {
        let front = trace.drop_last();
        let w = trace.last();
        law_ranking_is_stable_sort(front);
        let before = ranking(front);
        let p = place(before, w.duration_ns);
        lemma_inserted_descending(before, w);
        lemma_place(before, w.duration_ns);
        assert(front.push(w) =~= trace);
        vstd::seq_lib::to_multiset_build(front, w);
        vstd::seq_lib::to_multiset_insert(before, p, w);
        assert forall|ns: u64| #[trigger]
            of_duration(ranking(trace), ns) == of_duration(trace, ns) by {
            let keep = |w: WorstView| w.duration_ns == ns;
            let a = before.take(p);
            let b = before.skip(p);
            assert(before =~= a + b);
            assert(ranking(trace) =~= a.push(w) + b);
            Seq::filter_distributes_over_add(a, b, keep);
            Seq::filter_distributes_over_add(a.push(w), b, keep);
            a.lemma_filter_push(w, keep);
            front.lemma_filter_push(w, keep);
            assert(of_duration(before, ns) == of_duration(front, ns));
            if w.duration_ns == ns {
                lemma_filter_none(b, keep);
            }
            assert(of_duration(ranking(trace), ns) =~= of_duration(trace, ns));
        }
    }
}

/// As long as no event expires, the ranking holds the longest events recorded: its contents are
/// the front of the unlimited ranking.
pub proof fn law_ranked_are_the_longest(trace: Seq<WorstView>)
    ensures
        ranked_all(trace) == capped(ranking(trace)),
    decreases trace.len(),
{
    if trace.len() > 0 {
        let front = trace.drop_last();
        let w = trace.last();
        law_ranked_are_the_longest(front);
        law_ranking_is_stable_sort(front);
        let all = ranking(front);
        let top = capped(all);
        lemma_place(all, w.duration_ns);
        let p = place(all, w.duration_ns);
        if all.len() > WORST_EVENTS_CAP {
            let q = if p < WORST_EVENTS_CAP {
                p
            } else {
                WORST_EVENTS_CAP as int
            };
            lemma_place_unique(top, w.duration_ns, q);
        }
        assert(capped(inserted(top, w)) =~= capped(inserted(all, w)));
    }
}

/// An event is ranked behind those at least as long and before the shorter ones, which move back by
/// one; only fifty stay.
pub proof fn law_event_is_ranked_by_its_duration(list: &mut WorstList, w: WorstEvent, p: int)
    requires
        old(list).wf(),
        call_ensures(WorstList::rank, (list, w), ()),
        0 <= p <= old(list)@.len(),
        forall|i: int|
            0 <= i < p ==> (#[trigger] old(list)@[i]).duration_ns >= w.duration_ns,
        forall|i: int|
            p <= i < old(list)@.len() ==> (#[trigger] old(list)@[i]).duration_ns < w.duration_ns,
    ensures
        final(list).wf(),
        final(list)@.len() == if old(list)@.len() < 50 {
            old(list)@.len() + 1
        } else {
            50
        },
        forall|i: int| 0 <= i < p && i < 50 ==> #[trigger] final(list)@[i] == old(list)@[i],
        forall|i: int|
            p < i < final(list)@.len() ==> #[trigger] final(list)@[i] == old(list)@[i - 1],
        p < 50 ==> {
            &&& final(list)@[p].wall_time_ms == w.wall_time_ms
            &&& final(list)@[p].duration_ns == w.duration_ns
            &&& final(list)@[p].cpu_id == w.cpu_id
            &&& final(list)@[p].victim_pid == w.victim_pid
            &&& final(list)@[p].aggressor_pid == w.aggressor_pid
            &&& final(list)@[p].victim_comm == w.victim_comm@
            &&& final(list)@[p].aggressor_comm == w.aggressor_comm@
        },
{
    lemma_place_unique(old(list)@, w.duration_ns, p);
}

/// Expiry leaves exactly the events recorded since the cutoff, in their order.
pub proof fn law_expiry_leaves_what_is_recent(list: &mut WorstList, cutoff_ms: u64)
    requires
        old(list).wf(),
        call_ensures(WorstList::expire, (list, cutoff_ms), ()),
    ensures
        final(list).wf(),
        final(list)@ == old(list)@.filter(|w: WorstView| w.wall_time_ms >= cutoff_ms),
{
}

/// A new ranking is empty, and a ranking lists its events in order with all their fields.
pub proof fn law_ranking_lists_its_events(
    fresh: WorstList,
    list: WorstList,
    events: Vec<WorstEvent>,
    i: int,
)
    requires
        call_ensures(WorstList::new, (), fresh),
        call_ensures(WorstList::events, (&list,), &events),
        0 <= i < events@.len(),
    ensures
        fresh.wf(),
        fresh@.len() == 0,
        events@.len() == list@.len(),
        events@[i].wall_time_ms == list@[i].wall_time_ms,
        events@[i].duration_ns == list@[i].duration_ns,
        events@[i].cpu_id == list@[i].cpu_id,
        events@[i].victim_pid == list@[i].victim_pid,
        events@[i].aggressor_pid == list@[i].aggressor_pid,
        events@[i].victim_comm@ == list@[i].victim_comm,
        events@[i].aggressor_comm@ == list@[i].aggressor_comm,
{
    assert(events@[i]@ == list@[i]);
}

/// What a ranking keeps of more events than it has room for are the first fifty.
pub proof fn law_the_first_fifty_are_kept(events: Seq<WorstView>, i: int)
    requires
        0 <= i < capped(events).len(),
    ensures
        capped(events).len() == if events.len() < 50 {
            events.len()
        } else {
            50
        },
        capped(events)[i] == events[i],
{
}

} // verus!
