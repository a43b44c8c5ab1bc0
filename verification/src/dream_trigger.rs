//! When memories are made of the history: after the user has been away, or when
//! the context has grown long.
use crate::history::{events, EventView, HistoryEvent};
use vstd::prelude::*;

verus! {

/// Why memories are made.
#[derive(Debug, Clone, Copy, PartialEq, Eq, Structural)]
pub enum TriggerReason {
    Idle,
    ContextLen,
}

/// What decides whether memories are made: when the user was last active, up to
/// which event memories were made, whether they are being made, and whether the
/// user has been active at all.
#[derive(Debug, Clone, Copy, PartialEq, Eq, Structural)]
pub struct DreamTrigger {
    pub last_user_activity: u64,
    pub last_dream_marker_seq: u64,
    pub in_flight: bool,
    pub armed: bool,
}

/// The marker of memories that were made.
pub open spec fn is_dream_marker(e: EventView) -> bool {
    e.kind == "marker"@ && e.body().str_at("marker"@) == Some("dream"@)
}

/// The highest number of such a marker, 0 without any.
pub open spec fn last_dream(evs: Seq<EventView>) -> u64
    decreases evs.len(),
{
    if evs.len() == 0 {
        0
    } else {
        let head = last_dream(evs.drop_last());
        if is_dream_marker(evs.last()) && evs.last().seq > head {
            evs.last().seq
        } else {
            head
        }
    }
}

/// An event of which memories can be made.
pub open spec fn is_new(t: DreamTrigger, e: EventView) -> bool {
    &&& e.is_main()
    &&& e.kind != "marker"@
    &&& t.last_dream_marker_seq == 0 || e.seq > t.last_dream_marker_seq
}

/// There is an event of which memories can be made.
pub open spec fn has_new(t: DreamTrigger, evs: Seq<EventView>) -> bool {
    exists|i: int| 0 <= i < evs.len() && is_new(t, #[trigger] evs[i])
}

/// Memories can be made: the user has been active, none are being made, and there
/// is something new.
pub open spec fn is_open(t: DreamTrigger, evs: Seq<EventView>) -> bool {
    t.armed && !t.in_flight && has_new(t, evs)
}

/// The tokens that an event's usage counts for its prompt.
pub open spec fn prompt_tokens(e: EventView) -> u64 {
    match e.body().get("usage"@) {
        Some(u) => match u.u64_at("prompt_tokens"@) {
            Some(n) => n,
            None => 0,
        },
        None => 0,
    }
}

/// The tokens of the prompt of the last answer in the main conversation.
pub open spec fn context_tokens(evs: Seq<EventView>) -> u64
    decreases evs.len(),
{
    if evs.len() == 0 {
        0
    } else if evs.last().kind == "assistant"@ && evs.last().is_main() {
        prompt_tokens(evs.last())
    } else {
        context_tokens(evs.drop_last())
    }
}

/// How long the user has been away, in milliseconds.
pub open spec fn idle_ms(t: DreamTrigger, now: u64) -> int {
    if now >= t.last_user_activity {
        now - t.last_user_activity
    } else {
        0
    }
}

/// Why memories are to be made now. That the user is away comes first.
pub open spec fn due(
    t: DreamTrigger,
    evs: Seq<EventView>,
    now: u64,
    idle_secs: u64,
    trigger_tokens: u64,
) -> Option<TriggerReason> {
    if !is_open(t, evs) {
        None
    } else if idle_ms(t, now) >= idle_secs * 1000 {
        Some(TriggerReason::Idle)
    } else if context_tokens(evs) >= trigger_tokens {
        Some(TriggerReason::ContextLen)
    } else {
        None
    }
}

/// Why memories are to be made when they are asked for.
pub open spec fn due_when_asked(t: DreamTrigger, evs: Seq<EventView>) -> Option<TriggerReason> {
    if is_open(t, evs) {
        Some(TriggerReason::ContextLen)
    } else {
        None
    }
}

/// The trigger after the user was active.
pub open spec fn after_activity(t: DreamTrigger, ts: u64) -> DreamTrigger {
    DreamTrigger {
        armed: true,
        last_user_activity: if ts > t.last_user_activity {
            ts
        } else {
            t.last_user_activity
        },
        ..t
    }
}

/// The trigger once memories are being made, up to an event.
pub open spec fn after_start(t: DreamTrigger, marker_seq: u64) -> DreamTrigger {
    DreamTrigger { in_flight: true, last_dream_marker_seq: marker_seq, ..t }
}

/// The trigger once memories are no longer being made.
pub open spec fn after_finish(t: DreamTrigger) -> DreamTrigger {
    DreamTrigger { in_flight: false, ..t }
}

/// The trigger with what the history says of the memories that were made.
pub open spec fn seeded(t: DreamTrigger, evs: Seq<EventView>) -> DreamTrigger {
    DreamTrigger { last_dream_marker_seq: last_dream(evs), ..t }
}

/// The tokens of the prompt of the last answer in the main conversation, 0
/// without any.
pub fn recent_prompt_tokens(evs: &[HistoryEvent]) -> (r: u64)
    ensures
        r == context_tokens(events(evs@)),
{
    let ghost all = events(evs@);
    let mut i: usize = evs.len();
    assert(all.take(i as int) =~= all);
    while i > 0
        invariant
            all == events(evs@),
            i <= evs@.len(),
            context_tokens(all.take(i as int)) == context_tokens(all),
        decreases i,
    {
        let e = &evs[i - 1];
        proof {
            let t = all.take(i as int);
            assert(t.last() == e@);
            assert(t.drop_last() =~= all.take(i - 1));
        }
        if e.is_kind("assistant") && e.is_main() {
            return match e.data.get("usage") {
                Some(u) => match u.u64_at("prompt_tokens") {
                    Some(n) => n,
                    None => 0,
                },
                None => 0,
            };
        }
        i = i - 1;
    }
    0
}

/// Up to which event the last memories were made, by the last such marker that says
/// so. A conversation that starts over starts behind it.
pub open spec fn dreamt_until(evs: Seq<EventView>) -> Option<u64>
    decreases evs.len(),
{
    if evs.len() == 0 {
        None
    } else if is_dream_marker(evs.last()) && evs.last().body().u64_at("until_seq"@) is Some {
        evs.last().body().u64_at("until_seq"@)
    } else {
        dreamt_until(evs.drop_last())
    }
}

/// Up to which event the last memories were made.
pub fn dream_end(evs: &[HistoryEvent]) -> (r: Option<u64>)
    ensures
        r == dreamt_until(events(evs@)),
{
    let ghost all = events(evs@);
    let mut i: usize = evs.len();
    assert(all.take(i as int) =~= all);
    while i > 0
        invariant
            all == events(evs@),
            i <= evs@.len(),
            dreamt_until(all.take(i as int)) == dreamt_until(all),
        decreases i,
    {
        let e = &evs[i - 1];
        proof {
            let t = all.take(i as int);
            assert(t.last() == e@);
            assert(t.drop_last() =~= all.take(i - 1));
        }
        if e.is_kind("marker") {
            if let Some(m) = e.str_at("marker") {
                if crate::text::str_eq(m, "dream") {
                    let until = e.u64_at("until_seq");
                    if until.is_some() {
                        return until;
                    }
                }
            }
        }
        i = i - 1;
    }
    None
}

impl DreamTrigger {
    /// Nothing has happened yet.
    pub fn new() -> (r: DreamTrigger)
        ensures
            r == (DreamTrigger {
                last_user_activity: 0,
                last_dream_marker_seq: 0,
                in_flight: false,
                armed: false,
            }),
    {
        DreamTrigger {
            last_user_activity: 0,
            last_dream_marker_seq: 0,
            in_flight: false,
            armed: false,
        }
    }

    /// Notes that the user is active.
    pub fn note_activity(&mut self, ts: u64)
        ensures
            *final(self) == after_activity(*old(self), ts),
    {
        self.armed = true;
        if ts > self.last_user_activity {
            self.last_user_activity = ts;
        }
    }

    /// Takes up to which event memories were made from the history.
    pub fn seed_from_history(&mut self, evs: &[HistoryEvent])
        ensures
            *final(self) == seeded(*old(self), events(evs@)),
    {
        let ghost all = events(evs@);
        let mut last: u64 = 0;
        let mut i: usize = 0;
        while i < evs.len()
            invariant
                all == events(evs@),
                i <= evs@.len(),
                last == last_dream(all.take(i as int)),
            decreases evs@.len() - i,
        {
            let e = &evs[i];
            proof {
                let t = all.take(i + 1);
                assert(t.drop_last() =~= all.take(i as int));
                assert(t.last() == e@);
            }
            if e.is_kind("marker") {
                if let Some(m) = e.str_at("marker") {
                    if crate::text::str_eq(m, "dream") && e.seq > last {
                        last = e.seq;
                    }
                }
            }
            i = i + 1;
        }
        assert(all.take(i as int) =~= all);
        self.last_dream_marker_seq = last;
    }

    /// Notes that memories are being made, up to an event.
    pub fn dream_started(&mut self, marker_seq: u64)
        ensures
            *final(self) == after_start(*old(self), marker_seq),
    {
        self.in_flight = true;
        self.last_dream_marker_seq = marker_seq;
    }

    /// Notes that memories are no longer being made.
    pub fn dream_finished(&mut self)
        ensures
            *final(self) == after_finish(*old(self)),
    {
        self.in_flight = false;
    }

    /// Whether memories can be made.
    pub fn gate(&self, evs: &[HistoryEvent]) -> (r: Option<()>)
        ensures
            r is Some <==> is_open(*self, events(evs@)),
    {
        if !self.armed || self.in_flight {
            return None;
        }
        let ghost all = events(evs@);
        let mut i: usize = 0;
        while i < evs.len()
            invariant
                self.armed,
                !self.in_flight,
                all == events(evs@),
                i <= evs@.len(),
                forall|k: int| 0 <= k < i ==> !is_new(*self, #[trigger] all[k]),
            decreases evs@.len() - i,
        {
            let e = &evs[i];
            assert(all[i as int] == e@);
            if e.is_main() && !e.is_kind("marker") && (self.last_dream_marker_seq == 0 || e.seq
                > self.last_dream_marker_seq) {
                assert(is_new(*self, all[i as int]));
                return Some(());
            }
            i = i + 1;
        }
        None
    }

    /// Why memories are to be made now, if they are.
    pub fn check(&self, evs: &[HistoryEvent], now: u64, idle_secs: u64, trigger_tokens: u64) -> (r:
        Option<TriggerReason>)
        requires
            is_open(*self, events(evs@)) ==> idle_secs * 1000 <= u64::MAX,
        ensures
            r == due(*self, events(evs@), now, idle_secs, trigger_tokens),
    {
        if self.gate(evs).is_none() {
            return None;
        }
        if now.saturating_sub(self.last_user_activity) >= idle_secs * 1000 {
            return Some(TriggerReason::Idle);
        }
        if recent_prompt_tokens(evs) >= trigger_tokens {
            return Some(TriggerReason::ContextLen);
        }
        None
    }

    /// Whether memories are to be made when they are asked for: as soon as they
    /// can be, and as for a long context.
    pub fn check_forced(&self, evs: &[HistoryEvent]) -> (r: Option<TriggerReason>)
        ensures
            r == due_when_asked(*self, events(evs@)),
    {
        match self.gate(evs) {
            Some(_) => Some(TriggerReason::ContextLen),
            None => None,
        }
    }
}

impl Default for DreamTrigger {
    fn default() -> (r: DreamTrigger)
        ensures
            r == (DreamTrigger {
                last_user_activity: 0,
                last_dream_marker_seq: 0,
                in_flight: false,
                armed: false,
            }),
    {
        DreamTrigger::new()
    }
}

/// Begins to make memories, unless they are being made: gives the first event
/// that they are made of.
pub fn prepare_dream(trigger: &mut DreamTrigger) -> (r: Option<u64>)
    requires
        old(trigger).in_flight || old(trigger).last_dream_marker_seq < u64::MAX,
    ensures
        r is Some <==> !old(trigger).in_flight,
        r matches Some(a) ==> a == old(trigger).last_dream_marker_seq + 1,
        *final(trigger) == (DreamTrigger { in_flight: true, ..*old(trigger) }),
{
    if trigger.in_flight {
        return None;
    }
    let a: u64 = trigger.last_dream_marker_seq + 1;
    trigger.in_flight = true;
    Some(a)
}

/// While memories are being made, none are begun: neither by time nor by hand.
pub proof fn lemma_single_flight(
    t: DreamTrigger,
    evs: Seq<EventView>,
    now: u64,
    idle_secs: u64,
    trigger_tokens: u64,
)
    requires
        t.in_flight,
    ensures
        !is_open(t, evs),
        due(t, evs, now, idle_secs, trigger_tokens) is None,
{
}

/// Before the user is active, no memories are made.
pub proof fn lemma_not_armed(
    t: DreamTrigger,
    evs: Seq<EventView>,
    now: u64,
    idle_secs: u64,
    trigger_tokens: u64,
)
    requires
        !t.armed,
    ensures
        !is_open(t, evs),
        due(t, evs, now, idle_secs, trigger_tokens) is None,
{
}

/// The marker that is taken from the history is one of its markers, and none has
/// a higher number.
pub proof fn lemma_last_dream(evs: Seq<EventView>)
    ensures
        forall|i: int|
            0 <= i < evs.len() && is_dream_marker(#[trigger] evs[i]) ==> evs[i].seq <= last_dream(
                evs,
            ),
        last_dream(evs) > 0 ==> exists|i: int|
            0 <= i < evs.len() && is_dream_marker(#[trigger] evs[i]) && evs[i].seq == last_dream(
                evs,
            ),
    decreases evs.len(),
{
    if evs.len() > 0 {
        let t = evs.drop_last();
        lemma_last_dream(t);
        assert forall|i: int| 0 <= i < evs.len() && is_dream_marker(#[trigger] evs[i]) implies
            evs[i].seq <= last_dream(evs) by {
            if i < t.len() {
                assert(t[i] == evs[i]);
            }
        }
        if last_dream(evs) > 0 {
            if is_dream_marker(evs.last()) && evs.last().seq > last_dream(t) {
                assert(evs[evs.len() - 1] == evs.last());
            } else {
                let i = choose|i: int|
                    0 <= i < t.len() && is_dream_marker(#[trigger] t[i]) && t[i].seq == last_dream(t);
                assert(evs[i] == t[i]);
            }
        }
    }
}

/// Once memories were made of everything, there is nothing new.
pub proof fn lemma_nothing_new(t: DreamTrigger, evs: Seq<EventView>)
    requires
        t.last_dream_marker_seq > 0,
        forall|i: int|
            0 <= i < evs.len() && (#[trigger] evs[i]).kind != "marker"@ ==> evs[i].seq
                <= t.last_dream_marker_seq,
    ensures
        !is_open(t, evs),
{
}

} // verus!
