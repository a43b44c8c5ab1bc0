//! When memories are made: exactly when something new was said, the user has been
//! there, and none are being made; and then by time, by length or by hand.
use super::{holds, says};
use crate::dream_trigger::{
    after_activity, after_finish, after_start, context_tokens, dreamt_until, due, due_when_asked,
    is_new, last_dream, lemma_last_dream, seeded, DreamTrigger, TriggerReason,
};
use crate::history::EventView;
use crate::json::JsonView;
use vstd::prelude::*;

verus! {

/// Something that was said in the main conversation behind the last memories.
pub open spec fn is_said_since(t: DreamTrigger, e: EventView) -> bool {
    &&& e.thread == "main"@
    &&& e.kind != "marker"@
    &&& e.seq > t.last_dream_marker_seq || t.last_dream_marker_seq == 0
}

/// When the user has been there, no memories are being made, and something was said
/// behind the last ones, then memories are made: at once when they are asked for, and
/// by themselves once the user has been away for long enough.
pub proof fn lemma_new_is_dreamt(
    t: DreamTrigger,
    evs: Seq<EventView>,
    i: int,
    now: u64,
    idle_secs: u64,
    trigger_tokens: u64,
)
    requires
        t.armed,
        !t.in_flight,
        0 <= i < evs.len(),
        evs[i].thread == "main"@,
        evs[i].kind != "marker"@,
        evs[i].seq > t.last_dream_marker_seq,
    ensures
        due_when_asked(t, evs) is Some,
        now >= t.last_user_activity + idle_secs * 1000 ==> due(
            t,
            evs,
            now,
            idle_secs,
            trigger_tokens,
        ) == Some(TriggerReason::Idle),
{
    assert(is_new(t, evs[i]));
    assert(idle_secs * 1000 >= 0);
}

/// Memories are made of nothing but what was said since: where nothing was, where the
/// user has not been there or where they are being made, none are, however long the
/// user is away and however long the context is.
pub proof fn lemma_only_new_is_dreamt(
    t: DreamTrigger,
    evs: Seq<EventView>,
    now: u64,
    idle_secs: u64,
    trigger_tokens: u64,
)
    requires
        due_when_asked(t, evs) is Some || due(t, evs, now, idle_secs, trigger_tokens) is Some,
    ensures
        t.armed,
        !t.in_flight,
        exists|i: int| 0 <= i < evs.len() && is_said_since(t, #[trigger] evs[i]),
{
    let i: int = choose|i: int| 0 <= i < evs.len() && is_new(t, #[trigger] evs[i]);
    assert(is_said_since(t, evs[i]));
}

/// Before the user has been away for long enough, memories are made of something new
/// exactly when the last answer's prompt had at least so many tokens.
pub proof fn lemma_long_context_is_dreamt(
    t: DreamTrigger,
    evs: Seq<EventView>,
    i: int,
    k: int,
    usage: JsonView,
    n: u64,
    now: u64,
    idle_secs: u64,
    trigger_tokens: u64,
)
    requires
        t.armed,
        !t.in_flight,
        0 <= i < evs.len(),
        is_said_since(t, evs[i]),
        now < t.last_user_activity + idle_secs * 1000,
        idle_secs > 0,
        is_last_answer(evs, k),
        holds(JsonView::Obj(evs[k].data), "usage"@, usage),
        holds(usage, "prompt_tokens"@, JsonView::Uint(n)),
    ensures
        due(t, evs, now, idle_secs, trigger_tokens) == (if n >= trigger_tokens {
            Some(TriggerReason::ContextLen)
        } else {
            None
        }),
{
    assert(is_new(t, evs[i]));
    lemma_last_tokens(evs, k, usage, n);
    assert(idle_secs * 1000 > 0);
}

/// The last answer of the assistant in the main conversation.
pub open spec fn is_last_answer(evs: Seq<EventView>, k: int) -> bool {
    &&& 0 <= k < evs.len()
    &&& evs[k].kind == "assistant"@ && evs[k].thread == "main"@
    &&& forall|j: int|
        k < j < evs.len() ==> !((#[trigger] evs[j]).kind == "assistant"@ && evs[j].thread
            == "main"@)
}

/// The length of the context is what the last answer in the main conversation says
/// that its prompt had.
pub proof fn lemma_last_tokens(evs: Seq<EventView>, k: int, usage: JsonView, n: u64)
    requires
        is_last_answer(evs, k),
        holds(JsonView::Obj(evs[k].data), "usage"@, usage),
        holds(usage, "prompt_tokens"@, JsonView::Uint(n)),
    ensures
        context_tokens(evs) == n,
    decreases evs.len(),
{
    if k < evs.len() - 1 {
        let u = evs.drop_last();
        let last = evs[evs.len() - 1];
        assert(!(last.kind == "assistant"@ && last.thread == "main"@));
        assert(u[k] == evs[k]);
        assert forall|j: int| k < j < u.len() implies !((#[trigger] u[j]).kind == "assistant"@
            && u[j].thread == "main"@) by {
            assert(u[j] == evs[j]);
        }
        lemma_last_tokens(u, k, usage, n);
    }
}

/// While memories are being made none are begun; what they were made of does not count
/// again when they are done, and what was said since does.
pub proof fn lemma_dream_runs(
    t: DreamTrigger,
    evs: Seq<EventView>,
    marker_seq: u64,
    i: int,
    now: u64,
    idle_secs: u64,
    trigger_tokens: u64,
)
    requires
        marker_seq > 0,
    ensures
        due_when_asked(after_start(t, marker_seq), evs) is None,
        due(after_start(t, marker_seq), evs, now, idle_secs, trigger_tokens) is None,
        ({
            let d = after_finish(after_start(t, marker_seq));
            &&& (forall|j: int|
                0 <= j < evs.len() && (#[trigger] evs[j]).kind != "marker"@ ==> evs[j].seq
                    <= marker_seq) ==> due_when_asked(d, evs) is None
            &&& t.armed && 0 <= i < evs.len() && evs[i].thread == "main"@ && evs[i].kind
                != "marker"@ && evs[i].seq > marker_seq ==> due_when_asked(d, evs) is Some
            &&& d.armed == t.armed && d.last_user_activity == t.last_user_activity
        }),
{
    let d = after_finish(after_start(t, marker_seq));
    if t.armed && 0 <= i < evs.len() && evs[i].thread == "main"@ && evs[i].kind != "marker"@
        && evs[i].seq > marker_seq {
        assert(is_new(d, evs[i]));
    }
}

/// When the user is active the clock starts anew: for the whole time from then on
/// nothing is made for the user's being away, and afterwards what is new is.
pub proof fn lemma_activity_delays(
    t: DreamTrigger,
    evs: Seq<EventView>,
    ts: u64,
    i: int,
    now: u64,
    idle_secs: u64,
    trigger_tokens: u64,
)
    requires
        ts >= t.last_user_activity,
    ensures
        ({
            let a = after_activity(t, ts);
            &&& a.last_user_activity == ts
            &&& idle_secs > 0 && now < ts + idle_secs * 1000 ==> due(
                a,
                evs,
                now,
                idle_secs,
                trigger_tokens,
            ) != Some(TriggerReason::Idle)
            &&& !t.in_flight && 0 <= i < evs.len() && is_said_since(t, evs[i]) && now >= ts
                + idle_secs * 1000 ==> due(a, evs, now, idle_secs, trigger_tokens) == Some(
                TriggerReason::Idle,
            )
            &&& !t.in_flight && 0 <= i < evs.len() && is_said_since(t, evs[i]) ==> due_when_asked(
                a,
                evs,
            ) is Some
            &&& a.in_flight == t.in_flight && a.last_dream_marker_seq == t.last_dream_marker_seq
        }),
{
    let a = after_activity(t, ts);
    if 0 <= i < evs.len() && is_said_since(t, evs[i]) {
        assert(is_new(a, evs[i]));
    }
    assert(idle_secs * 1000 >= 0);
    if idle_secs > 0 {
        assert(idle_secs * 1000 > 0);
    }
}

/// A session that begins takes up behind the last memories that the history tells of:
/// the highest number of a marker of memories, and nothing else changes.
pub proof fn lemma_takes_up(t: DreamTrigger, evs: Seq<EventView>, i: int)
    requires
        0 <= i < evs.len(),
        evs[i].kind == "marker"@,
        says(JsonView::Obj(evs[i].data), "marker"@, "dream"@),
        forall|j: int|
            0 <= j < evs.len() && (#[trigger] evs[j]).kind == "marker"@ && says(
                JsonView::Obj(evs[j].data),
                "marker"@,
                "dream"@,
            ) ==> evs[j].seq <= evs[i].seq,
    ensures
        seeded(t, evs) == (DreamTrigger { last_dream_marker_seq: evs[i].seq, ..t }),
{
    lemma_last_dream(evs);
    assert(crate::dream_trigger::is_dream_marker(evs[i]));
    if last_dream(evs) > 0 {
        let k: int = choose|k: int|
            0 <= k < evs.len() && crate::dream_trigger::is_dream_marker(#[trigger] evs[k])
                && evs[k].seq == last_dream(evs);
        assert(says(JsonView::Obj(evs[k].data), "marker"@, "dream"@));
    }
}

/// A marker that says up to which event memories were made.
pub open spec fn says_until(e: EventView, n: u64) -> bool {
    &&& e.kind == "marker"@
    &&& says(JsonView::Obj(e.data), "marker"@, "dream"@)
    &&& holds(JsonView::Obj(e.data), "until_seq"@, JsonView::Uint(n))
}

/// Up to which event memories were made is what the last marker of memories says that
/// says so.
pub proof fn lemma_dream_end(evs: Seq<EventView>, i: int, n: u64)
    requires
        0 <= i < evs.len(),
        says_until(evs[i], n),
        forall|j: int, m: u64| i < j < evs.len() ==> !#[trigger] says_until(evs[j], m),
    ensures
        dreamt_until(evs) == Some(n),
    decreases evs.len(),
{
    if i < evs.len() - 1 {
        let t = evs.drop_last();
        let last = evs[evs.len() - 1];
        if crate::dream_trigger::is_dream_marker(last) && last.body().u64_at("until_seq"@) is Some {
            assert(says_until(last, last.body().u64_at("until_seq"@)->0));
        }
        assert(t[i] == evs[i]);
        assert forall|j: int, m: u64| i < j < t.len() implies !#[trigger] says_until(t[j], m) by {
            assert(t[j] == evs[j]);
        }
        lemma_dream_end(t, i, n);
    }
}

} // verus!
