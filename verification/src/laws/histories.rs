//! The history keeps what it is given and shows it again: nothing is lost between an
//! event and the window in which it is shown.
use super::sessions::keeps_attachments;
use super::{holds, lacks, list_in, says};
use crate::files::AttachmentView;
use crate::history::{
    assistant_event, assistant_usage_event, by_seq, counted, edit_event, external_event,
    head_window, history_file_names, in_order, lead_below, lemma_by_seq, lemma_lead_below_is,
    marker_event, number_after, numbered, readable, subagent_result_event, tail_window,
    tool_result_event, user_event, visible, window_end, window_start, written, written_all,
    EventView, HistoryEvent,
};
use crate::json::JsonView;
use crate::lines::{ascending, lemma_sorted, sorted};
use crate::paths::extension;
use vstd::prelude::*;

verus! {

// ---------------------------------------------------------------------------
// Events
// ---------------------------------------------------------------------------

/// An event keeps when and in which conversation something happened; it is not numbered
/// yet.
pub open spec fn is_new_event(
    e: EventView,
    ts: u64,
    thread: Seq<char>,
    kind: Seq<char>,
) -> bool {
    e.seq == 0 && e.ts == ts && e.thread == thread && e.kind == kind
}

/// The event of the assistant's answer keeps what was said, thought and called, and the
/// usage when there is one that is not null.
pub proof fn lemma_assistant_event(
    ts: u64,
    thread: Seq<char>,
    content: Seq<char>,
    thinking: Seq<char>,
    calls: Seq<JsonView>,
    usage: Option<JsonView>,
)
    ensures
        ({
            let e = assistant_event(ts, thread, content, thinking, calls);
            let d = JsonView::Obj(e.data);
            &&& is_new_event(e, ts, thread, "assistant"@)
            &&& says(d, "content"@, content)
            &&& says(d, "thinking"@, thinking)
            &&& holds(d, "tool_calls"@, JsonView::Arr(calls))
            &&& lacks(d, "usage"@)
        }),
        ({
            let e = assistant_usage_event(ts, thread, content, thinking, calls, usage);
            let d = JsonView::Obj(e.data);
            &&& is_new_event(e, ts, thread, "assistant"@)
            &&& says(d, "content"@, content)
            &&& says(d, "thinking"@, thinking)
            &&& holds(d, "tool_calls"@, JsonView::Arr(calls))
            &&& usage is None || usage->0 is Null ==> lacks(d, "usage"@)
            &&& usage is Some && usage->0 !is Null ==> holds(d, "usage"@, usage->0)
        }),
{
    super::lemma_members();
}

/// The events of a message of the user's, of a tool's result and of a marker keep what
/// they are made of.
pub proof fn lemma_said_events(
    ts: u64,
    thread: Seq<char>,
    text: Seq<char>,
    atts: Seq<AttachmentView>,
    name: Seq<char>,
    id: Seq<char>,
    n: u64,
)
    ensures
        ({
            let e = user_event(ts, thread, text, atts);
            let d = JsonView::Obj(e.data);
            &&& is_new_event(e, ts, thread, "user"@)
            &&& says(d, "text"@, text)
            &&& keeps_attachments(list_in(d, "attachments"@), atts)
        }),
        ({
            let e = tool_result_event(ts, thread, name, text, id);
            let d = JsonView::Obj(e.data);
            &&& is_new_event(e, ts, thread, "tool_result"@)
            &&& says(d, "name"@, name)
            &&& says(d, "result"@, text)
            &&& says(d, "call_id"@, id)
        }),
        ({
            let e = marker_event(ts, name, n);
            let d = JsonView::Obj(e.data);
            &&& is_new_event(e, ts, "main"@, "marker"@)
            &&& says(d, "marker"@, name)
            &&& holds(d, "until_seq"@, JsonView::Uint(n))
        }),
{
    super::lemma_members();
    reveal_strlit("text");
    reveal_strlit("attachments");
    reveal_strlit("staged_path");
    reveal_strlit("kind");
    reveal_strlit("marker");
    reveal_strlit("until_seq");
    assert("text"@.len() == 4 && "attachments"@.len() == 11);
    assert("staged_path"@.len() == 11 && "kind"@.len() == 4);
    assert("marker"@.len() == 6 && "until_seq"@.len() == 9);
}

/// The events of what happens outside keep what happened, where, and the hashes that are
/// known.
pub proof fn lemma_outside_events(
    ts: u64,
    what: Seq<char>,
    path: Seq<char>,
    a: Option<Seq<char>>,
    b: Option<Seq<char>>,
    ok: bool,
)
    ensures
        ({
            let e = external_event(ts, what, path, a);
            let d = JsonView::Obj(e.data);
            &&& is_new_event(e, ts, "main"@, "external"@)
            &&& says(d, "what"@, what)
            &&& says(d, "path"@, path)
            &&& a is Some ==> says(d, "hash"@, a->0)
            &&& a is None ==> lacks(d, "hash"@)
        }),
        ({
            let e = edit_event(ts, path, a, b);
            let d = JsonView::Obj(e.data);
            &&& is_new_event(e, ts, "main"@, "edit"@)
            &&& says(d, "path"@, path)
            &&& a is Some ==> says(d, "sha_before"@, a->0)
            &&& a is None ==> lacks(d, "sha_before"@)
            &&& b is Some ==> says(d, "sha_after"@, b->0)
            &&& b is None ==> lacks(d, "sha_after"@)
        }),
        ({
            let e = subagent_result_event(ts, what, path, what + path, ok);
            let d = JsonView::Obj(e.data);
            &&& is_new_event(e, ts, "main"@, "subagent_result"@)
            &&& says(d, "agent_id"@, what)
            &&& says(d, "summary"@, path)
            &&& says(d, "ref"@, what + path)
            &&& holds(d, "ok"@, JsonView::Bool(ok))
        }),
{
    reveal_strlit("what");
    reveal_strlit("path");
    reveal_strlit("hash");
    reveal_strlit("sha_before");
    reveal_strlit("sha_after");
    reveal_strlit("agent_id");
    reveal_strlit("summary");
    reveal_strlit("ref");
    reveal_strlit("ok");
    assert("what"@.len() == 4 && "path"@.len() == 4 && "hash"@.len() == 4);
    assert("what"@[0] == 'w' && "path"@[0] == 'p' && "hash"@[0] == 'h');
    assert("sha_before"@.len() == 10 && "sha_after"@.len() == 9);
    assert("agent_id"@.len() == 8 && "summary"@.len() == 7 && "ref"@.len() == 3);
    assert("ok"@.len() == 2);
}

/// An event is written as it is, under the number that it gets; the next one gets the
/// number after it.
pub proof fn lemma_written(e: EventView, seq: u64, offset_secs: i64)
    ensures
        ({
            let w = written(e, seq, offset_secs).event;
            &&& w.seq == seq
            &&& w.ts == e.ts && w.thread == e.thread && w.kind == e.kind && w.data == e.data
        }),
        seq < u64::MAX ==> number_after(seq) == seq + 1,
{
}

// ---------------------------------------------------------------------------
// Windows
// ---------------------------------------------------------------------------

proof fn lemma_kept_by_order(v: Seq<EventView>, i: int) -> (j: int)
    requires
        0 <= i < v.len(),
    ensures
        0 <= j < by_seq(v).len(),
        by_seq(v)[j] == v[i],
{
    lemma_by_seq(v);
    let e = v[i];
    let p = |x: EventView| x.seq == e.seq;
    v.lemma_filter_contains(p, i);
    assert(numbered(v, e.seq).contains(e));
    assert(numbered(by_seq(v), e.seq).contains(e));
    by_seq(v).lemma_filter_contains_rev(p, e);
    choose|j: int| 0 <= j < by_seq(v).len() && by_seq(v)[j] == e
}

proof fn lemma_shown(v: Seq<EventView>, i: int) -> (j: int)
    requires
        0 <= i < v.len(),
        v[i].thread == "main"@,
        v[i].kind != "marker"@,
    ensures
        0 <= j < visible(v).len(),
        visible(v)[j] == v[i],
        in_order(visible(v)),
{
    let p = |e: EventView| e.is_visible();
    v.lemma_filter_contains(p, i);
    let f = v.filter(p);
    let k: int = choose|k: int| 0 <= k < f.len() && f[k] == v[i];
    lemma_by_seq(f);
    lemma_kept_by_order(f, k)
}

/// An event of the main conversation before the bound is in the window of the last ones,
/// unless the window is full of events that are not older.
pub proof fn lemma_last_ones_shown(v: Seq<EventView>, limit: u64, before: Option<u64>, i: int)
    requires
        0 <= i < v.len(),
        v[i].thread == "main"@,
        v[i].kind != "marker"@,
        before matches Some(s) ==> v[i].seq < s,
    ensures
        ({
            let w = tail_window(v, limit, before);
            w.contains(v[i]) || w.len() == limit && forall|k: int|
                0 <= k < w.len() ==> (#[trigger] w[k]).seq >= v[i].seq
        }),
{
    let all = visible(v);
    let w = tail_window(v, limit, before);
    let j = lemma_shown(v, i);
    let end = window_end(all, before);
    if let Some(s) = before {
        lemma_lead_below_is(all, s as int);
        if j >= end {
            assert(all[end].seq <= all[j].seq);
        }
    }
    let start = if limit >= end {
        0
    } else {
        end - limit
    };
    if j >= start {
        assert(w[j - start] == v[i]);
    } else {
        assert forall|k: int| 0 <= k < w.len() implies (#[trigger] w[k]).seq >= v[i].seq by {
            assert(w[k] == all[start + k]);
            assert(all[j].seq <= all[start + k].seq);
        }
    }
}

/// An event of the main conversation after the bound is in the window of the first ones,
/// unless the window is full of events that are not newer.
pub proof fn lemma_first_ones_shown(v: Seq<EventView>, limit: u64, after: Option<u64>, i: int)
    requires
        0 <= i < v.len(),
        v[i].thread == "main"@,
        v[i].kind != "marker"@,
        after matches Some(s) ==> v[i].seq > s,
    ensures
        ({
            let w = head_window(v, limit, after);
            w.contains(v[i]) || w.len() == limit && forall|k: int|
                0 <= k < w.len() ==> (#[trigger] w[k]).seq <= v[i].seq
        }),
{
    let all = visible(v);
    let w = head_window(v, limit, after);
    let j = lemma_shown(v, i);
    let start = window_start(all, after);
    if let Some(s) = after {
        lemma_lead_below_is(all, s + 1);
        assert(start == lead_below(all, s + 1));
    }
    assert(start <= j);
    if j - start < w.len() {
        assert(w[j - start] == v[i]);
    } else {
        assert forall|k: int| 0 <= k < w.len() implies (#[trigger] w[k]).seq <= v[i].seq by {
            assert(w[k] == all[start + k]);
            assert(all[start + k].seq <= all[j].seq);
        }
    }
}

// ---------------------------------------------------------------------------
// Reading the files
// ---------------------------------------------------------------------------

/// Each row that could be read is an event, in the order of the rows; a row that could
/// not be read takes nothing away from the others.
pub proof fn lemma_rows_read(
    a: Seq<Option<HistoryEvent>>,
    b: Seq<Option<HistoryEvent>>,
    e: HistoryEvent,
)
    ensures
        readable(a + b) == readable(a) + readable(b),
        readable(seq![Some(e)]) == seq![e@],
        readable(seq![None::<HistoryEvent>]).len() == 0,
    decreases b.len(),
{
    reveal_with_fuel(readable, 2);
    let one = seq![Some(e)];
    let none = seq![None::<HistoryEvent>];
    assert(one.drop_last() =~= Seq::empty());
    assert(none.drop_last() =~= Seq::empty());
    assert(readable(one) =~= seq![e@]);
    if b.len() == 0 {
        assert(a + b =~= a);
        assert(readable(a) + readable(b) =~= readable(a));
    } else {
        let t = b.drop_last();
        lemma_rows_read(a, t, e);
        assert((a + b).drop_last() =~= a + t);
        assert((a + b).last() == b.last());
        assert(readable(a + b) =~= readable(a) + readable(b));
    }
}

/// The files of the history are those with its extension, all of them, in ascending
/// order.
pub proof fn lemma_files_listed(names: Seq<Seq<char>>, name: Seq<char>)
    ensures
        history_file_names(names).contains(name) <==> names.contains(name) && extension(name)
            == Some("jsonl"@),
        ascending(history_file_names(names)),
{
    let p = |n: Seq<char>| extension(n) == Some("jsonl"@);
    let kept = names.filter(p);
    lemma_sorted(kept);
    assert(kept.to_multiset() == sorted(kept).to_multiset());
    kept.to_multiset_ensures();
    sorted(kept).to_multiset_ensures();
    assert(kept.contains(name) <==> kept.to_multiset().count(name) > 0);
    assert(sorted(kept).contains(name) <==> sorted(kept).to_multiset().count(name) > 0);
    if names.contains(name) && p(name) {
        let i: int = choose|i: int| 0 <= i < names.len() && names[i] == name;
        names.lemma_filter_contains(p, i);
    }
    if kept.contains(name) {
        names.lemma_filter_contains_rev(p, name);
        let k: int = choose|k: int| 0 <= k < kept.len() && kept[k] == name;
        names.lemma_filter_pred(p, k);
    }
}

/// Events that are written one behind the other get numbers that follow each other.
pub proof fn lemma_numbers_follow(evs: Seq<EventView>, n: u64, offset_secs: i64, i: int)
    requires
        0 <= i < evs.len(),
        n + evs.len() <= u64::MAX,
    ensures
        ({
            let w = written_all(evs, n, offset_secs);
            &&& w.len() == evs.len()
            &&& w[i].event.seq == n + i
            &&& w[i].event.ts == evs[i].ts && w[i].event.thread == evs[i].thread && w[i].event.kind
                == evs[i].kind && w[i].event.data == evs[i].data
        }),
    decreases evs.len(),
{
    let t = evs.drop_last();
    lemma_counted(n, t.len());
    if i < t.len() {
        assert(t[i] == evs[i]);
        lemma_numbers_follow(t, n, offset_secs, i);
    } else if t.len() > 0 {
        lemma_numbers_follow(t, n, offset_secs, 0);
    }
    assert(written_all(t, n, offset_secs).len() == t.len());
}

proof fn lemma_counted(n: u64, k: nat)
    requires
        n + k <= u64::MAX,
    ensures
        counted(n, k) == n + k,
    decreases k,
{
    if k > 0 {
        lemma_counted(n, (k - 1) as nat);
    }
}

} // verus!
