//! The event history: what an event holds, how events are numbered and ordered,
//! and the windows in which they are shown.
use crate::dates::{date_from_ts_local, date_of, offset_fits, shifted};
use crate::files::{attachments, AttachmentRef, AttachmentView};
use crate::json::{
    jsons, lemma_jsons_at, lemma_jsons_len, opt_json, Fields, Json, JsonView,
};
use crate::lines::{sort_strs, sorted};
use crate::paths::{extension, extension_of};
use crate::text::{opt_str, opt_text, str_eq, texts};
use vstd::prelude::*;

verus! {

/// One event. Its producer leaves `seq` at 0; the writer numbers it. `ts` is in
/// milliseconds since 1970, `thread` is `main` or `agent:{id}`, and `kind` says
/// which members `data` has.
#[derive(Debug)]
pub struct HistoryEvent {
    pub seq: u64,
    pub ts: u64,
    pub thread: String,
    pub kind: String,
    pub data: Fields,
}

/// What an event holds.
#[verifier::ext_equal]
pub struct EventView {
    pub seq: u64,
    pub ts: u64,
    pub thread: Seq<char>,
    pub kind: Seq<char>,
    pub data: Map<Seq<char>, JsonView>,
}

impl View for HistoryEvent {
    type V = EventView;

    open spec fn view(&self) -> EventView {
        EventView {
            seq: self.seq,
            ts: self.ts,
            thread: self.thread@,
            kind: self.kind@,
            data: self.data@,
        }
    }
}

impl EventView {
    /// The data of the event as a JSON object.
    pub open spec fn body(self) -> JsonView {
        JsonView::Obj(self.data)
    }

    /// An event of the main conversation.
    pub open spec fn is_main(self) -> bool {
        self.thread == "main"@
    }

    /// An event that is shown: of the main conversation and no marker.
    pub open spec fn is_visible(self) -> bool {
        self.is_main() && self.kind != "marker"@
    }
}

impl Clone for HistoryEvent {
    fn clone(&self) -> (r: Self)
        ensures
            r@ == self@,
    {
        HistoryEvent {
            seq: self.seq,
            ts: self.ts,
            thread: self.thread.clone(),
            kind: self.kind.clone(),
            data: self.data.clone(),
        }
    }
}

/// What a list of events holds.
pub open spec fn events(v: Seq<HistoryEvent>) -> Seq<EventView> {
    v.map_values(|e: HistoryEvent| e@)
}

/// A new event, not numbered yet.
pub open spec fn fresh(
    ts: u64,
    thread: Seq<char>,
    kind: Seq<char>,
    data: Map<Seq<char>, JsonView>,
) -> EventView {
    EventView { seq: 0, ts, thread, kind, data }
}

/// An attachment reference as a JSON object.
pub open spec fn attachment_json(a: AttachmentView) -> JsonView {
    JsonView::Obj(
        map![
        "staged_path"@ => JsonView::Str(a.staged_path),
        "kind"@ => JsonView::Str(a.kind)],
    )
}

/// A list of attachment references as a JSON array.
pub open spec fn attachments_json(v: Seq<AttachmentView>) -> JsonView {
    JsonView::Arr(v.map_values(|a: AttachmentView| attachment_json(a)))
}

fn write_attachments(v: &Vec<AttachmentRef>) -> (r: Json)
    ensures
        r@ == attachments_json(attachments(v@)),
{
    let mut out: Vec<Json> = Vec::new();
    let mut i: usize = 0;
    while i < v.len()
        invariant
            i <= v@.len(),
            out@.len() == i,
            forall|k: int| 0 <= k < i ==> (#[trigger] out@[k])@ == attachment_json(v@[k]@),
        decreases v@.len() - i,
    {
        let mut f = Fields::new();
        f.insert("staged_path", Json::str(v[i].staged_path.as_str()));
        f.insert("kind", Json::str(v[i].kind.as_str()));
        out.push(Json::Obj(f));
        i = i + 1;
    }
    proof {
        lemma_jsons_len(out@);
        assert forall|k: int| 0 <= k < out@.len() implies jsons(out@)[k] == attachment_json(
            v@[k]@,
        ) by {
            lemma_jsons_at(out@, k);
        }
        assert(jsons(out@) =~= attachments(v@).map_values(
            |a: AttachmentView| attachment_json(a),
        ));
    }
    Json::Arr(out)
}

/// The event of a user's message.
pub open spec fn user_event(
    ts: u64,
    thread: Seq<char>,
    text: Seq<char>,
    atts: Seq<AttachmentView>,
) -> EventView {
    fresh(
        ts,
        thread,
        "user"@,
        map!["text"@ => JsonView::Str(text), "attachments"@ => attachments_json(atts)],
    )
}

/// The event of the assistant's answer.
pub open spec fn assistant_event(
    ts: u64,
    thread: Seq<char>,
    content: Seq<char>,
    thinking: Seq<char>,
    calls: Seq<JsonView>,
) -> EventView {
    fresh(
        ts,
        thread,
        "assistant"@,
        map![
            "content"@ => JsonView::Str(content),
            "thinking"@ => JsonView::Str(thinking),
            "tool_calls"@ => JsonView::Arr(calls)],
    )
}

/// The event of the assistant's answer with the token usage, when there is one
/// and it is not null.
pub open spec fn assistant_usage_event(
    ts: u64,
    thread: Seq<char>,
    content: Seq<char>,
    thinking: Seq<char>,
    calls: Seq<JsonView>,
    usage: Option<JsonView>,
) -> EventView {
    let e = assistant_event(ts, thread, content, thinking, calls);
    match usage {
        Some(u) => if u is Null {
            e
        } else {
            EventView { data: e.data.insert("usage"@, u), ..e }
        },
        None => e,
    }
}

/// The event of a tool's result.
pub open spec fn tool_result_event(
    ts: u64,
    thread: Seq<char>,
    name: Seq<char>,
    result: Seq<char>,
    call_id: Seq<char>,
) -> EventView {
    fresh(
        ts,
        thread,
        "tool_result"@,
        map![
            "name"@ => JsonView::Str(name),
            "result"@ => JsonView::Str(result),
            "call_id"@ => JsonView::Str(call_id)],
    )
}

/// The event of something from outside the conversation.
pub open spec fn external_event(
    ts: u64,
    what: Seq<char>,
    path: Seq<char>,
    hash: Option<Seq<char>>,
) -> EventView {
    let base = map!["what"@ => JsonView::Str(what), "path"@ => JsonView::Str(path)];
    fresh(
        ts,
        "main"@,
        "external"@,
        match hash {
            Some(h) => base.insert("hash"@, JsonView::Str(h)),
            None => base,
        },
    )
}

/// The event of a subagent's end.
pub open spec fn subagent_result_event(
    ts: u64,
    agent_id: Seq<char>,
    summary: Seq<char>,
    refs: Seq<char>,
    ok: bool,
) -> EventView {
    fresh(
        ts,
        "main"@,
        "subagent_result"@,
        map![
            "agent_id"@ => JsonView::Str(agent_id),
            "summary"@ => JsonView::Str(summary),
            "ref"@ => JsonView::Str(refs),
            "ok"@ => JsonView::Bool(ok)],
    )
}

/// The event of an edited file.
pub open spec fn edit_event(
    ts: u64,
    path: Seq<char>,
    sha_before: Option<Seq<char>>,
    sha_after: Option<Seq<char>>,
) -> EventView {
    let base = map!["path"@ => JsonView::Str(path)];
    let one = match sha_before {
        Some(s) => base.insert("sha_before"@, JsonView::Str(s)),
        None => base,
    };
    fresh(
        ts,
        "main"@,
        "edit"@,
        match sha_after {
            Some(s) => one.insert("sha_after"@, JsonView::Str(s)),
            None => one,
        },
    )
}

/// The event of a marker, up to which the history is cut off.
pub open spec fn marker_event(ts: u64, which: Seq<char>, until_seq: u64) -> EventView {
    fresh(
        ts,
        "main"@,
        "marker"@,
        map!["marker"@ => JsonView::Str(which), "until_seq"@ => JsonView::Uint(until_seq)],
    )
}

impl HistoryEvent {
    fn fresh(ts: u64, thread: &str, kind: &str, data: Fields) -> (r: HistoryEvent)
        ensures
            r@ == fresh(ts, thread@, kind@, data@),
    {
        HistoryEvent { seq: 0, ts, thread: thread.to_owned(), kind: kind.to_owned(), data }
    }

    /// The event of a user's message.
    pub fn user(ts: u64, thread: &str, text: &str, atts: &Vec<AttachmentRef>) -> (r: HistoryEvent)
        ensures
            r@ == user_event(ts, thread@, text@, attachments(atts@)),
    {
        let mut d = Fields::new();
        d.insert("text", Json::str(text));
        d.insert("attachments", write_attachments(atts));
        HistoryEvent::fresh(ts, thread, "user", d)
    }

    /// The event of the assistant's answer.
    pub fn assistant(
        ts: u64,
        thread: &str,
        content: &str,
        thinking: &str,
        tool_calls: Vec<Json>,
    ) -> (r: HistoryEvent)
        ensures
            r@ == assistant_event(ts, thread@, content@, thinking@, jsons(tool_calls@)),
    {
        let mut d = Fields::new();
        d.insert("content", Json::str(content));
        d.insert("thinking", Json::str(thinking));
        d.insert("tool_calls", Json::array(tool_calls));
        HistoryEvent::fresh(ts, thread, "assistant", d)
    }

    /// The event of the assistant's answer, with the token usage that the
    /// server reported.
    pub fn assistant_with_usage(
        ts: u64,
        thread: &str,
        content: &str,
        thinking: &str,
        tool_calls: Vec<Json>,
        usage: Option<Json>,
    ) -> (r: HistoryEvent)
        ensures
            r@ == assistant_usage_event(
                ts,
                thread@,
                content@,
                thinking@,
                jsons(tool_calls@),
                opt_json(usage),
            ),
    {
        let mut ev = HistoryEvent::assistant(ts, thread, content, thinking, tool_calls);
        if let Some(u) = usage {
            if !u.is_null() {
                ev.data.insert("usage", u);
            }
        }
        ev
    }

    /// The event of a tool's result.
    pub fn tool_result(ts: u64, thread: &str, name: &str, result: &str, call_id: &str) -> (r:
        HistoryEvent)
        ensures
            r@ == tool_result_event(ts, thread@, name@, result@, call_id@),
    {
        let mut d = Fields::new();
        d.insert("name", Json::str(name));
        d.insert("result", Json::str(result));
        d.insert("call_id", Json::str(call_id));
        HistoryEvent::fresh(ts, thread, "tool_result", d)
    }

    /// The event of something from outside the conversation.
    pub fn external(ts: u64, what: &str, path: &str, hash: Option<&str>) -> (r: HistoryEvent)
        ensures
            r@ == external_event(ts, what@, path@, opt_str(hash)),
    {
        let mut d = Fields::new();
        d.insert("what", Json::str(what));
        d.insert("path", Json::str(path));
        if let Some(h) = hash {
            d.insert("hash", Json::str(h));
        }
        HistoryEvent::fresh(ts, "main", "external", d)
    }

    /// The event of a subagent's end.
    pub fn subagent_result(ts: u64, agent_id: &str, summary: &str, refs: &str, ok: bool) -> (r:
        HistoryEvent)
        ensures
            r@ == subagent_result_event(ts, agent_id@, summary@, refs@, ok),
    {
        let mut d = Fields::new();
        d.insert("agent_id", Json::str(agent_id));
        d.insert("summary", Json::str(summary));
        d.insert("ref", Json::str(refs));
        d.insert("ok", Json::Bool(ok));
        HistoryEvent::fresh(ts, "main", "subagent_result", d)
    }

    /// The event of an edited file.
    pub fn edit(ts: u64, path: &str, sha_before: Option<&str>, sha_after: Option<&str>) -> (r:
        HistoryEvent)
        ensures
            r@ == edit_event(ts, path@, opt_str(sha_before), opt_str(sha_after)),
    {
        let mut d = Fields::new();
        d.insert("path", Json::str(path));
        if let Some(s) = sha_before {
            d.insert("sha_before", Json::str(s));
        }
        if let Some(s) = sha_after {
            d.insert("sha_after", Json::str(s));
        }
        HistoryEvent::fresh(ts, "main", "edit", d)
    }

    /// The event of a marker.
    pub fn marker(ts: u64, which: &str, until_seq: u64) -> (r: HistoryEvent)
        ensures
            r@ == marker_event(ts, which@, until_seq),
    {
        let mut d = Fields::new();
        d.insert("marker", Json::str(which));
        d.insert("until_seq", Json::Uint(until_seq));
        HistoryEvent::fresh(ts, "main", "marker", d)
    }

    /// The text of a string member of the data.
    pub fn str_at(&self, key: &str) -> (r: Option<&str>)
        ensures
            opt_str(r) == self@.body().str_at(key@),
    {
        match self.data.get(key) {
            Some(v) => v.as_str(),
            None => None,
        }
    }

    /// The text of a string member of the data, empty when there is none.
    pub fn text_at(&self, key: &str) -> (r: &str)
        ensures
            r@ == self@.body().text_at(key@),
    {
        match self.str_at(key) {
            Some(s) => s,
            None => {
                proof {
                    reveal_strlit("");
                    assert(""@ =~= Seq::<char>::empty());
                }
                ""
            },
        }
    }

    /// The natural number under a name in the data.
    pub fn u64_at(&self, key: &str) -> (r: Option<u64>)
        ensures
            r == self@.body().u64_at(key@),
    {
        match self.data.get(key) {
            Some(v) => v.as_u64(),
            None => None,
        }
    }

    /// Whether the event has a kind.
    pub fn is_kind(&self, kind: &str) -> (r: bool)
        ensures
            r == (self@.kind == kind@),
    {
        str_eq(self.kind.as_str(), kind)
    }

    /// Whether the event belongs to the main conversation.
    pub fn is_main(&self) -> (r: bool)
        ensures
            r == self@.is_main(),
    {
        str_eq(self.thread.as_str(), "main")
    }

    /// Whether the event is shown.
    pub fn is_visible(&self) -> (r: bool)
        ensures
            r == self@.is_visible(),
    {
        self.is_main() && !self.is_kind("marker")
    }
}

// ---------------------------------------------------------------------------
// Order
// ---------------------------------------------------------------------------

/// An event put into a list ordered by number, behind those that are not
/// numbered higher.
pub open spec fn insert_by_seq(v: Seq<EventView>, e: EventView) -> Seq<EventView>
    decreases v.len(),
{
    if v.len() > 0 && e.seq < v.last().seq {
        insert_by_seq(v.drop_last(), e).push(v.last())
    } else {
        v.push(e)
    }
}

/// The events of a list ordered by number; events with one number keep their
/// order.
pub open spec fn by_seq(v: Seq<EventView>) -> Seq<EventView>
    decreases v.len(),
{
    if v.len() == 0 {
        v
    } else {
        insert_by_seq(by_seq(v.drop_last()), v.last())
    }
}

/// A list ordered by number.
pub open spec fn in_order(v: Seq<EventView>) -> bool {
    forall|i: int, j: int| 0 <= i <= j < v.len() ==> (#[trigger] v[i]).seq <= (#[trigger] v[j]).seq
}

/// The events of a list with one number.
pub open spec fn numbered(v: Seq<EventView>, n: u64) -> Seq<EventView> {
    v.filter(|e: EventView| e.seq == n)
}

proof fn lemma_filter_push<A>(v: Seq<A>, x: A, p: spec_fn(A) -> bool)
    ensures
        v.push(x).filter(p) == (if p(x) {
            v.filter(p).push(x)
        } else {
            v.filter(p)
        }),
{
    reveal(Seq::filter);
    assert(v.push(x).drop_last() =~= v);
}

proof fn lemma_insert_by_seq(v: Seq<EventView>, e: EventView)
    requires
        in_order(v),
    ensures
        in_order(insert_by_seq(v, e)),
        insert_by_seq(v, e).len() == v.len() + 1,
        insert_by_seq(v, e).last().seq == e.seq || (v.len() > 0 && insert_by_seq(v, e).last()
            == v.last()),
        forall|n: u64| #[trigger]
            numbered(insert_by_seq(v, e), n) == (if e.seq == n {
                numbered(v, n).push(e)
            } else {
                numbered(v, n)
            }),
    decreases v.len(),
{
    let r = insert_by_seq(v, e);
    if v.len() > 0 && e.seq < v.last().seq {
        let w = v.drop_last();
        assert(in_order(w)) by {
            assert forall|i: int, j: int| 0 <= i <= j < w.len() implies (#[trigger] w[i]).seq <= (
            #[trigger] w[j]).seq by {
                assert(w[i] == v[i] && w[j] == v[j]);
            }
        }
        lemma_insert_by_seq(w, e);
        let q = insert_by_seq(w, e);
        assert forall|i: int, j: int| 0 <= i <= j < r.len() implies (#[trigger] r[i]).seq <= (
        #[trigger] r[j]).seq by {
            if j < q.len() {
                assert(r[i] == q[i] && r[j] == q[j]);
            } else if i < q.len() {
                assert(r[i] == q[i]);
                assert(q[i].seq <= q[q.len() - 1].seq);
                if w.len() > 0 {
                    assert(v[w.len() - 1].seq <= v[v.len() - 1].seq);
                }
            }
        }
        assert forall|n: u64| #[trigger]
            numbered(r, n) == (if e.seq == n {
                numbered(v, n).push(e)
            } else {
                numbered(v, n)
            }) by {
            let p = |x: EventView| x.seq == n;
            lemma_filter_push(q, v.last(), p);
            lemma_filter_push(w, v.last(), p);
            assert(v =~= w.push(v.last()));
            assert(numbered(q, n) == (if e.seq == n {
                numbered(w, n).push(e)
            } else {
                numbered(w, n)
            }));
        }
    } else {
        assert forall|i: int, j: int| 0 <= i <= j < r.len() implies (#[trigger] r[i]).seq <= (
        #[trigger] r[j]).seq by {
            if j < v.len() {
                assert(r[i] == v[i] && r[j] == v[j]);
            } else if i < v.len() {
                assert(r[i] == v[i]);
                assert(v[i].seq <= v[v.len() - 1].seq);
            }
        }
        assert forall|n: u64| #[trigger]
            numbered(r, n) == (if e.seq == n {
                numbered(v, n).push(e)
            } else {
                numbered(v, n)
            }) by {
            lemma_filter_push(v, e, |x: EventView| x.seq == n);
        }
    }
}

/// Ordering by number orders, loses and adds nothing, and keeps the order of
/// the events that share a number.
pub proof fn lemma_by_seq(v: Seq<EventView>)
    ensures
        in_order(by_seq(v)),
        by_seq(v).len() == v.len(),
        forall|n: u64| #[trigger] numbered(by_seq(v), n) == numbered(v, n),
    decreases v.len(),
{
    if v.len() > 0 {
        let w = v.drop_last();
        lemma_by_seq(w);
        lemma_insert_by_seq(by_seq(w), v.last());
        assert forall|n: u64| #[trigger] numbered(by_seq(v), n) == numbered(v, n) by {
            lemma_filter_push(w, v.last(), |x: EventView| x.seq == n);
            assert(v =~= w.push(v.last()));
            assert(numbered(by_seq(w), n) == numbered(w, n));
        }
    }
}

/// A list that is ordered by number already stays as it is.
pub proof fn lemma_by_seq_in_order(v: Seq<EventView>)
    requires
        in_order(v),
    ensures
        by_seq(v) == v,
    decreases v.len(),
{
    if v.len() > 0 {
        let w = v.drop_last();
        assert forall|i: int, j: int| 0 <= i <= j < w.len() implies (#[trigger] w[i]).seq <= (
        #[trigger] w[j]).seq by {
            assert(w[i] == v[i] && w[j] == v[j]);
        }
        lemma_by_seq_in_order(w);
        if w.len() > 0 {
            assert(v[w.len() - 1].seq <= v[v.len() - 1].seq);
        }
        assert(v =~= w.push(v.last()));
    }
}

proof fn lemma_insert_at(v: Seq<EventView>, e: EventView, k: int)
    requires
        0 <= k <= v.len(),
        forall|i: int| k <= i < v.len() ==> e.seq < v[i].seq,
        k == 0 || e.seq >= v[k - 1].seq,
    ensures
        insert_by_seq(v, e) == v.insert(k, e),
    decreases v.len() - k,
{
    if k < v.len() {
        let w = v.drop_last();
        lemma_insert_at(w, e, k);
        assert(w.insert(k, e).push(v.last()) =~= v.insert(k, e));
    } else {
        assert(v.push(e) =~= v.insert(k, e));
    }
}

/// Orders events by number.
pub fn sort_events(v: Vec<HistoryEvent>) -> (r: Vec<HistoryEvent>)
    ensures
        events(r@) == by_seq(events(v@)),
{
    let mut out: Vec<HistoryEvent> = Vec::new();
    let mut i: usize = 0;
    while i < v.len()
        invariant
            i <= v@.len(),
            events(out@) == by_seq(events(v@).take(i as int)),
        decreases v@.len() - i,
    {
        let mut k: usize = out.len();
        while k > 0 && v[i].seq < out[k - 1].seq
            invariant
                i < v@.len(),
                k <= out@.len(),
                forall|m: int| k <= m < out@.len() ==> v@[i as int].seq < out@[m].seq,
            decreases k,
        {
            k = k - 1;
        }
        proof {
            let t = events(v@).take(i + 1);
            assert(t.drop_last() =~= events(v@).take(i as int));
            assert(t.last() == v@[i as int]@);
            assert(forall|m: int| 0 <= m < out@.len() ==> events(out@)[m] == out@[m]@);
            lemma_insert_at(events(out@), v@[i as int]@, k as int);
        }
        let ghost before = out@;
        out.insert(k, v[i].clone());
        assert(events(out@) =~= events(before).insert(k as int, v@[i as int]@));
        i = i + 1;
    }
    assert(events(v@).take(i as int) =~= events(v@));
    out
}

/// The history files among the names in a directory, in order.
pub open spec fn history_file_names(names: Seq<Seq<char>>) -> Seq<Seq<char>> {
    sorted(names.filter(|n: Seq<char>| extension(n) == Some("jsonl"@)))
}

/// Picks the history files among the names in a directory, in order.
pub fn history_files(names: &Vec<String>) -> (r: Vec<String>)
    ensures
        texts(r@) == history_file_names(texts(names@)),
{
    let mut out: Vec<String> = Vec::new();
    let mut i: usize = 0;
    let ghost p = |n: Seq<char>| extension(n) == Some("jsonl"@);
    proof {
        reveal(Seq::filter);
    }
    while i < names.len()
        invariant
            i <= names@.len(),
            p == (|n: Seq<char>| extension(n) == Some("jsonl"@)),
            texts(out@) == texts(names@).take(i as int).filter(p),
        decreases names@.len() - i,
    {
        let ghost before = out@;
        proof {
            lemma_filter_push(texts(names@).take(i as int), names@[i as int]@, p);
            assert(texts(names@).take(i + 1) =~= texts(names@).take(i as int).push(
                names@[i as int]@,
            ));
        }
        if let Some(e) = extension_of(names[i].as_str()) {
            if str_eq(e.as_str(), "jsonl") {
                out.push(names[i].clone());
                assert(texts(out@) =~= texts(before).push(names@[i as int]@));
            }
        }
        i = i + 1;
    }
    assert(texts(names@).take(i as int) =~= texts(names@));
    sort_strs(out)
}

/// The events among rows that may be unreadable.
pub open spec fn readable(rows: Seq<Option<HistoryEvent>>) -> Seq<EventView>
    decreases rows.len(),
{
    if rows.len() == 0 {
        Seq::empty()
    } else {
        match rows.last() {
            Some(e) => readable(rows.drop_last()).push(e@),
            None => readable(rows.drop_last()),
        }
    }
}

/// All events of the history, ordered by number, out of the rows of its files:
/// a row that could not be read is left out.
pub fn read_all(rows: &Vec<Option<HistoryEvent>>) -> (r: Vec<HistoryEvent>)
    ensures
        events(r@) == by_seq(readable(rows@)),
{
    let mut out: Vec<HistoryEvent> = Vec::new();
    let mut i: usize = 0;
    while i < rows.len()
        invariant
            i <= rows@.len(),
            events(out@) == readable(rows@.take(i as int)),
        decreases rows@.len() - i,
    {
        let ghost before = out@;
        proof {
            let t = rows@.take(i + 1);
            assert(t.drop_last() =~= rows@.take(i as int));
            assert(t.last() == rows@[i as int]);
        }
        if let Some(e) = &rows[i] {
            out.push(e.clone());
            assert(events(out@) =~= events(before).push(e@));
        }
        i = i + 1;
    }
    assert(rows@.take(i as int) =~= rows@);
    sort_events(out)
}

// ---------------------------------------------------------------------------
// Windows
// ---------------------------------------------------------------------------

/// The events that are shown, ordered by number.
pub open spec fn visible(v: Seq<EventView>) -> Seq<EventView> {
    by_seq(v.filter(|e: EventView| e.is_visible()))
}

/// How many events at the beginning of a list are numbered below `s`.
pub open spec fn lead_below(v: Seq<EventView>, s: int) -> nat
    decreases v.len(),
{
    if v.len() > 0 && v[0].seq < s {
        1 + lead_below(v.skip(1), s)
    } else {
        0
    }
}

proof fn lemma_lead_below(v: Seq<EventView>, s: int, k: int)
    requires
        0 <= k <= v.len(),
        forall|i: int| 0 <= i < k ==> (#[trigger] v[i]).seq < s,
        k == v.len() || v[k].seq >= s,
    ensures
        lead_below(v, s) == k,
    decreases k,
{
    if k > 0 {
        let t = v.skip(1);
        assert forall|i: int| 0 <= i < k - 1 implies (#[trigger] t[i]).seq < s by {
            assert(t[i] == v[i + 1]);
        }
        assert(v[0].seq < s);
        lemma_lead_below(t, s, k - 1);
    }
}

/// The leading events below `s` are so many as `lead_below` says.
pub proof fn lemma_lead_below_is(v: Seq<EventView>, s: int)
    ensures
        lead_below(v, s) <= v.len(),
        forall|i: int| 0 <= i < lead_below(v, s) ==> (#[trigger] v[i]).seq < s,
        lead_below(v, s) < v.len() ==> v[lead_below(v, s) as int].seq >= s,
    decreases v.len(),
{
    if v.len() > 0 && v[0].seq < s {
        let t = v.skip(1);
        lemma_lead_below_is(t, s);
        assert forall|i: int| 0 <= i < lead_below(v, s) implies (#[trigger] v[i]).seq < s by {
            if i > 0 {
                assert(v[i] == t[i - 1]);
            }
        }
    }
}

fn leading_below(v: &Vec<HistoryEvent>, s: u64, inclusive: bool) -> (r: usize)
    ensures
        r <= v@.len(),
        r == lead_below(events(v@), if inclusive {
            s + 1
        } else {
            s as int
        }),
{
    let ghost bound: int = if inclusive {
        s + 1
    } else {
        s as int
    };
    let mut i: usize = 0;
    while i < v.len() && (v[i].seq < s || (inclusive && v[i].seq == s))
        invariant
            bound == (if inclusive {
                s + 1
            } else {
                s as int
            }),
            i <= v@.len(),
            forall|k: int| 0 <= k < i ==> (#[trigger] events(v@)[k]).seq < bound,
        decreases v@.len() - i,
    {
        i = i + 1;
    }
    proof {
        lemma_lead_below(events(v@), bound, i as int);
    }
    i
}

/// The end of the window that lies before an event: behind the last event, or
/// at the first that is not numbered below it.
pub open spec fn window_end(w: Seq<EventView>, before: Option<u64>) -> int {
    match before {
        Some(s) => lead_below(w, s as int) as int,
        None => w.len() as int,
    }
}

/// The start of the window that lies after an event: the first event, or the
/// first that is numbered above it.
pub open spec fn window_start(w: Seq<EventView>, after: Option<u64>) -> int {
    match after {
        Some(s) => lead_below(w, s + 1) as int,
        None => 0,
    }
}

/// The last `limit` shown events before an event.
pub open spec fn tail_window(v: Seq<EventView>, limit: u64, before: Option<u64>) -> Seq<EventView> {
    let w = visible(v);
    let end = window_end(w, before);
    let start = if limit >= end {
        0
    } else {
        end - limit
    };
    w.subrange(start, end)
}

/// The first `limit` shown events after an event.
pub open spec fn head_window(v: Seq<EventView>, limit: u64, after: Option<u64>) -> Seq<EventView> {
    let w = visible(v);
    let start = window_start(w, after);
    let end = if start + limit >= w.len() {
        w.len() as int
    } else {
        start + limit
    };
    w.subrange(start, end)
}

fn visible_events(evs: &Vec<HistoryEvent>) -> (r: Vec<HistoryEvent>)
    ensures
        events(r@) == visible(events(evs@)),
{
    let mut out: Vec<HistoryEvent> = Vec::new();
    let mut i: usize = 0;
    let ghost p = |e: EventView| e.is_visible();
    proof {
        reveal(Seq::filter);
    }
    while i < evs.len()
        invariant
            i <= evs@.len(),
            p == (|e: EventView| e.is_visible()),
            events(out@) == events(evs@).take(i as int).filter(p),
        decreases evs@.len() - i,
    {
        let ghost before = out@;
        proof {
            lemma_filter_push(events(evs@).take(i as int), evs@[i as int]@, p);
            assert(events(evs@).take(i + 1) =~= events(evs@).take(i as int).push(
                evs@[i as int]@,
            ));
        }
        if evs[i].is_visible() {
            out.push(evs[i].clone());
            assert(events(out@) =~= events(before).push(evs@[i as int]@));
        }
        i = i + 1;
    }
    assert(events(evs@).take(i as int) =~= events(evs@));
    sort_events(out)
}

/// A copy of a part of a list of events.
pub fn copy_events(v: &Vec<HistoryEvent>, start: usize, end: usize) -> (r: Vec<HistoryEvent>)
    requires
        start <= end <= v@.len(),
    ensures
        events(r@) == events(v@).subrange(start as int, end as int),
{
    let mut out: Vec<HistoryEvent> = Vec::new();
    let mut i: usize = start;
    while i < end
        invariant
            start <= i <= end <= v@.len(),
            out@.len() == i - start,
            forall|k: int| 0 <= k < out@.len() ==> (#[trigger] out@[k])@ == v@[start + k]@,
        decreases end - i,
    {
        out.push(v[i].clone());
        i = i + 1;
    }
    assert(events(out@) =~= events(v@).subrange(start as int, end as int));
    out
}

/// The last `limit` shown events, before the one numbered `before_seq` when
/// there is such a bound, in ascending order.
pub fn visible_tail(evs: &Vec<HistoryEvent>, limit: u64, before_seq: Option<u64>) -> (r: Vec<
    HistoryEvent,
>)
    ensures
        events(r@) == tail_window(events(evs@), limit, before_seq),
{
    let w = visible_events(evs);
    let end: usize = match before_seq {
        Some(s) => leading_below(&w, s, false),
        None => w.len(),
    };
    let start: usize = if limit >= end as u64 {
        0
    } else {
        end - limit as usize
    };
    copy_events(&w, start, end)
}

/// The first `limit` shown events, after the one numbered `after_seq` when
/// there is such a bound, in ascending order.
pub fn visible_head(evs: &Vec<HistoryEvent>, limit: u64, after_seq: Option<u64>) -> (r: Vec<
    HistoryEvent,
>)
    requires
        window_start(visible(events(evs@)), after_seq) + limit <= usize::MAX,
    ensures
        events(r@) == head_window(events(evs@), limit, after_seq),
{
    let w = visible_events(evs);
    let start: usize = match after_seq {
        Some(s) => leading_below(&w, s, true),
        None => 0,
    };
    let end: usize = if start + limit as usize >= w.len() {
        w.len()
    } else {
        start + limit as usize
    };
    copy_events(&w, start, end)
}

/// An event among the shown ones of a history is one of the history's that is
/// shown.
proof fn lemma_visible_member(v: Seq<EventView>, i: int)
    requires
        0 <= i < visible(v).len(),
    ensures
        v.contains(visible(v)[i]),
        visible(v)[i].is_visible(),
{
    let p = |e: EventView| e.is_visible();
    let f = v.filter(p);
    lemma_by_seq(f);
    let x = visible(v)[i];
    let same = |e: EventView| e.seq == x.seq;
    assert(numbered(visible(v), x.seq) == numbered(f, x.seq));
    visible(v).lemma_filter_contains(same, i);
    f.lemma_filter_contains_rev(same, x);
    v.lemma_filter_contains_rev(p, x);
    let m = choose|m: int| 0 <= m < f.len() && f[m] == x;
    v.lemma_filter_pred(p, m);
}

/// A window holds at most `limit` events, all of them shown events of the
/// history, in ascending order and on the right side of the bound.
pub proof fn lemma_windows(v: Seq<EventView>, limit: u64, bound: Option<u64>)
    ensures
        tail_window(v, limit, bound).len() <= limit,
        in_order(tail_window(v, limit, bound)),
        forall|i: int|
            0 <= i < tail_window(v, limit, bound).len() ==> {
                let e = #[trigger] tail_window(v, limit, bound)[i];
                v.contains(e) && e.is_visible() && (bound matches Some(s) ==> e.seq < s)
            },
        head_window(v, limit, bound).len() <= limit,
        in_order(head_window(v, limit, bound)),
        forall|i: int|
            0 <= i < head_window(v, limit, bound).len() ==> {
                let e = #[trigger] head_window(v, limit, bound)[i];
                v.contains(e) && e.is_visible() && (bound matches Some(s) ==> e.seq > s)
            },
{
    let w = visible(v);
    lemma_by_seq(v.filter(|e: EventView| e.is_visible()));
    let end = window_end(w, bound);
    let first = if limit >= end {
        0
    } else {
        end - limit
    };
    let start = window_start(w, bound);
    if let Some(s) = bound {
        lemma_lead_below_is(w, s as int);
        lemma_lead_below_is(w, s + 1);
    }
    let t = tail_window(v, limit, bound);
    let h = head_window(v, limit, bound);
    assert forall|i: int| 0 <= i < t.len() implies {
        let e = #[trigger] t[i];
        v.contains(e) && e.is_visible() && (bound matches Some(s) ==> e.seq < s)
    } by {
        assert(t[i] == w[first + i]);
        lemma_visible_member(v, first + i);
    }
    assert forall|i: int| 0 <= i < h.len() implies {
        let e = #[trigger] h[i];
        v.contains(e) && e.is_visible() && (bound matches Some(s) ==> e.seq > s)
    } by {
        assert(h[i] == w[start + i]);
        lemma_visible_member(v, start + i);
        if let Some(s) = bound {
            if start < w.len() {
                assert(w[start].seq >= s + 1);
                assert(w[start].seq <= w[start + i].seq);
            }
        }
    }
    assert forall|i: int, j: int| 0 <= i <= j < t.len() implies (#[trigger] t[i]).seq <= (
    #[trigger] t[j]).seq by {
        assert(t[i] == w[first + i] && t[j] == w[first + j]);
    }
    assert forall|i: int, j: int| 0 <= i <= j < h.len() implies (#[trigger] h[i]).seq <= (
    #[trigger] h[j]).seq by {
        assert(h[i] == w[start + i] && h[j] == w[start + j]);
    }
}

/// No two shown events have one number.
pub open spec fn numbers_distinct(v: Seq<EventView>) -> bool {
    forall|i: int, j: int|
        0 <= i < j < visible(v).len() ==> (#[trigger] visible(v)[i]).seq != (#[trigger] visible(
            v,
        )[j]).seq
}

/// Paging up goes on where the window begins, and paging down where it ends:
/// the events between two pages are neither left out nor shown twice.
pub proof fn lemma_paging(v: Seq<EventView>, k: int, limit: u64)
    requires
        numbers_distinct(v),
        0 <= k < visible(v).len(),
    ensures
        tail_window(v, limit, Some(visible(v)[k].seq)) == visible(v).subrange(
            if limit >= k {
                0
            } else {
                k - limit
            },
            k,
        ),
        head_window(v, limit, Some(visible(v)[k].seq)) == visible(v).subrange(
            k + 1,
            if k + 1 + limit >= visible(v).len() {
                visible(v).len() as int
            } else {
                k + 1 + limit
            },
        ),
{
    let w = visible(v);
    lemma_by_seq(v.filter(|e: EventView| e.is_visible()));
    assert forall|i: int| 0 <= i < k implies (#[trigger] w[i]).seq < w[k].seq by {
        assert(w[i].seq <= w[k].seq);
    }
    lemma_lead_below(w, w[k].seq as int, k);
    assert forall|i: int| 0 <= i < k + 1 implies (#[trigger] w[i]).seq < w[k].seq + 1 by {
        assert(w[i].seq <= w[k].seq);
    }
    if k + 1 < w.len() {
        assert(w[k].seq <= w[k + 1].seq);
        assert(w[k].seq != w[k + 1].seq);
    }
    lemma_lead_below(w, w[k].seq + 1, k + 1);
}

// ---------------------------------------------------------------------------
// Writing
// ---------------------------------------------------------------------------

/// The first number above those of all events: 0 when there are none.
pub fn seed_seq(evs: &Vec<HistoryEvent>) -> (r: u64)
    requires
        forall|i: int| 0 <= i < evs@.len() ==> (#[trigger] evs@[i]).seq < u64::MAX,
    ensures
        forall|i: int| 0 <= i < evs@.len() ==> (#[trigger] evs@[i]).seq < r,
        r > 0 ==> exists|i: int| 0 <= i < evs@.len() && (#[trigger] evs@[i]).seq == r - 1,
{
    let mut next: u64 = 0;
    let mut i: usize = 0;
    while i < evs.len()
        invariant
            forall|k: int| 0 <= k < evs@.len() ==> (#[trigger] evs@[k]).seq < u64::MAX,
            i <= evs@.len(),
            forall|k: int| 0 <= k < i ==> (#[trigger] evs@[k]).seq < next,
            next > 0 ==> exists|k: int| 0 <= k < i && (#[trigger] evs@[k]).seq == next - 1,
        decreases evs@.len() - i,
    {
        if evs[i].seq >= next {
            next = evs[i].seq + 1;
            assert(evs@[i as int].seq == next - 1);
        }
        i = i + 1;
    }
    next
}

/// The one writer of the history: it numbers the events and picks the file of
/// each by its local date.
#[derive(Debug)]
pub struct HistoryWriter {
    /// The number of the next event.
    pub next_seq: u64,
    /// The date of the file that is open.
    pub open_date: Option<String>,
    /// The offset of local time from universal time, in seconds.
    pub offset_secs: i64,
}

/// An event that is ready to be written.
#[derive(Debug)]
pub struct StampedEvent {
    pub event: HistoryEvent,
    /// The date whose file takes the event.
    pub date: String,
    /// Whether that file has to be opened first.
    pub reopen: bool,
}

/// The number after another. It starts over at 0 after the highest one.
pub open spec fn number_after(n: u64) -> u64 {
    if n == u64::MAX {
        0
    } else {
        (n + 1) as u64
    }
}

/// What is written of an event: the event with its number, and the date whose file
/// takes it.
pub struct WrittenView {
    pub event: EventView,
    pub date: Seq<char>,
}

/// What is written of an event that gets a number, with an offset from universal time.
pub open spec fn written(e: EventView, seq: u64, offset_secs: i64) -> WrittenView {
    WrittenView {
        event: EventView { seq, ..e },
        date: date_of(shifted(e.ts, offset_secs)),
    }
}

/// The number that is next after so many events.
pub open spec fn counted(n: u64, events: nat) -> u64
    decreases events,
{
    if events == 0 {
        n
    } else {
        number_after(counted(n, (events - 1) as nat))
    }
}

/// What is written of events, one after the other, when `n` is the next number.
pub open spec fn written_all(evs: Seq<EventView>, n: u64, offset_secs: i64) -> Seq<WrittenView>
    decreases evs.len(),
{
    if evs.len() == 0 {
        Seq::empty()
    } else {
        let t = evs.drop_last();
        written_all(t, n, offset_secs).push(written(evs.last(), counted(n, t.len()), offset_secs))
    }
}

/// Events get the numbers from the next one on, without a gap and in their order, and
/// each goes to the file of its local date. What is above the numbers of all earlier
/// events stays above them, so no number comes twice.
pub proof fn lemma_events_numbered(
    earlier: Seq<EventView>,
    evs: Seq<EventView>,
    n: u64,
    offset_secs: i64,
)
    requires
        n + evs.len() <= u64::MAX,
        forall|i: int| 0 <= i < earlier.len() ==> (#[trigger] earlier[i]).seq < n,
    ensures
        counted(n, evs.len()) == n + evs.len(),
        written_all(evs, n, offset_secs).len() == evs.len(),
        forall|i: int|
            0 <= i < evs.len() ==> (#[trigger] written_all(evs, n, offset_secs)[i]) == (
            WrittenView {
                event: EventView { seq: (n + i) as u64, ..evs[i] },
                date: date_of(shifted(evs[i].ts, offset_secs)),
            }),
        forall|i: int, k: int|
            0 <= i < evs.len() && 0 <= k < earlier.len() ==> (#[trigger] written_all(
                evs,
                n,
                offset_secs,
            )[i]).event.seq != (#[trigger] earlier[k]).seq,
        forall|i: int, k: int|
            0 <= i < k < evs.len() ==> (#[trigger] written_all(evs, n, offset_secs)[i]).event.seq
                < (#[trigger] written_all(evs, n, offset_secs)[k]).event.seq,
    decreases evs.len(),
{
    if evs.len() > 0 {
        let t = evs.drop_last();
        lemma_events_numbered(earlier, t, n, offset_secs);
        assert forall|i: int| 0 <= i < evs.len() implies (#[trigger] written_all(
            evs,
            n,
            offset_secs,
        )[i]) == (WrittenView {
            event: EventView { seq: (n + i) as u64, ..evs[i] },
            date: date_of(shifted(evs[i].ts, offset_secs)),
        }) by {
            if i < t.len() {
                assert(written_all(evs, n, offset_secs)[i] == written_all(t, n, offset_secs)[i]);
                assert(evs[i] == t[i]);
            }
        }
    }
}

impl HistoryWriter {
    /// A writer that goes on behind the events that are there.
    pub fn new(evs: &Vec<HistoryEvent>, offset_secs: i64) -> (r: HistoryWriter)
        requires
            forall|i: int| 0 <= i < evs@.len() ==> (#[trigger] evs@[i]).seq < u64::MAX,
        ensures
            forall|i: int| 0 <= i < evs@.len() ==> (#[trigger] evs@[i]).seq < r.next_seq,
            r.next_seq > 0 ==> exists|i: int|
                0 <= i < evs@.len() && (#[trigger] evs@[i]).seq == r.next_seq - 1,
            r.open_date is None,
            r.offset_secs == offset_secs,
    {
        HistoryWriter { next_seq: seed_seq(evs), open_date: None, offset_secs }
    }

    /// The number that the next event gets.
    pub fn current_seq(&self) -> (r: u64)
        ensures
            r == self.next_seq,
    {
        self.next_seq
    }

    /// Numbers an event and picks its file. The counter starts over at 0 after
    /// the highest number.
    pub fn stamp(&mut self, event: HistoryEvent) -> (r: StampedEvent)
        requires
            offset_fits(event.ts, old(self).offset_secs),
        ensures
            (WrittenView { event: r.event@, date: r.date@ }) == written(
                event@,
                old(self).next_seq,
                old(self).offset_secs,
            ),
            r.reopen == (opt_text(old(self).open_date) != Some(r.date@)),
            final(self).next_seq == number_after(old(self).next_seq),
            final(self).open_date == old(self).open_date,
            final(self).offset_secs == old(self).offset_secs,
    {
        let seq: u64 = self.next_seq;
        self.next_seq = seq.wrapping_add(1);
        let mut stamped = event;
        stamped.seq = seq;
        let date = date_from_ts_local(stamped.ts, self.offset_secs);
        let reopen = match &self.open_date {
            Some(d) => !str_eq(d.as_str(), date.as_str()),
            None => true,
        };
        StampedEvent { event: stamped, date, reopen }
    }

    /// Notes that the file of a date is open.
    pub fn opened(&mut self, date: &str)
        ensures
            opt_text(final(self).open_date) == Some(date@),
            final(self).next_seq == old(self).next_seq,
            final(self).offset_secs == old(self).offset_secs,
    {
        self.open_date = Some(date.to_owned());
    }
}

} // verus!
