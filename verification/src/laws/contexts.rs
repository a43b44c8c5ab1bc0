//! What the model sees of the history: everything that was said behind the cut, as it
//! was said and in its order, and every answered call with its answer.
use super::{
    answers, holds, is_answer, is_call, is_saying, lemma_answered_by, lemma_members, list_in,
    says, text_in,
};
use crate::context::{
    attachments_of, context_messages, files_wanted, in_context, last_cut, lemma_last_cut,
    marker_cut, message_of, messages_of, pinned_message, PinnedBlocks,
};
use crate::files::AttachmentView;
use crate::history::EventView;
use crate::json::JsonView;
use crate::llm::LoadedView;
use crate::pairing::{
    answer_id, answered_ids, call_id, called_ids, calls_of, is_legal, is_tool,
    keeps_call, keeps_message, kept_calls, lemma_names, lemma_strip_keeps,
    lemma_without_trailing, legal_ids, makes_calls, settled, strip_message, stripped,
    without_trailing_calls,
};
use crate::text::{is_blank, opt_text, trim_end};
use vstd::prelude::*;

verus! {

// ---------------------------------------------------------------------------
// Where messages stand after settling
// ---------------------------------------------------------------------------

proof fn lemma_filter_at<A>(s: Seq<A>, p: spec_fn(A) -> bool, x: int)
    requires
        0 <= x < s.len(),
        p(s[x]),
    ensures
        s.take(x).filter(p).len() < s.filter(p).len(),
        s.filter(p)[s.take(x).filter(p).len() as int] == s[x],
    decreases s.len(),
{
    reveal(Seq::filter);
    let t = s.drop_last();
    if x == s.len() - 1 {
        assert(s.take(x) =~= t);
    } else {
        assert(t[x] == s[x]);
        assert(t.take(x) =~= s.take(x));
        lemma_filter_at(t, p, x);
    }
}

proof fn lemma_filter_grows<A>(s: Seq<A>, p: spec_fn(A) -> bool, x: int, y: int)
    requires
        0 <= x < y <= s.len(),
        p(s[x]),
    ensures
        s.take(x).filter(p).len() < s.take(y).filter(p).len(),
{
    let u = s.take(y);
    assert(u.take(x) =~= s.take(x));
    assert(u[x] == s[x]);
    lemma_filter_at(u, p, x);
}

/// Where a message that is kept stands after stripping.
spec fn place(msgs: Seq<JsonView>, x: int) -> int {
    msgs.take(x).filter(|m: JsonView| keeps_message(called_ids(msgs), m)).len() as int
}

proof fn lemma_place(msgs: Seq<JsonView>, x: int)
    requires
        0 <= x < msgs.len(),
        keeps_message(called_ids(msgs), msgs[x]),
    ensures
        0 <= place(msgs, x) < stripped(msgs).len(),
        stripped(msgs)[place(msgs, x)] == strip_message(answered_ids(msgs), msgs[x]),
{
    let p = |m: JsonView| keeps_message(called_ids(msgs), m);
    lemma_filter_at(msgs, p, x);
    crate::pairing::lemma_order_stays(msgs);
    assert(msgs.filter(p).map_values(|m: JsonView| strip_message(answered_ids(msgs), m))[place(
        msgs,
        x,
    )] == strip_message(answered_ids(msgs), msgs.filter(p)[place(msgs, x)]));
}

proof fn lemma_place_order(msgs: Seq<JsonView>, x: int, y: int)
    requires
        0 <= x < y < msgs.len(),
        keeps_message(called_ids(msgs), msgs[x]),
    ensures
        place(msgs, x) < place(msgs, y),
{
    lemma_filter_grows(msgs, |m: JsonView| keeps_message(called_ids(msgs), m), x, y);
}

proof fn lemma_answered_has(msgs: Seq<JsonView>, x: int)
    requires
        0 <= x < msgs.len(),
        is_tool(msgs[x]),
        msgs[x].str_at("tool_call_id"@) is Some,
    ensures
        answered_ids(msgs).contains(answer_id(msgs[x])),
    decreases msgs.len(),
{
    let t = msgs.drop_last();
    let all = answered_ids(msgs);
    if x == msgs.len() - 1 {
        assert(all.last() == answer_id(msgs[x]));
        assert(all[all.len() - 1] == answer_id(msgs[x]));
    } else {
        assert(t[x] == msgs[x]);
        lemma_answered_has(t, x);
        let head = answered_ids(t);
        let j: int = choose|j: int| 0 <= j < head.len() && head[j] == answer_id(msgs[x]);
        assert(all[j] == head[j]);
    }
}

proof fn lemma_legal_has(calls: Seq<JsonView>, k: int)
    requires
        0 <= k < calls.len(),
        is_legal(calls[k]),
    ensures
        legal_ids(calls).contains(call_id(calls[k])),
    decreases calls.len(),
{
    let t = calls.drop_last();
    let all = legal_ids(calls);
    if k == calls.len() - 1 {
        assert(all[all.len() - 1] == call_id(calls[k]));
    } else {
        assert(t[k] == calls[k]);
        lemma_legal_has(t, k);
        let head = legal_ids(t);
        let j: int = choose|j: int| 0 <= j < head.len() && head[j] == call_id(calls[k]);
        assert(all[j] == head[j]);
    }
}

/// A message makes a call.
spec fn calls_with(m: JsonView, c: JsonView) -> bool {
    is_legal(c) && (calls_of(m) matches Some(calls) && calls.contains(c))
}

proof fn lemma_called_has(msgs: Seq<JsonView>, w: int, c: JsonView)
    requires
        0 <= w < msgs.len(),
        calls_with(msgs[w], c),
    ensures
        called_ids(msgs).contains(call_id(c)),
    decreases msgs.len(),
{
    let t = msgs.drop_last();
    let all = called_ids(msgs);
    let head = called_ids(t);
    if w == msgs.len() - 1 {
        let calls = calls_of(msgs[w])->0;
        let k: int = choose|k: int| 0 <= k < calls.len() && calls[k] == c;
        lemma_legal_has(calls, k);
        let own = legal_ids(calls);
        let j: int = choose|j: int| 0 <= j < own.len() && own[j] == call_id(c);
        assert(all[head.len() + j] == own[j]);
    } else {
        assert(t[w] == msgs[w]);
        lemma_called_has(t, w, c);
        let j: int = choose|j: int| 0 <= j < head.len() && head[j] == call_id(c);
        assert(all[j] == head[j]);
    }
}

/// A message that speaks and calls nothing.
spec fn is_plain(m: JsonView) -> bool {
    !is_tool(m) && calls_of(m) is None
}

proof fn lemma_settled_plain(msgs: Seq<JsonView>, x: int, y: int) -> (r: (int, int))
    requires
        0 <= x <= y < msgs.len(),
        is_plain(msgs[x]),
        is_plain(msgs[y]),
    ensures
        0 <= r.0 <= r.1 < settled(msgs).len(),
        x < y ==> r.0 < r.1,
        settled(msgs)[r.0] == msgs[x],
        settled(msgs)[r.1] == msgs[y],
    decreases msgs.len(),
{
    let t = without_trailing_calls(msgs);
    lemma_without_trailing(msgs);
    assert(!makes_calls(msgs[x]) && !makes_calls(msgs[y]));
    assert(t[x] == msgs[x] && t[y] == msgs[y]);
    let s = stripped(t);
    lemma_place(t, x);
    lemma_place(t, y);
    if x < y {
        lemma_place_order(t, x, y);
    }
    let p = place(t, x);
    let q = place(t, y);
    if 0 < s.len() < msgs.len() && makes_calls(s.last()) {
        lemma_settled_plain(s, p, q)
    } else {
        (p, q)
    }
}

proof fn lemma_settled_answer(
    msgs: Seq<JsonView>,
    w: int,
    x: int,
    c: JsonView,
) -> (r: (int, int))
    requires
        0 <= w < x < msgs.len(),
        calls_with(msgs[w], c),
        is_tool(msgs[x]),
        msgs[x].str_at("tool_call_id"@) == Some(call_id(c)),
    ensures
        0 <= r.0 < r.1 < settled(msgs).len(),
        calls_with(settled(msgs)[r.0], c),
        settled(msgs)[r.1] == msgs[x],
    decreases msgs.len(),
{
    lemma_names();
    let t = without_trailing_calls(msgs);
    lemma_without_trailing(msgs);
    assert(!makes_calls(msgs[x]));
    assert(t[x] == msgs[x] && t[w] == msgs[w]);
    let s = stripped(t);
    let answered = answered_ids(t);
    lemma_answered_has(t, x);
    lemma_called_has(t, w, c);
    lemma_place(t, w);
    lemma_place(t, x);
    lemma_place_order(t, w, x);
    lemma_strip_keeps(answered, t[x]);
    lemma_strip_keeps(answered, t[w]);
    let p = place(t, w);
    let q = place(t, x);
    let calls = calls_of(t[w])->0;
    let keep = |d: JsonView| keeps_call(answered, d);
    let k: int = choose|k: int| 0 <= k < calls.len() && calls[k] == c;
    calls.lemma_filter_contains(keep, k);
    let kept = kept_calls(answered, calls);
    assert(kept == calls.filter(keep));
    assert(kept.contains(c));
    assert(kept.len() > 0);
    assert(calls_with(s[p], c));
    assert(s[q] == msgs[x]);
    if 0 < s.len() < msgs.len() && makes_calls(s.last()) {
        lemma_settled_answer(s, p, q, c)
    } else {
        (p, q)
    }
}

// ---------------------------------------------------------------------------
// Where events stand among the messages
// ---------------------------------------------------------------------------

spec fn spot(evs: Seq<EventView>, cut: Option<u64>, files: Seq<LoadedView>, i: int) -> int {
    messages_of(evs.take(i), cut, files).len() as int
}

proof fn lemma_spot(evs: Seq<EventView>, cut: Option<u64>, files: Seq<LoadedView>, i: int)
    requires
        0 <= i < evs.len(),
        in_context(evs[i], cut),
        message_of(evs[i], files) is Some,
    ensures
        0 <= spot(evs, cut, files, i) < messages_of(evs, cut, files).len(),
        Some(messages_of(evs, cut, files)[spot(evs, cut, files, i)]) == message_of(
            evs[i],
            files,
        ),
    decreases evs.len(),
{
    let t = evs.drop_last();
    if i == evs.len() - 1 {
        assert(evs.take(i) =~= t);
    } else {
        assert(t[i] == evs[i]);
        assert(t.take(i) =~= evs.take(i));
        lemma_spot(t, cut, files, i);
    }
}

proof fn lemma_spot_order(
    evs: Seq<EventView>,
    cut: Option<u64>,
    files: Seq<LoadedView>,
    i: int,
    j: int,
)
    requires
        0 <= i < j < evs.len(),
        in_context(evs[i], cut),
        message_of(evs[i], files) is Some,
    ensures
        spot(evs, cut, files, i) < spot(evs, cut, files, j),
{
    let u = evs.take(j);
    assert(u.take(i) =~= evs.take(i));
    assert(u[i] == evs[i]);
    lemma_spot(u, cut, files, i);
}

/// An event of the main conversation behind every marker's cut.
pub open spec fn is_seen(evs: Seq<EventView>, e: EventView) -> bool {
    &&& e.thread == "main"@
    &&& forall|k: int, n: u64|
        0 <= k < evs.len() && (#[trigger] evs[k]).kind == "marker"@ && #[trigger] holds(
            JsonView::Obj(evs[k].data),
            "until_seq"@,
            JsonView::Uint(n),
        ) ==> n < e.seq
}

proof fn lemma_seen(evs: Seq<EventView>, e: EventView)
    requires
        is_seen(evs, e),
    ensures
        in_context(e, last_cut(evs)),
{
    lemma_last_cut(evs);
    if let Some(c) = last_cut(evs) {
        let k: int = choose|k: int|
            0 <= k < evs.len() && marker_cut(#[trigger] evs[k]) == Some(c);
        assert(evs[k].kind == "marker"@);
        assert(holds(JsonView::Obj(evs[k].data), "until_seq"@, JsonView::Uint(c)));
    }
}

/// The names of kinds of events differ.
proof fn lemma_kinds()
    ensures
        "user"@ != "assistant"@,
        "user"@ != "tool_result"@,
        "user"@ != "subagent_result"@,
        "user"@ != "external"@,
        "assistant"@ != "tool_result"@,
        "assistant"@ != "subagent_result"@,
        "assistant"@ != "external"@,
        "tool_result"@ != "subagent_result"@,
        "tool_result"@ != "external"@,
        "subagent_result"@ != "external"@,
{
    reveal_strlit("user");
    reveal_strlit("assistant");
    reveal_strlit("tool_result");
    reveal_strlit("subagent_result");
    reveal_strlit("external");
    assert("user"@.len() == 4 && "assistant"@.len() == 9 && "tool_result"@.len() == 11);
    assert("subagent_result"@.len() == 15 && "external"@.len() == 8);
}

// ---------------------------------------------------------------------------
// Laws
// ---------------------------------------------------------------------------

/// What a note before a text makes of it: nothing when it is missing or blank.
pub open spec fn noted(d: JsonView, text: Seq<char>, whole: Seq<char>) -> bool {
    match text_in(d, "prefix"@) {
        None => whole == text,
        Some(p) => if is_blank(p) {
            whole == text
        } else {
            whole == "<prefix>"@ + p + "</prefix>"@ + text
        },
    }
}

/// An event that says a text in a role and neither calls nor carries anything else.
pub open spec fn says_in_role(e: EventView, role: Seq<char>, text: Seq<char>) -> bool {
    let d = JsonView::Obj(e.data);
    ||| e.kind == "assistant"@ && role == "assistant"@ && says(d, "content"@, text) && list_in(
        d,
        "tool_calls"@,
    ).len() == 0
    ||| e.kind == "user"@ && role == "user"@ && list_in(d, "attachments"@).len() == 0 && (text_in(
        d,
        "text"@,
    ) matches Some(t) && noted(d, t, text))
    ||| e.kind == "external"@ && role == "user"@ && (text_in(d, "what"@) matches Some(w) && noted(
        d,
        if text_in(d, "path"@) is None || text_in(d, "path"@) == Some(Seq::<char>::empty()) {
            "[外部] "@ + w
        } else {
            "[外部] "@ + w + " "@ + text_in(d, "path"@)->0
        },
        text,
    ))
}

proof fn lemma_says_in_role(
    e: EventView,
    role: Seq<char>,
    text: Seq<char>,
    files: Seq<LoadedView>,
)
    requires
        says_in_role(e, role, text),
    ensures
        message_of(e, files) matches Some(m) && is_saying(m, role, text) && is_plain(m),
{
    lemma_kinds();
    lemma_members();
    let d = JsonView::Obj(e.data);
    reveal_strlit("");
    assert(is_blank(Seq::<char>::empty()));
    if e.kind == "user"@ {
        let none = crate::context::attachments_of(d.get("attachments"@));
        assert(none =~= Seq::empty()) by {
            let a = list_in(d, "attachments"@);
            assert(crate::context::all_attachments(a) ==> none.len() == 0);
        }
        let whole = crate::context::prefixed(d.text_at("prefix"@), d.text_at("text"@));
        let parts = crate::llm::user_parts(whole, none, files);
        let head = if whole.len() == 0 {
            Seq::<JsonView>::empty()
        } else {
            seq![crate::llm::text_part(whole)]
        };
        assert(parts =~= head);
        assert(whole == text);
    }
    if e.kind == "external"@ {
        let path = d.text_at("path"@);
        if path.len() == 0 {
            assert(path =~= Seq::<char>::empty());
        }
    }
}

/// What was said behind the cut is in the context as it was said: the assistant's
/// answers word for word in the assistant's role, the user's and what came from outside
/// in the user's, and what was said first stands first.
pub proof fn lemma_said_in_order(
    evs: Seq<EventView>,
    pinned: PinnedBlocks,
    files: Seq<LoadedView>,
    windows: bool,
    i: int,
    j: int,
    first: Seq<char>,
    a: Seq<char>,
    second: Seq<char>,
    b: Seq<char>,
)
    requires
        0 <= i <= j < evs.len(),
        is_seen(evs, evs[i]),
        is_seen(evs, evs[j]),
        says_in_role(evs[i], first, a),
        says_in_role(evs[j], second, b),
    ensures
        ({
            let c = context_messages(evs, pinned, files, windows);
            exists|p: int, q: int|
                0 < p <= q < c.len() && (i < j ==> p < q) && is_saying(#[trigger] c[p], first, a)
                    && is_saying(#[trigger] c[q], second, b)
        }),
{
    let cut = last_cut(evs);
    lemma_seen(evs, evs[i]);
    lemma_seen(evs, evs[j]);
    lemma_says_in_role(evs[i], first, a, files);
    lemma_says_in_role(evs[j], second, b, files);
    let msgs = messages_of(evs, cut, files);
    lemma_spot(evs, cut, files, i);
    lemma_spot(evs, cut, files, j);
    if i < j {
        lemma_spot_order(evs, cut, files, i, j);
    }
    let x = spot(evs, cut, files, i);
    let y = spot(evs, cut, files, j);
    let (p, q) = lemma_settled_plain(msgs, x, y);
    let c = context_messages(evs, pinned, files, windows);
    assert(c[p + 1] == settled(msgs)[p] && c[q + 1] == settled(msgs)[q]);
    assert(is_saying(c[p + 1], first, a) && is_saying(c[q + 1], second, b));
}

/// A call that the assistant made behind the cut and that a tool answered after it is in
/// the context with its answer behind it: the same call, and the result word for word
/// under the call's id.
pub proof fn lemma_answered_call_seen(
    evs: Seq<EventView>,
    pinned: PinnedBlocks,
    files: Seq<LoadedView>,
    windows: bool,
    i: int,
    j: int,
    call: JsonView,
    id: Seq<char>,
    name: Seq<char>,
    args: Seq<char>,
    result: Seq<char>,
)
    requires
        0 <= i < j < evs.len(),
        is_seen(evs, evs[i]),
        is_seen(evs, evs[j]),
        is_call(call, id, name, args),
        id.len() > 0,
        name.len() > 0,
        evs[i].kind == "assistant"@,
        list_in(JsonView::Obj(evs[i].data), "tool_calls"@).contains(call),
        evs[j].kind == "tool_result"@,
        says(JsonView::Obj(evs[j].data), "call_id"@, id),
        says(JsonView::Obj(evs[j].data), "result"@, result),
    ensures
        ({
            let c = context_messages(evs, pinned, files, windows);
            exists|p: int, q: int|
                0 < p < q < c.len() && says(#[trigger] c[p], "role"@, "assistant"@) && list_in(
                    c[p],
                    "tool_calls"@,
                ).contains(call) && is_answer(#[trigger] c[q], id, result)
        }),
{
    lemma_kinds();
    lemma_members();
    let cut = last_cut(evs);
    lemma_seen(evs, evs[i]);
    lemma_seen(evs, evs[j]);
    let msgs = messages_of(evs, cut, files);
    lemma_spot(evs, cut, files, i);
    lemma_spot(evs, cut, files, j);
    lemma_spot_order(evs, cut, files, i, j);
    let x = spot(evs, cut, files, i);
    let y = spot(evs, cut, files, j);
    assert(calls_with(msgs[x], call));
    assert(is_tool(msgs[y]));
    let (p, q) = lemma_settled_answer(msgs, x, y, call);
    let c = context_messages(evs, pinned, files, windows);
    assert(c[p + 1] == settled(msgs)[p] && c[q + 1] == settled(msgs)[q]);
    assert(says(c[p + 1], "role"@, "assistant"@) && is_answer(c[q + 1], id, result));
}

/// A block of the system message under its heading; nothing when it is missing or
/// blank.
pub open spec fn block(heading: Seq<char>, body: Option<Seq<char>>) -> Seq<char> {
    match body {
        Some(b) => if is_blank(b) {
            Seq::empty()
        } else {
            "\n\n"@ + heading + "\n"@ + b
        },
        None => Seq::empty(),
    }
}

/// The context begins with the system message: the prompt, what the shell is, and the
/// blocks that there are, each once and in this order.
pub proof fn lemma_system_first(
    evs: Seq<EventView>,
    pinned: PinnedBlocks,
    files: Seq<LoadedView>,
    windows: bool,
)
    ensures
        ({
            let c = context_messages(evs, pinned, files, windows);
            let hint = if windows {
                crate::context::WINDOWS_HINT@
            } else {
                crate::context::POSIX_HINT@
            };
            c.len() > 0 && is_saying(
                c[0],
                "system"@,
                trim_end(pinned.system_prompt@) + "\n\n"@ + hint + block(
                    "# 灵魂（SOUL.md）"@,
                    opt_text(pinned.soul),
                ) + block("# 工具与规范（AGENT.md）"@, opt_text(pinned.agent)) + block(
                    "# 记忆索引（MEMORY.md）"@,
                    opt_text(pinned.memory),
                ),
            )
        }),
{
    lemma_members();
    let c = context_messages(evs, pinned, files, windows);
    let hint = crate::context::env_hint(windows);
    let head = trim_end(pinned.system_prompt@) + "\n\n"@ + hint;
    let soul = head + block("# 灵魂（SOUL.md）"@, opt_text(pinned.soul));
    let agent = soul + block("# 工具与规范（AGENT.md）"@, opt_text(pinned.agent));
    let all = agent + block("# 记忆索引（MEMORY.md）"@, opt_text(pinned.memory));
    lemma_block(head, "# 灵魂（SOUL.md）"@, opt_text(pinned.soul));
    lemma_block(soul, "# 工具与规范（AGENT.md）"@, opt_text(pinned.agent));
    lemma_block(agent, "# 记忆索引（MEMORY.md）"@, opt_text(pinned.memory));
    assert(c[0] == pinned_message(pinned, windows));
    assert(crate::context::pinned_text(pinned, windows) =~= all);
}

proof fn lemma_block(s: Seq<char>, heading: Seq<char>, body: Option<Seq<char>>)
    ensures
        crate::context::with_block(s, heading, body) == s + block(heading, body),
{
    assert(crate::context::with_block(s, heading, body) =~= s + block(heading, body));
}

proof fn lemma_legal_from(calls: Seq<JsonView>, id: Seq<char>)
    requires
        legal_ids(calls).contains(id),
    ensures
        exists|k: int| 0 <= k < calls.len() && is_legal(#[trigger] calls[k]) && call_id(calls[k]) == id,
    decreases calls.len(),
{
    let all = legal_ids(calls);
    let j: int = choose|j: int| 0 <= j < all.len() && all[j] == id;
    if calls.len() > 0 {
        let t = calls.drop_last();
        let head = legal_ids(t);
        if j < head.len() {
            assert(head[j] == id);
            lemma_legal_from(t, id);
            let k: int = choose|k: int|
                0 <= k < t.len() && is_legal(#[trigger] t[k]) && call_id(t[k]) == id;
            assert(calls[k] == t[k]);
        } else {
            assert(is_legal(calls[calls.len() - 1]));
        }
    }
}

/// A message of the assistant's that makes a call with an id.
pub open spec fn calls_id(m: JsonView, id: Seq<char>) -> bool {
    says(m, "role"@, "assistant"@) && exists|k: int|
        0 <= k < list_in(m, "tool_calls"@).len() && says(
            #[trigger] list_in(m, "tool_calls"@)[k],
            "id"@,
            id,
        )
}

proof fn lemma_called_from(msgs: Seq<JsonView>, id: Seq<char>)
    requires
        called_ids(msgs).contains(id),
    ensures
        exists|p: int| 0 <= p < msgs.len() && calls_id(#[trigger] msgs[p], id),
    decreases msgs.len(),
{
    let all = called_ids(msgs);
    let j: int = choose|j: int| 0 <= j < all.len() && all[j] == id;
    if msgs.len() > 0 {
        let t = msgs.drop_last();
        let head = called_ids(t);
        if j < head.len() {
            assert(head[j] == id);
            lemma_called_from(t, id);
            let p: int = choose|p: int| 0 <= p < t.len() && calls_id(#[trigger] t[p], id);
            assert(msgs[p] == t[p]);
        } else {
            let m = msgs[msgs.len() - 1];
            let calls = calls_of(m)->0;
            let own = legal_ids(calls);
            assert(own[j - head.len()] == id);
            lemma_legal_from(calls, id);
            let k: int = choose|k: int|
                0 <= k < calls.len() && is_legal(#[trigger] calls[k]) && call_id(calls[k]) == id;
            assert(list_in(m, "tool_calls"@) == calls);
            assert(says(list_in(m, "tool_calls"@)[k], "id"@, id));
            assert(calls_id(m, id));
        }
    }
}

/// In a context nothing is left hanging: a tool's result has its call, a call has its
/// result, and the last message calls nothing.
pub proof fn lemma_nothing_hangs(
    evs: Seq<EventView>,
    pinned: PinnedBlocks,
    files: Seq<LoadedView>,
    windows: bool,
    q: int,
    k: int,
    id: Seq<char>,
)
    requires
        0 <= q < context_messages(evs, pinned, files, windows).len(),
    ensures
        ({
            let c = context_messages(evs, pinned, files, windows);
            &&& answers(c[q], id) ==> exists|p: int|
                0 <= p < c.len() && calls_id(#[trigger] c[p], id)
            &&& says(c[q], "role"@, "assistant"@) && 0 <= k < list_in(c[q], "tool_calls"@).len()
                && says(list_in(c[q], "tool_calls"@)[k], "id"@, id) ==> exists|p: int|
                0 <= p < c.len() && answers(#[trigger] c[p], id)
            &&& says(c.last(), "role"@, "assistant"@) ==> list_in(c.last(), "tool_calls"@).len()
                == 0
        }),
{
    let c = context_messages(evs, pinned, files, windows);
    crate::context::lemma_context_answers(evs, pinned, files, windows);
    crate::context::lemma_context_calls(evs, pinned, files, windows);
    if answers(c[q], id) {
        assert(keeps_message(called_ids(c), c[q]));
        lemma_called_from(c, id);
    }
    if says(c[q], "role"@, "assistant"@) && 0 <= k < list_in(c[q], "tool_calls"@).len() && says(
        list_in(c[q], "tool_calls"@)[k],
        "id"@,
        id,
    ) {
        let calls = calls_of(c[q])->0;
        assert(calls == list_in(c[q], "tool_calls"@));
        assert(keeps_call(answered_ids(c), calls[k]));
        lemma_answered_by(c, id);
    }
}

/// A subagent's end reads with its id, how it ended, all of its summary and where its
/// conversation is.
pub proof fn lemma_subagent_said(
    e: EventView,
    files: Seq<LoadedView>,
    id: Seq<char>,
    summary: Seq<char>,
    refs: Seq<char>,
    ok: bool,
    whole: Seq<char>,
)
    requires
        e.kind == "subagent_result"@,
        says(JsonView::Obj(e.data), "agent_id"@, id),
        says(JsonView::Obj(e.data), "summary"@, summary),
        says(JsonView::Obj(e.data), "ref"@, refs),
        holds(JsonView::Obj(e.data), "ok"@, JsonView::Bool(ok)),
        crate::cut::byte_len(summary) <= 131072,
        noted(
            JsonView::Obj(e.data),
            "[子代理 #"@ + id + " "@ + (if ok {
                "完成"@
            } else {
                "失败"@
            }) + "] "@ + summary + " [完整对话: "@ + refs + "]"@,
            whole,
        ),
    ensures
        message_of(e, files) matches Some(m) && is_saying(m, "user"@, whole),
{
    lemma_kinds();
    lemma_members();
    assert(is_blank(Seq::<char>::empty()));
}

/// The files of documents and texts that the user attached behind the cut are read for
/// the context; pictures and videos are not.
pub proof fn lemma_files_read(evs: Seq<EventView>, i: int, a: AttachmentView)
    requires
        0 <= i < evs.len(),
        is_seen(evs, evs[i]),
        evs[i].kind == "user"@,
        attachments_of(super::member(JsonView::Obj(evs[i].data), "attachments"@)).contains(a),
    ensures
        a.kind == "pdf"@ || a.kind == "docx"@ || a.kind == "text"@ || a.kind == "markdown"@
            || a.kind == "csv"@ ==> files_wanted(evs, last_cut(evs)).contains(a),
{
    lemma_seen(evs, evs[i]);
    let d = JsonView::Obj(evs[i].data);
    assert(d.get("attachments"@) == super::member(d, "attachments"@));
    let atts = attachments_of(d.get("attachments"@));
    let p = |x: AttachmentView| crate::context::wants_file(x);
    let k: int = choose|k: int| 0 <= k < atts.len() && atts[k] == a;
    if p(a) {
        atts.lemma_filter_contains(p, k);
        assert(crate::context::event_files(evs[i], last_cut(evs)) == atts.filter(p));
        lemma_wanted(evs, last_cut(evs), i, a);
    }
}

proof fn lemma_wanted(evs: Seq<EventView>, cut: Option<u64>, i: int, a: AttachmentView)
    requires
        0 <= i < evs.len(),
        crate::context::event_files(evs[i], cut).contains(a),
    ensures
        files_wanted(evs, cut).contains(a),
    decreases evs.len(),
{
    let t = evs.drop_last();
    let all = files_wanted(evs, cut);
    let head = files_wanted(t, cut);
    if i < t.len() {
        assert(t[i] == evs[i]);
        lemma_wanted(t, cut, i, a);
        let k: int = choose|k: int| 0 <= k < head.len() && head[k] == a;
        assert(all[k] == a);
    } else {
        let own = crate::context::event_files(evs[i], cut);
        let k: int = choose|k: int| 0 <= k < own.len() && own[k] == a;
        assert(all[head.len() + k] == a);
    }
}

} // verus!
