//! Tool calls and their answers: what a list of messages may hold so that the
//! service accepts it.
use crate::json::{jsons, lemma_jsons_at, lemma_jsons_len, lemma_jsons_push, Json, JsonView};
use crate::text::{lemma_filter_weaker, list_has, texts};
use vstd::prelude::*;

verus! {

/// The id of a tool call, empty when it has none.
pub open spec fn call_id(c: JsonView) -> Seq<char> {
    c.text_at("id"@)
}

/// The name of the tool that a call asks for, empty when it has none.
pub open spec fn call_name(c: JsonView) -> Seq<char> {
    match c.get("function"@) {
        Some(f) => f.text_at("name"@),
        None => Seq::empty(),
    }
}

/// A call with an id and a name.
pub open spec fn is_legal(c: JsonView) -> bool {
    call_id(c).len() > 0 && call_name(c).len() > 0
}

/// A message of the assistant.
pub open spec fn is_assistant(m: JsonView) -> bool {
    m.str_at("role"@) == Some("assistant"@)
}

/// A message with a tool's result.
pub open spec fn is_tool(m: JsonView) -> bool {
    m.str_at("role"@) == Some("tool"@)
}

/// The calls that a message makes, when it is one of the assistant's and has a
/// list of them.
pub open spec fn calls_of(m: JsonView) -> Option<Seq<JsonView>> {
    if is_assistant(m) {
        m.array_at("tool_calls"@)
    } else {
        None
    }
}

/// The call that a tool's result answers, empty when it names none.
pub open spec fn answer_id(m: JsonView) -> Seq<char> {
    m.text_at("tool_call_id"@)
}

/// The ids of the legal calls in a list.
pub open spec fn legal_ids(calls: Seq<JsonView>) -> Seq<Seq<char>>
    decreases calls.len(),
{
    if calls.len() == 0 {
        Seq::empty()
    } else {
        let head = legal_ids(calls.drop_last());
        if is_legal(calls.last()) {
            head.push(call_id(calls.last()))
        } else {
            head
        }
    }
}

/// The ids of the legal calls that messages make.
pub open spec fn called_ids(msgs: Seq<JsonView>) -> Seq<Seq<char>>
    decreases msgs.len(),
{
    if msgs.len() == 0 {
        Seq::empty()
    } else {
        let head = called_ids(msgs.drop_last());
        match calls_of(msgs.last()) {
            Some(calls) => head + legal_ids(calls),
            None => head,
        }
    }
}

/// The ids that tools' results among messages answer.
pub open spec fn answered_ids(msgs: Seq<JsonView>) -> Seq<Seq<char>>
    decreases msgs.len(),
{
    if msgs.len() == 0 {
        Seq::empty()
    } else {
        let head = answered_ids(msgs.drop_last());
        let m = msgs.last();
        if is_tool(m) && m.str_at("tool_call_id"@) is Some {
            head.push(answer_id(m))
        } else {
            head
        }
    }
}

/// A call that is kept: legal and answered.
pub open spec fn keeps_call(answered: Seq<Seq<char>>, c: JsonView) -> bool {
    is_legal(c) && answered.contains(call_id(c))
}

/// The calls that are kept.
pub open spec fn kept_calls(answered: Seq<Seq<char>>, calls: Seq<JsonView>) -> Seq<JsonView> {
    calls.filter(|c: JsonView| keeps_call(answered, c))
}

/// A message of the assistant without calls. A content that is missing or null
/// becomes an empty text.
pub open spec fn as_plain(m: JsonView) -> JsonView {
    match m {
        JsonView::Obj(f) => {
            let g = if !f.contains_key("content"@) || f["content"@] is Null {
                f.insert("content"@, JsonView::Str(""@))
            } else {
                f
            };
            JsonView::Obj(g.remove("tool_calls"@))
        },
        _ => m,
    }
}

/// A message without the calls that are not kept. One that loses all its calls
/// becomes a plain message.
pub open spec fn strip_message(answered: Seq<Seq<char>>, m: JsonView) -> JsonView {
    match calls_of(m) {
        Some(calls) => {
            let kept = kept_calls(answered, calls);
            if kept.len() == 0 && calls.len() > 0 {
                as_plain(m)
            } else {
                m.with("tool_calls"@, JsonView::Arr(kept))
            }
        },
        None => m,
    }
}

/// A message that is kept: any but a tool's result, and a tool's result that
/// answers a legal call.
pub open spec fn keeps_message(called: Seq<Seq<char>>, m: JsonView) -> bool {
    !is_tool(m) || (answer_id(m).len() > 0 && called.contains(answer_id(m)))
}

/// The messages without calls that nothing answers and without answers that
/// nothing calls for.
pub open spec fn stripped(msgs: Seq<JsonView>) -> Seq<JsonView> {
    let answered = answered_ids(msgs);
    let called = called_ids(msgs);
    msgs.map_values(|m: JsonView| strip_message(answered, m)).filter(
        |m: JsonView| keeps_message(called, m),
    )
}

/// Every call is legal and answered, and every answer is to a legal call.
pub open spec fn is_paired(msgs: Seq<JsonView>) -> bool {
    &&& forall|i: int|
        0 <= i < msgs.len() ==> (calls_of(#[trigger] msgs[i]) matches Some(calls) ==> forall|k: int|

            0 <= k < calls.len() ==> keeps_call(answered_ids(msgs), #[trigger] calls[k]))
    &&& forall|i: int| 0 <= i < msgs.len() ==> keeps_message(called_ids(msgs), #[trigger] msgs[i])
}

// ---------------------------------------------------------------------------
// Membership
// ---------------------------------------------------------------------------

proof fn lemma_legal_ids(calls: Seq<JsonView>, id: Seq<char>)
    ensures
        legal_ids(calls).contains(id) <==> exists|k: int|
            0 <= k < calls.len() && is_legal(#[trigger] calls[k]) && call_id(calls[k]) == id,
    decreases calls.len(),
{
    if calls.len() > 0 {
        let head = calls.drop_last();
        lemma_legal_ids(head, id);
        let all = legal_ids(calls);
        let part = legal_ids(head);
        if all.contains(id) {
            let j = choose|j: int| 0 <= j < all.len() && all[j] == id;
            if j < part.len() {
                assert(part[j] == id);
                let k = choose|k: int|
                    0 <= k < head.len() && is_legal(#[trigger] head[k]) && call_id(head[k]) == id;
                assert(calls[k] == head[k]);
            } else {
                assert(calls[calls.len() - 1] == calls.last());
            }
        }
        if exists|k: int|
            0 <= k < calls.len() && is_legal(#[trigger] calls[k]) && call_id(calls[k]) == id {
            let k = choose|k: int|
                0 <= k < calls.len() && is_legal(#[trigger] calls[k]) && call_id(calls[k]) == id;
            if k < head.len() {
                assert(head[k] == calls[k]);
                assert(part.contains(id));
                let j = choose|j: int| 0 <= j < part.len() && part[j] == id;
                assert(all[j] == id);
            } else {
                assert(all[all.len() - 1] == id);
            }
        }
    }
}

proof fn lemma_called_ids(msgs: Seq<JsonView>, id: Seq<char>)
    ensures
        called_ids(msgs).contains(id) <==> exists|i: int|
            0 <= i < msgs.len() && (calls_of(#[trigger] msgs[i]) matches Some(calls) && legal_ids(
                calls,
            ).contains(id)),
    decreases msgs.len(),
{
    if msgs.len() > 0 {
        let head = msgs.drop_last();
        lemma_called_ids(head, id);
        let all = called_ids(msgs);
        let part = called_ids(head);
        if all.contains(id) {
            let j = choose|j: int| 0 <= j < all.len() && all[j] == id;
            if j < part.len() {
                assert(part[j] == id);
                let i = choose|i: int|
                    0 <= i < head.len() && (calls_of(#[trigger] head[i]) matches Some(calls)
                        && legal_ids(calls).contains(id));
                assert(msgs[i] == head[i]);
            } else {
                let last = legal_ids(calls_of(msgs.last())->0);
                assert(last[j - part.len()] == id);
                assert(msgs[msgs.len() - 1] == msgs.last());
            }
        }
        if exists|i: int|
            0 <= i < msgs.len() && (calls_of(#[trigger] msgs[i]) matches Some(calls) && legal_ids(
                calls,
            ).contains(id)) {
            let i = choose|i: int|
                0 <= i < msgs.len() && (calls_of(#[trigger] msgs[i]) matches Some(calls)
                    && legal_ids(calls).contains(id));
            if i < head.len() {
                assert(head[i] == msgs[i]);
                let j = choose|j: int| 0 <= j < part.len() && part[j] == id;
                assert(all[j] == id);
            } else {
                let last = legal_ids(calls_of(msgs.last())->0);
                let j = choose|j: int| 0 <= j < last.len() && last[j] == id;
                assert(all[part.len() + j] == id);
            }
        }
    }
}

proof fn lemma_answered_ids(msgs: Seq<JsonView>, id: Seq<char>)
    ensures
        answered_ids(msgs).contains(id) <==> exists|i: int|
            0 <= i < msgs.len() && is_tool(#[trigger] msgs[i]) && msgs[i].str_at("tool_call_id"@)
                == Some(id),
    decreases msgs.len(),
{
    if msgs.len() > 0 {
        let head = msgs.drop_last();
        lemma_answered_ids(head, id);
        let all = answered_ids(msgs);
        let part = answered_ids(head);
        if all.contains(id) {
            let j = choose|j: int| 0 <= j < all.len() && all[j] == id;
            if j < part.len() {
                assert(part[j] == id);
                let i = choose|i: int|
                    0 <= i < head.len() && is_tool(#[trigger] head[i]) && head[i].str_at(
                        "tool_call_id"@,
                    ) == Some(id);
                assert(msgs[i] == head[i]);
            } else {
                assert(msgs[msgs.len() - 1] == msgs.last());
            }
        }
        if exists|i: int|
            0 <= i < msgs.len() && is_tool(#[trigger] msgs[i]) && msgs[i].str_at("tool_call_id"@)
                == Some(id) {
            let i = choose|i: int|
                0 <= i < msgs.len() && is_tool(#[trigger] msgs[i]) && msgs[i].str_at(
                    "tool_call_id"@,
                ) == Some(id);
            if i < head.len() {
                assert(head[i] == msgs[i]);
                let j = choose|j: int| 0 <= j < part.len() && part[j] == id;
                assert(all[j] == id);
            } else {
                assert(all[all.len() - 1] == id);
            }
        }
    }
}

// ---------------------------------------------------------------------------
// Stripping
// ---------------------------------------------------------------------------

/// The names of a message's members differ.
pub proof fn lemma_names()
    ensures
        "role"@ != "tool_calls"@,
        "role"@ != "content"@,
        "role"@ != "tool_call_id"@,
        "tool_calls"@ != "content"@,
        "tool_call_id"@ != "tool_calls"@,
        "tool_call_id"@ != "content"@,
        "assistant"@ != "tool"@,
        "user"@ != "tool"@,
        "user"@ != "assistant"@,
        "system"@ != "tool"@,
        "system"@ != "assistant"@,
        ""@.len() == 0,
{
    reveal_strlit("role");
    reveal_strlit("tool_calls");
    reveal_strlit("content");
    reveal_strlit("tool_call_id");
    reveal_strlit("assistant");
    reveal_strlit("tool");
    reveal_strlit("user");
    reveal_strlit("system");
    reveal_strlit("");
    assert("role"@.len() == 4 && "tool_calls"@.len() == 10 && "content"@.len() == 7);
    assert("tool_call_id"@.len() == 12 && "assistant"@.len() == 9 && "tool"@.len() == 4);
    assert("user"@.len() == 4 && "system"@.len() == 6);
    assert("user"@[0] == 'u' && "tool"@[0] == 't');
}

/// Stripping a message changes neither its role nor the call that it answers.
pub proof fn lemma_strip_keeps(answered: Seq<Seq<char>>, m: JsonView)
    ensures
        strip_message(answered, m).str_at("role"@) == m.str_at("role"@),
        is_tool(m) ==> strip_message(answered, m) == m,
        calls_of(m) matches Some(calls) ==> {
            let kept = kept_calls(answered, calls);
            calls_of(strip_message(answered, m)) == (if kept.len() == 0 && calls.len() > 0 {
                None
            } else {
                Some(kept)
            })
        },
        calls_of(m) is None ==> strip_message(answered, m) == m,
{
    lemma_names();
}

proof fn lemma_filter_all<A>(s: Seq<A>, p: spec_fn(A) -> bool)
    requires
        forall|i: int| 0 <= i < s.len() ==> p(#[trigger] s[i]),
    ensures
        s.filter(p) == s,
    decreases s.len(),
{
    reveal(Seq::filter);
    if s.len() > 0 {
        let t = s.drop_last();
        assert forall|i: int| 0 <= i < t.len() implies p(#[trigger] t[i]) by {
            assert(t[i] == s[i]);
        }
        lemma_filter_all(t, p);
        assert(p(s[s.len() - 1]));
        assert(t.push(s.last()) =~= s);
    }
}

/// A message of the stripped list comes from one of the list's.
pub proof fn lemma_stripped_source(msgs: Seq<JsonView>, j: int) -> (i: int)
    requires
        0 <= j < stripped(msgs).len(),
    ensures
        0 <= i < msgs.len(),
        stripped(msgs)[j] == strip_message(answered_ids(msgs), msgs[i]),
        keeps_message(called_ids(msgs), stripped(msgs)[j]),
{
    let answered = answered_ids(msgs);
    let called = called_ids(msgs);
    let f = |m: JsonView| strip_message(answered, m);
    let p = |m: JsonView| keeps_message(called, m);
    let mapped = msgs.map_values(f);
    let x = stripped(msgs)[j];
    mapped.lemma_filter_pred(p, j);
    assert(mapped.filter(p).contains(x));
    mapped.lemma_filter_contains_rev(p, x);
    let i = choose|i: int| 0 <= i < mapped.len() && mapped[i] == x;
    assert(mapped[i] == f(msgs[i]));
    i
}

/// A message of the list that is kept stands in the stripped list.
pub proof fn lemma_stripped_holds(msgs: Seq<JsonView>, i: int) -> (j: int)
    requires
        0 <= i < msgs.len(),
        keeps_message(called_ids(msgs), strip_message(answered_ids(msgs), msgs[i])),
    ensures
        0 <= j < stripped(msgs).len(),
        stripped(msgs)[j] == strip_message(answered_ids(msgs), msgs[i]),
{
    let answered = answered_ids(msgs);
    let called = called_ids(msgs);
    let f = |m: JsonView| strip_message(answered, m);
    let p = |m: JsonView| keeps_message(called, m);
    let mapped = msgs.map_values(f);
    assert(mapped[i] == f(msgs[i]));
    mapped.lemma_filter_contains(p, i);
    let x = mapped[i];
    choose|j: int| 0 <= j < mapped.filter(p).len() && mapped.filter(p)[j] == x
}

/// What is answered by an id that a legal call has is still answered after
/// stripping.
proof fn lemma_answers_stay(msgs: Seq<JsonView>, id: Seq<char>)
    requires
        id.len() > 0,
        called_ids(msgs).contains(id),
        answered_ids(msgs).contains(id),
    ensures
        answered_ids(stripped(msgs)).contains(id),
{
    lemma_names();
    lemma_answered_ids(msgs, id);
    let i = choose|i: int|
        0 <= i < msgs.len() && is_tool(#[trigger] msgs[i]) && msgs[i].str_at("tool_call_id"@)
            == Some(id);
    lemma_strip_keeps(answered_ids(msgs), msgs[i]);
    let j = lemma_stripped_holds(msgs, i);
    lemma_answered_ids(stripped(msgs), id);
    assert(is_tool(stripped(msgs)[j]));
}

/// A legal call that is answered is still made after stripping.
proof fn lemma_calls_stay(msgs: Seq<JsonView>, id: Seq<char>)
    requires
        called_ids(msgs).contains(id),
        answered_ids(msgs).contains(id),
    ensures
        called_ids(stripped(msgs)).contains(id),
{
    lemma_names();
    let answered = answered_ids(msgs);
    lemma_called_ids(msgs, id);
    let i = choose|i: int|
        0 <= i < msgs.len() && (calls_of(#[trigger] msgs[i]) matches Some(calls) && legal_ids(
            calls,
        ).contains(id));
    let calls = calls_of(msgs[i])->0;
    lemma_legal_ids(calls, id);
    let k = choose|k: int|
        0 <= k < calls.len() && is_legal(#[trigger] calls[k]) && call_id(calls[k]) == id;
    let p = |c: JsonView| keeps_call(answered, c);
    calls.lemma_filter_contains(p, k);
    let kept = kept_calls(answered, calls);
    let q = choose|q: int| 0 <= q < kept.len() && kept[q] == calls[k];
    lemma_strip_keeps(answered, msgs[i]);
    let j = lemma_stripped_holds(msgs, i);
    assert(calls_of(stripped(msgs)[j]) == Some(kept));
    lemma_legal_ids(kept, id);
    assert(is_legal(kept[q]) && call_id(kept[q]) == id);
    lemma_called_ids(stripped(msgs), id);
}

/// After stripping, every call is legal and answered, and every answer is to a
/// legal call.
pub proof fn lemma_stripped_paired(msgs: Seq<JsonView>)
    ensures
        is_paired(stripped(msgs)),
{
    lemma_names();
    let answered = answered_ids(msgs);
    let out = stripped(msgs);
    assert forall|j: int| 0 <= j < out.len() implies (calls_of(#[trigger] out[j]) matches Some(
        calls,
    ) ==> forall|k: int|
        0 <= k < calls.len() ==> keeps_call(answered_ids(out), #[trigger] calls[k])) by {
        let i = lemma_stripped_source(msgs, j);
        lemma_strip_keeps(answered, msgs[i]);
        if let Some(kept) = calls_of(out[j]) {
            let calls = calls_of(msgs[i])->0;
            let p = |c: JsonView| keeps_call(answered, c);
            assert(kept == calls.filter(p));
            assert forall|k: int| 0 <= k < kept.len() implies keeps_call(
                answered_ids(out),
                #[trigger] kept[k],
            ) by {
                calls.lemma_filter_pred(p, k);
                assert(kept.contains(kept[k]));
                calls.lemma_filter_contains_rev(p, kept[k]);
                let id = call_id(kept[k]);
                let q = choose|q: int| 0 <= q < calls.len() && calls[q] == kept[k];
                assert(is_legal(calls[q]) && call_id(calls[q]) == id);
                lemma_legal_ids(calls, id);
                lemma_called_ids(msgs, id);
                lemma_answers_stay(msgs, id);
            }
        }
    }
    assert forall|j: int| 0 <= j < out.len() implies keeps_message(
        called_ids(out),
        #[trigger] out[j],
    ) by {
        let i = lemma_stripped_source(msgs, j);
        lemma_strip_keeps(answered, msgs[i]);
        if is_tool(out[j]) {
            assert(out[j] == msgs[i]);
            let id = answer_id(out[j]);
            lemma_answered_ids(msgs, id);
            lemma_calls_stay(msgs, id);
        }
    }
}

/// Messages that are paired already stay as they are.
pub proof fn lemma_paired_unchanged(msgs: Seq<JsonView>)
    requires
        is_paired(msgs),
    ensures
        stripped(msgs) == msgs,
{
    lemma_names();
    let answered = answered_ids(msgs);
    let called = called_ids(msgs);
    let f = |m: JsonView| strip_message(answered, m);
    let p = |m: JsonView| keeps_message(called, m);
    assert forall|i: int| 0 <= i < msgs.len() implies f(#[trigger] msgs[i]) == msgs[i] by {
        if let Some(calls) = calls_of(msgs[i]) {
            lemma_filter_all(calls, |c: JsonView| keeps_call(answered, c));
            let m = msgs[i]->Obj_0;
            assert(m.insert("tool_calls"@, JsonView::Arr(calls)) =~= m);
        }
    }
    assert(msgs.map_values(f) =~= msgs);
    lemma_filter_all(msgs, p);
}

/// Stripping twice strips no more than stripping once.
pub proof fn lemma_stripped_idempotent(msgs: Seq<JsonView>)
    ensures
        stripped(stripped(msgs)) == stripped(msgs),
{
    lemma_stripped_paired(msgs);
    lemma_paired_unchanged(stripped(msgs));
}

// ---------------------------------------------------------------------------
// Execution
// ---------------------------------------------------------------------------

/// The id of a tool call.
pub fn id_of_call(c: &Json) -> (r: &str)
    ensures
        r@ == call_id(c@),
{
    c.text_at("id")
}

/// The name of the tool that a call asks for.
pub fn name_of_call(c: &Json) -> (r: &str)
    ensures
        r@ == call_name(c@),
{
    match c.get("function") {
        Some(f) => f.text_at("name"),
        None => {
            proof {
                reveal_strlit("");
                assert(""@ =~= Seq::<char>::empty());
            }
            ""
        },
    }
}

fn legal(c: &Json) -> (r: bool)
    ensures
        r == is_legal(c@),
{
    !id_of_call(c).is_empty() && !name_of_call(c).is_empty()
}

/// The calls that a message makes.
pub fn message_calls(m: &Json) -> (r: Option<&Vec<Json>>)
    ensures
        match r {
            Some(v) => calls_of(m@) == Some(jsons(v@)),
            None => calls_of(m@) is None,
        },
{
    if m.is_at("role", "assistant") {
        m.array_at("tool_calls")
    } else {
        None
    }
}

fn collect_called(msgs: &Vec<Json>) -> (r: Vec<String>)
    ensures
        texts(r@) == called_ids(jsons(msgs@)),
{
    let mut out: Vec<String> = Vec::new();
    let mut i: usize = 0;
    proof {
        lemma_jsons_len(msgs@);
    }
    while i < msgs.len()
        invariant
            i <= msgs@.len(),
            jsons(msgs@).len() == msgs@.len(),
            texts(out@) == called_ids(jsons(msgs@).take(i as int)),
        decreases msgs@.len() - i,
    {
        proof {
            lemma_jsons_at(msgs@, i as int);
            let t = jsons(msgs@).take(i + 1);
            assert(t.drop_last() =~= jsons(msgs@).take(i as int));
            assert(t.last() == msgs@[i as int]@);
        }
        if let Some(calls) = message_calls(&msgs[i]) {
            let ghost before = texts(out@);
            let mut k: usize = 0;
            proof {
                lemma_jsons_len(calls@);
                assert(before + legal_ids(jsons(calls@).take(0)) =~= before);
            }
            while k < calls.len()
                invariant
                    k <= calls@.len(),
                    jsons(calls@).len() == calls@.len(),
                    texts(out@) == before + legal_ids(jsons(calls@).take(k as int)),
                decreases calls@.len() - k,
            {
                proof {
                    lemma_jsons_at(calls@, k as int);
                    let t = jsons(calls@).take(k + 1);
                    assert(t.drop_last() =~= jsons(calls@).take(k as int));
                    assert(t.last() == calls@[k as int]@);
                }
                if legal(&calls[k]) {
                    let ghost prev = out@;
                    let id = id_of_call(&calls[k]);
                    out.push(id.to_owned());
                    assert(texts(out@) =~= texts(prev).push(id@));
                    assert(texts(out@) =~= before + legal_ids(jsons(calls@).take(k + 1)));
                }
                k = k + 1;
            }
            assert(jsons(calls@).take(k as int) =~= jsons(calls@));
        }
        i = i + 1;
    }
    assert(jsons(msgs@).take(i as int) =~= jsons(msgs@));
    out
}

/// The ids that tools' results among messages answer.
pub fn collect_answered(msgs: &Vec<Json>) -> (r: Vec<String>)
    ensures
        texts(r@) == answered_ids(jsons(msgs@)),
{
    let mut out: Vec<String> = Vec::new();
    let mut i: usize = 0;
    proof {
        lemma_jsons_len(msgs@);
    }
    while i < msgs.len()
        invariant
            i <= msgs@.len(),
            jsons(msgs@).len() == msgs@.len(),
            texts(out@) == answered_ids(jsons(msgs@).take(i as int)),
        decreases msgs@.len() - i,
    {
        proof {
            lemma_jsons_at(msgs@, i as int);
            let t = jsons(msgs@).take(i + 1);
            assert(t.drop_last() =~= jsons(msgs@).take(i as int));
            assert(t.last() == msgs@[i as int]@);
        }
        if msgs[i].is_at("role", "tool") {
            if let Some(id) = msgs[i].str_at("tool_call_id") {
                let ghost prev = out@;
                out.push(id.to_owned());
                assert(texts(out@) =~= texts(prev).push(id@));
            }
        }
        i = i + 1;
    }
    assert(jsons(msgs@).take(i as int) =~= jsons(msgs@));
    out
}

fn plain_message(m: &Json) -> (r: Json)
    ensures
        r@ == as_plain(m@),
{
    match m {
        Json::Obj(f) => {
            let mut g = f.clone();
            let bare = match f.get("content") {
                Some(c) => c.is_null(),
                None => true,
            };
            if bare {
                g.insert("content", Json::str(""));
            }
            g.remove("tool_calls");
            Json::Obj(g)
        },
        _ => m.clone(),
    }
}

fn stripped_message(answered: &Vec<String>, m: &Json) -> (r: Json)
    ensures
        r@ == strip_message(texts(answered@), m@),
{
    let calls: &Vec<Json> = match message_calls(m) {
        Some(v) => v,
        None => {
            return m.clone();
        },
    };
    let ghost p = |c: JsonView| keeps_call(texts(answered@), c);
    let mut kept: Vec<Json> = Vec::new();
    let mut k: usize = 0;
    proof {
        lemma_jsons_len(calls@);
        reveal(Seq::filter);
    }
    while k < calls.len()
        invariant
            p == (|c: JsonView| keeps_call(texts(answered@), c)),
            k <= calls@.len(),
            jsons(calls@).len() == calls@.len(),
            jsons(kept@) == jsons(calls@).take(k as int).filter(p),
        decreases calls@.len() - k,
    {
        let c = &calls[k];
        proof {
            lemma_jsons_at(calls@, k as int);
            let t = jsons(calls@).take(k + 1);
            assert(t.drop_last() =~= jsons(calls@).take(k as int));
            assert(t.last() == c@);
            reveal(Seq::filter);
        }
        if legal(c) && list_has(answered, id_of_call(c)) {
            let copy = c.clone();
            proof {
                lemma_jsons_push(kept@, copy);
            }
            kept.push(copy);
        }
        k = k + 1;
    }
    proof {
        assert(jsons(calls@).take(k as int) =~= jsons(calls@));
        lemma_jsons_len(kept@);
    }
    if kept.len() == 0 && calls.len() > 0 {
        plain_message(m)
    } else {
        m.with("tool_calls", Json::array(kept))
    }
}

/// Takes from messages the calls that nothing answers and the answers that
/// nothing calls for.
pub fn strip_unpaired_tool_calls(msgs: &mut Vec<Json>)
    ensures
        jsons(final(msgs)@) == stripped(jsons(old(msgs)@)),
{
    let called = collect_called(msgs);
    let answered = collect_answered(msgs);
    let ghost all = jsons(msgs@);
    let ghost f = |m: JsonView| strip_message(texts(answered@), m);
    let ghost p = |m: JsonView| keeps_message(texts(called@), m);
    let mut out: Vec<Json> = Vec::new();
    let mut i: usize = 0;
    proof {
        lemma_jsons_len(msgs@);
        reveal(Seq::filter);
        assert(all.take(0).map_values(f) =~= Seq::empty());
    }
    while i < msgs.len()
        invariant
            msgs@ == old(msgs)@,
            all == jsons(msgs@),
            all.len() == msgs@.len(),
            f == (|m: JsonView| strip_message(texts(answered@), m)),
            p == (|m: JsonView| keeps_message(texts(called@), m)),
            i <= msgs@.len(),
            jsons(out@) == all.take(i as int).map_values(f).filter(p),
        decreases msgs@.len() - i,
    {
        let m = stripped_message(&answered, &msgs[i]);
        proof {
            lemma_jsons_at(msgs@, i as int);
            let t = all.take(i + 1).map_values(f);
            assert(t.drop_last() =~= all.take(i as int).map_values(f));
            assert(t.last() == m@);
            reveal(Seq::filter);
            lemma_jsons_push(out@, m);
        }
        let keep = if m.is_at("role", "tool") {
            let id = m.text_at("tool_call_id");
            !id.is_empty() && list_has(&called, id)
        } else {
            true
        };
        if keep {
            out.push(m);
        }
        i = i + 1;
    }
    proof {
        assert(all.take(i as int) =~= all);
    }
    *msgs = out;
}

/// A message of the assistant that makes calls.
pub open spec fn makes_calls(m: JsonView) -> bool {
    match calls_of(m) {
        Some(calls) => calls.len() > 0,
        None => false,
    }
}

/// The messages without those at the end that make calls.
pub open spec fn without_trailing_calls(msgs: Seq<JsonView>) -> Seq<JsonView>
    decreases msgs.len(),
{
    if msgs.len() > 0 && makes_calls(msgs.last()) {
        without_trailing_calls(msgs.drop_last())
    } else {
        msgs
    }
}

/// Takes from the end of messages those that make calls.
pub fn drop_trailing_orphan(msgs: &mut Vec<Json>)
    ensures
        jsons(final(msgs)@) == without_trailing_calls(jsons(old(msgs)@)),
{
    loop
        invariant
            without_trailing_calls(jsons(msgs@)) == without_trailing_calls(jsons(old(msgs)@)),
        decreases msgs@.len(),
    {
        let n: usize = msgs.len();
        proof {
            lemma_jsons_len(msgs@);
        }
        if n == 0 {
            return;
        }
        proof {
            lemma_jsons_at(msgs@, n - 1);
        }
        let orphan = match message_calls(&msgs[n - 1]) {
            Some(v) => {
                proof {
                    lemma_jsons_len(v@);
                }
                v.len() > 0
            },
            None => false,
        };
        if !orphan {
            return;
        }
        let ghost before = msgs@;
        let _ = msgs.pop();
        proof {
            assert(msgs@ =~= before.drop_last());
            assert(jsons(before).drop_last() == jsons(msgs@));
        }
    }
}

/// The ids that two lists answer together are those that each answers.
pub proof fn lemma_answered_add(a: Seq<JsonView>, b: Seq<JsonView>)
    ensures
        answered_ids(a + b) == answered_ids(a) + answered_ids(b),
    decreases b.len(),
{
    if b.len() == 0 {
        assert(a + b =~= a);
        assert(answered_ids(a) + answered_ids(b) =~= answered_ids(a));
    } else {
        lemma_answered_add(a, b.drop_last());
        assert((a + b).drop_last() =~= a + b.drop_last());
        assert(answered_ids(a + b) =~= answered_ids(a) + answered_ids(b));
    }
}

/// The ids that two lists call together are those that each calls.
pub proof fn lemma_called_add(a: Seq<JsonView>, b: Seq<JsonView>)
    ensures
        called_ids(a + b) == called_ids(a) + called_ids(b),
    decreases b.len(),
{
    if b.len() == 0 {
        assert(a + b =~= a);
        assert(called_ids(a) + called_ids(b) =~= called_ids(a));
    } else {
        lemma_called_add(a, b.drop_last());
        assert((a + b).drop_last() =~= a + b.drop_last());
        assert(called_ids(a + b) =~= called_ids(a) + called_ids(b));
    }
}

/// Every call of the messages is legal and answered.
pub open spec fn calls_answered(msgs: Seq<JsonView>) -> bool {
    forall|i: int|
        0 <= i < msgs.len() ==> (calls_of(#[trigger] msgs[i]) matches Some(calls) ==> forall|k: int|

            0 <= k < calls.len() ==> keeps_call(answered_ids(msgs), #[trigger] calls[k]))
}

/// Taking calling messages from the end keeps the beginning, leaves no calling
/// message at the end, and takes no answer.
pub proof fn lemma_without_trailing(msgs: Seq<JsonView>)
    ensures
        without_trailing_calls(msgs).len() <= msgs.len(),
        without_trailing_calls(msgs) == msgs.take(without_trailing_calls(msgs).len() as int),
        without_trailing_calls(msgs).len() > 0 ==> !makes_calls(without_trailing_calls(msgs).last()),
        answered_ids(without_trailing_calls(msgs)) == answered_ids(msgs),
        forall|i: int|
            without_trailing_calls(msgs).len() <= i < msgs.len() ==> makes_calls(#[trigger] msgs[i]),
    decreases msgs.len(),
{
    lemma_names();
    if msgs.len() > 0 && makes_calls(msgs.last()) {
        let head = msgs.drop_last();
        lemma_without_trailing(head);
        let n = without_trailing_calls(msgs).len() as int;
        assert(head.take(n) =~= msgs.take(n));
        assert forall|i: int| n <= i < msgs.len() implies makes_calls(#[trigger] msgs[i]) by {
            if i < head.len() {
                assert(msgs[i] == head[i]);
            }
        }
    } else {
        assert(msgs.take(msgs.len() as int) =~= msgs);
    }
}

// ---------------------------------------------------------------------------
// Messages as they are sent
// ---------------------------------------------------------------------------

/// Messages as they are sent: without those at the end that make calls, which nothing
/// behind them answers, and paired. Where that brings another message that makes
/// calls to the end, it goes too.
pub open spec fn settled(msgs: Seq<JsonView>) -> Seq<JsonView>
    decreases msgs.len(),
{
    let s = stripped(without_trailing_calls(msgs));
    if 0 < s.len() < msgs.len() && makes_calls(s.last()) {
        settled(s)
    } else {
        s
    }
}

proof fn lemma_filter_len<A>(s: Seq<A>, p: spec_fn(A) -> bool)
    ensures
        s.filter(p).len() <= s.len(),
        s.filter(p).len() == s.len() ==> s.filter(p) == s,
    decreases s.len(),
{
    reveal(Seq::filter);
    if s.len() > 0 {
        let t = s.drop_last();
        lemma_filter_len(t, p);
        if s.filter(p).len() == s.len() {
            assert(t.push(s.last()) =~= s);
        }
    }
}

proof fn lemma_settling(msgs: Seq<JsonView>)
    ensures
        ({
            let s = stripped(without_trailing_calls(msgs));
            &&& s.len() <= msgs.len()
            &&& s.len() > 0 && makes_calls(s.last()) ==> s.len() < msgs.len()
        }),
{
    let t = without_trailing_calls(msgs);
    let s = stripped(t);
    let answered = answered_ids(t);
    let called = called_ids(t);
    let mapped = t.map_values(|m: JsonView| strip_message(answered, m));
    lemma_without_trailing(msgs);
    lemma_filter_len(mapped, |m: JsonView| keeps_message(called, m));
    if s.len() > 0 && s.len() == msgs.len() {
        assert(s == mapped);
        assert(s.last() == strip_message(answered, t.last()));
        lemma_strip_keeps(answered, t.last());
        if let Some(calls) = calls_of(t.last()) {
            lemma_filter_len(calls, |c: JsonView| keeps_call(answered, c));
        }
    }
}

/// Settled messages are paired, and the last of them makes no call.
pub proof fn lemma_settled(msgs: Seq<JsonView>)
    ensures
        is_paired(settled(msgs)),
        settled(msgs).len() > 0 ==> !makes_calls(settled(msgs).last()),
    decreases msgs.len(),
{
    let s = stripped(without_trailing_calls(msgs));
    lemma_settling(msgs);
    if 0 < s.len() < msgs.len() && makes_calls(s.last()) {
        lemma_settled(s);
    } else {
        lemma_stripped_paired(without_trailing_calls(msgs));
    }
}

/// Messages that are paired and do not end in a call are settled.
pub proof fn lemma_settled_unchanged(msgs: Seq<JsonView>)
    requires
        is_paired(msgs),
        msgs.len() > 0 ==> !makes_calls(msgs.last()),
    ensures
        settled(msgs) == msgs,
{
    lemma_paired_unchanged(msgs);
}

/// A message at the end that makes calls is dropped as a whole: nothing of it is sent.
pub proof fn lemma_trailing_dropped(msgs: Seq<JsonView>, m: JsonView)
    requires
        makes_calls(m),
    ensures
        settled(msgs.push(m)) == settled(msgs),
{
    assert(msgs.push(m).drop_last() =~= msgs);
    lemma_settling(msgs);
}

/// A message of a role.
pub open spec fn has_role(m: JsonView, role: Seq<char>) -> bool {
    m.str_at("role"@) == Some(role)
}

proof fn lemma_kept_as_they_are(
    msgs: Seq<JsonView>,
    answered: Seq<Seq<char>>,
    called: Seq<Seq<char>>,
    p: spec_fn(JsonView) -> bool,
)
    requires
        forall|m: JsonView| #[trigger] p(m) ==> !is_assistant(m) && !is_tool(m),
        forall|m: JsonView| #[trigger] p(strip_message(answered, m)) == p(m),
    ensures
        msgs.map_values(|m: JsonView| strip_message(answered, m)).filter(
            |m: JsonView| keeps_message(called, m),
        ).filter(p) == msgs.filter(p),
    decreases msgs.len(),
{
    reveal(Seq::filter);
    let f = |m: JsonView| strip_message(answered, m);
    let k = |m: JsonView| keeps_message(called, m);
    if msgs.len() > 0 {
        let t = msgs.drop_last();
        let m = msgs.last();
        lemma_kept_as_they_are(t, answered, called, p);
        lemma_strip_keeps(answered, m);
        let mapped = msgs.map_values(f);
        assert(mapped.drop_last() =~= t.map_values(f));
        assert(mapped.last() == f(m));
        let head = t.map_values(f).filter(k);
        if k(f(m)) {
            assert(head.push(f(m)).drop_last() =~= head);
        }
        assert(p(strip_message(answered, m)) == p(m));
        if p(m) {
            assert(calls_of(m) is None);
            assert(f(m) == m);
            assert(!is_tool(m));
        }
    }
}

/// A message that is neither the assistant's nor a tool's.
pub open spec fn is_other(m: JsonView) -> bool {
    !is_assistant(m) && !is_tool(m)
}

/// Stripping keeps every message that is neither the assistant's nor a tool's, as it
/// is, and those messages in their order.
pub proof fn lemma_others_stay(msgs: Seq<JsonView>)
    ensures
        stripped(msgs).filter(|m: JsonView| is_other(m)) == msgs.filter(|m: JsonView| is_other(m)),
{
    let answered = answered_ids(msgs);
    let p = |m: JsonView| is_other(m);
    assert forall|m: JsonView| #[trigger] p(strip_message(answered, m)) == p(m) by {
        lemma_strip_keeps(answered, m);
    }
    lemma_kept_as_they_are(msgs, answered, called_ids(msgs), p);
}

proof fn lemma_mapped_filtered(
    msgs: Seq<JsonView>,
    answered: Seq<Seq<char>>,
    p: spec_fn(JsonView) -> bool,
)
    requires
        forall|m: JsonView| #[trigger] p(strip_message(answered, m)) == p(m),
    ensures
        msgs.map_values(|m: JsonView| strip_message(answered, m)).filter(p) == msgs.filter(
            p,
        ).map_values(|m: JsonView| strip_message(answered, m)),
    decreases msgs.len(),
{
    reveal(Seq::filter);
    let f = |m: JsonView| strip_message(answered, m);
    if msgs.len() > 0 {
        let t = msgs.drop_last();
        let m = msgs.last();
        lemma_mapped_filtered(t, answered, p);
        let mapped = msgs.map_values(f);
        assert(mapped.drop_last() =~= t.map_values(f));
        assert(mapped.last() == f(m));
        assert(p(strip_message(answered, m)) == p(m));
        if p(m) {
            assert(t.filter(p).push(m).map_values(f) =~= t.filter(p).map_values(f).push(f(m)));
        }
    } else {
        assert(msgs.map_values(f) =~= msgs.filter(p).map_values(f));
    }
}

/// Stripping keeps the order: what it gives are the messages that it keeps, one after
/// the other, each without the calls that it takes away.
pub proof fn lemma_order_stays(msgs: Seq<JsonView>)
    ensures
        stripped(msgs) == msgs.filter(
            |m: JsonView| keeps_message(called_ids(msgs), m),
        ).map_values(|m: JsonView| strip_message(answered_ids(msgs), m)),
{
    let answered = answered_ids(msgs);
    let called = called_ids(msgs);
    let p = |m: JsonView| keeps_message(called, m);
    assert forall|m: JsonView| #[trigger] p(strip_message(answered, m)) == p(m) by {
        lemma_strip_keeps(answered, m);
        lemma_names();
    }
    lemma_mapped_filtered(msgs, answered, p);
    assert(p =~= (|m: JsonView| keeps_message(called_ids(msgs), m)));
    assert((|m: JsonView| strip_message(answered, m)) =~= (|m: JsonView|
        strip_message(answered_ids(msgs), m)));
}

/// A message that makes calls of which none is kept.
pub open spec fn loses_calls(answered: Seq<Seq<char>>, m: JsonView) -> bool {
    calls_of(m) matches Some(calls) && calls.len() > 0 && kept_calls(answered, calls).len() == 0
}

/// Stripping removes no message of the assistant's. One that loses all its calls has
/// no list of them any more, and a content that is not null.
pub proof fn lemma_assistants_stay(msgs: Seq<JsonView>)
    ensures
        stripped(msgs).filter(|m: JsonView| is_assistant(m)) == msgs.filter(
            |m: JsonView| is_assistant(m),
        ).map_values(|m: JsonView| strip_message(answered_ids(msgs), m)),
        forall|m: JsonView|
            loses_calls(answered_ids(msgs), m) ==> {
                let r = #[trigger] strip_message(answered_ids(msgs), m);
                r.get("tool_calls"@) is None && (r.get("content"@) matches Some(c) && c !is Null)
            },
{
    lemma_names();
    let answered = answered_ids(msgs);
    let called = called_ids(msgs);
    let f = |m: JsonView| strip_message(answered, m);
    let k = |m: JsonView| keeps_message(called, m);
    let p = |m: JsonView| is_assistant(m);
    assert forall|m: JsonView| #[trigger] p(strip_message(answered, m)) == p(m) by {
        lemma_strip_keeps(answered, m);
    }
    lemma_mapped_filtered(msgs, answered, p);
    lemma_filter_weaker(msgs.map_values(f), k, p);
    assert(f =~= (|m: JsonView| strip_message(answered_ids(msgs), m)));
}

proof fn lemma_trailing_role(msgs: Seq<JsonView>, role: Seq<char>)
    requires
        role != "assistant"@,
    ensures
        without_trailing_calls(msgs).filter(|m: JsonView| has_role(m, role)) == msgs.filter(
            |m: JsonView| has_role(m, role),
        ),
    decreases msgs.len(),
{
    reveal(Seq::filter);
    if msgs.len() > 0 && makes_calls(msgs.last()) {
        lemma_trailing_role(msgs.drop_last(), role);
    }
}

/// Settling keeps the messages that are neither the assistant's nor a tool's, as they
/// are and in their order.
pub proof fn lemma_settled_role(msgs: Seq<JsonView>, role: Seq<char>)
    requires
        role != "assistant"@,
        role != "tool"@,
    ensures
        settled(msgs).filter(|m: JsonView| has_role(m, role)) == msgs.filter(
            |m: JsonView| has_role(m, role),
        ),
    decreases msgs.len(),
{
    let t = without_trailing_calls(msgs);
    let s = stripped(t);
    lemma_trailing_role(msgs, role);
    let p = |m: JsonView| has_role(m, role);
    assert forall|m: JsonView| #[trigger] p(strip_message(answered_ids(t), m)) == p(m) by {
        lemma_strip_keeps(answered_ids(t), m);
    }
    lemma_kept_as_they_are(t, answered_ids(t), called_ids(t), p);
    if 0 < s.len() < msgs.len() && makes_calls(s.last()) {
        lemma_settled_role(s, role);
    }
}

/// Settles messages.
pub fn settle_calls(msgs: &mut Vec<Json>)
    ensures
        jsons(final(msgs)@) == settled(jsons(old(msgs)@)),
    decreases old(msgs)@.len(),
{
    let ghost before = jsons(msgs@);
    proof {
        lemma_jsons_len(msgs@);
        lemma_settling(before);
    }
    drop_trailing_orphan(msgs);
    strip_unpaired_tool_calls(msgs);
    let n: usize = msgs.len();
    proof {
        lemma_jsons_len(msgs@);
    }
    if n > 0 {
        proof {
            lemma_jsons_at(msgs@, n - 1);
        }
        let calling = match message_calls(&msgs[n - 1]) {
            Some(v) => {
                proof {
                    lemma_jsons_len(v@);
                }
                v.len() > 0
            },
            None => false,
        };
        if calling {
            settle_calls(msgs);
        }
    }
}

} // verus!
