//! What the operations are for: laws that speak of what goes in and what comes out,
//! member by member of the JSON that is kept and sent.
pub mod contexts;
pub mod dates;
pub mod dreams;
pub mod files;
pub mod histories;
pub mod jobs;
pub mod memories;
pub mod notes;
pub mod paths;
pub mod requests;
pub mod sessions;
pub mod speech;
pub mod streams;
pub mod tools;
pub mod turns;

use crate::json::JsonView;
use crate::pairing::answered_ids;
use crate::text::{contains, occurs_at};
use vstd::prelude::*;

verus! {

/// An object has a member with a value.
pub open spec fn holds(o: JsonView, key: Seq<char>, v: JsonView) -> bool {
    o matches JsonView::Obj(f) && f.contains_key(key) && f[key] == v
}

/// An object has a member with a text.
pub open spec fn says(o: JsonView, key: Seq<char>, text: Seq<char>) -> bool {
    holds(o, key, JsonView::Str(text))
}

/// An object has no member of a name.
pub open spec fn lacks(o: JsonView, key: Seq<char>) -> bool {
    o matches JsonView::Obj(f) && !f.contains_key(key)
}

/// The member of an object under a name.
pub open spec fn member(o: JsonView, key: Seq<char>) -> Option<JsonView> {
    match o {
        JsonView::Obj(f) => if f.contains_key(key) {
            Some(f[key])
        } else {
            None
        },
        _ => None,
    }
}

/// The text of an object's member under a name.
pub open spec fn text_in(o: JsonView, key: Seq<char>) -> Option<Seq<char>> {
    match member(o, key) {
        Some(JsonView::Str(s)) => Some(s),
        _ => None,
    }
}

/// The elements of an object's member under a name.
pub open spec fn list_in(o: JsonView, key: Seq<char>) -> Seq<JsonView> {
    match member(o, key) {
        Some(JsonView::Arr(a)) => a,
        _ => Seq::empty(),
    }
}

/// A call of a tool: its id, the tool's name and the arguments as they are written.
pub open spec fn is_call(
    c: JsonView,
    id: Seq<char>,
    name: Seq<char>,
    args: Seq<char>,
) -> bool {
    &&& says(c, "id"@, id)
    &&& c matches JsonView::Obj(f) && f.contains_key("function"@) && says(
        f["function"@],
        "name"@,
        name,
    ) && says(f["function"@], "arguments"@, args)
}

/// A message with a tool's result for the call with an id.
pub open spec fn is_answer(m: JsonView, id: Seq<char>, result: Seq<char>) -> bool {
    says(m, "role"@, "tool"@) && says(m, "tool_call_id"@, id) && says(m, "content"@, result)
}

/// A message of a role with a text.
pub open spec fn is_saying(m: JsonView, role: Seq<char>, text: Seq<char>) -> bool {
    says(m, "role"@, role) && says(m, "content"@, text)
}

/// The names of members differ.
pub proof fn lemma_members()
    ensures
        "role"@ != "content"@,
        "role"@ != "tool_call_id"@,
        "role"@ != "tool_calls"@,
        "content"@ != "tool_call_id"@,
        "content"@ != "tool_calls"@,
        "tool_calls"@ != "tool_call_id"@,
        "id"@ != "function"@,
        "id"@ != "type"@,
        "type"@ != "function"@,
        "name"@ != "arguments"@,
        "name"@ != "result"@,
        "name"@ != "call_id"@,
        "result"@ != "call_id"@,
        "content"@ != "thinking"@,
        "content"@ != "usage"@,
        "thinking"@ != "usage"@,
        "thinking"@ != "tool_calls"@,
        "tool_calls"@ != "usage"@,
        "assistant"@ != "tool"@,
        "assistant"@ != "user"@,
        "assistant"@ != "system"@,
        "tool"@ != "user"@,
        "tool"@ != "system"@,
        "user"@ != "system"@,
{
    reveal_strlit("role");
    reveal_strlit("content");
    reveal_strlit("tool_call_id");
    reveal_strlit("tool_calls");
    reveal_strlit("id");
    reveal_strlit("type");
    reveal_strlit("function");
    reveal_strlit("name");
    reveal_strlit("arguments");
    reveal_strlit("result");
    reveal_strlit("call_id");
    reveal_strlit("thinking");
    reveal_strlit("usage");
    reveal_strlit("assistant");
    reveal_strlit("tool");
    reveal_strlit("user");
    reveal_strlit("system");
    assert("role"@.len() == 4 && "content"@.len() == 7 && "tool_call_id"@.len() == 12);
    assert("tool_calls"@.len() == 10 && "id"@.len() == 2 && "type"@.len() == 4);
    assert("function"@.len() == 8 && "name"@.len() == 4 && "arguments"@.len() == 9);
    assert("result"@.len() == 6 && "call_id"@.len() == 7 && "thinking"@.len() == 8);
    assert("usage"@.len() == 5 && "assistant"@.len() == 9 && "tool"@.len() == 4);
    assert("user"@.len() == 4 && "system"@.len() == 6);
    assert("tool"@[0] == 't' && "user"@[0] == 'u');
}

/// A message that answers a call with an id.
pub open spec fn answers(m: JsonView, id: Seq<char>) -> bool {
    says(m, "role"@, "tool"@) && says(m, "tool_call_id"@, id)
}

/// An id that is answered is answered by one of the messages.
pub proof fn lemma_answered_by(msgs: Seq<JsonView>, id: Seq<char>)
    requires
        answered_ids(msgs).contains(id),
    ensures
        exists|i: int| 0 <= i < msgs.len() && answers(#[trigger] msgs[i], id),
    decreases msgs.len(),
{
    let all = answered_ids(msgs);
    let j: int = choose|j: int| 0 <= j < all.len() && all[j] == id;
    if msgs.len() > 0 {
        let t = msgs.drop_last();
        let head = answered_ids(t);
        if j < head.len() {
            assert(head[j] == id);
            lemma_answered_by(t, id);
            let i: int = choose|i: int| 0 <= i < t.len() && answers(#[trigger] t[i], id);
            assert(msgs[i] == t[i]);
        } else {
            assert(answers(msgs[msgs.len() - 1], id));
        }
    }
}

/// A text stands in what is written round it.
pub proof fn lemma_within(a: Seq<char>, x: Seq<char>, b: Seq<char>)
    ensures
        contains(a + x + b, x),
{
    let n = a.len() as int;
    assert((a + x + b).subrange(n, n + x.len()) =~= x);
    assert(occurs_at(a + x + b, x, n));
}

/// What stands in a part of a text stands in the text.
pub proof fn lemma_contains_trans(s: Seq<char>, a: Seq<char>, x: Seq<char>)
    requires
        contains(s, a),
        contains(a, x),
    ensures
        contains(s, x),
{
    let i: int = choose|i: int| occurs_at(s, a, i);
    let j: int = choose|j: int| occurs_at(a, x, j);
    assert(s.subrange(i + j, i + j + x.len()) =~= s.subrange(i, i + a.len()).subrange(
        j,
        j + x.len(),
    ));
    assert(occurs_at(s, x, i + j));
}

/// What stands in a text stands in it also when more follows.
pub proof fn lemma_contains_head(a: Seq<char>, b: Seq<char>, x: Seq<char>)
    requires
        contains(a, x),
    ensures
        contains(a + b, x),
{
    let e = Seq::<char>::empty();
    lemma_within(e, a, b);
    assert(e + a + b =~= a + b);
    lemma_contains_trans(a + b, a, x);
}

/// What stands in a text stands in it also when more comes before.
pub proof fn lemma_contains_tail(a: Seq<char>, b: Seq<char>, x: Seq<char>)
    requires
        contains(b, x),
    ensures
        contains(a + b, x),
{
    let e = Seq::<char>::empty();
    lemma_within(a, b, e);
    assert(a + b + e =~= a + b);
    lemma_contains_trans(a + b, b, x);
}

} // verus!
