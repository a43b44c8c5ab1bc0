//! A reply as it streams in: lines of events, each with a piece of the answer, of
//! the thoughts or of a call.
use crate::decimal::{dec, write_usize};
use crate::json::{
    clone_jsons, clone_opt_json, jsons, lemma_jsons_at, lemma_jsons_len, lemma_jsons_push,
    make_message, message, opt_json, Fields, Json, JsonView,
};
use crate::lines::{split, split_str};
use crate::pairing::is_legal;
use crate::text::{
    char_index, clone_opt, from_chars, lemma_char_index, lemma_char_index_is, opt_text, str_eq,
    strip_prefix, strip_prefix_chars, text_or_empty, texts, to_chars,
};
use crate::thinking::{parted, strip_thinking_blocks};
use crate::wire::{json_read, parse_json, Reading};
use vstd::prelude::*;
use vstd::slice::slice_subrange;
use vstd::utf8::{decode_utf8, pop_first_scalar, valid_utf8, valid_utf8_concat};

verus! {

// ---------------------------------------------------------------------------
// Calls in pieces
// ---------------------------------------------------------------------------

/// What has come in of one call.
#[derive(Debug)]
pub struct CallPart {
    pub index: usize,
    pub id: Option<String>,
    pub name: Option<String>,
    pub args: String,
}

/// What a part of a call holds.
pub struct PartView {
    pub index: usize,
    pub id: Option<Seq<char>>,
    pub name: Option<Seq<char>>,
    pub args: Seq<char>,
}

impl View for CallPart {
    type V = PartView;

    open spec fn view(&self) -> PartView {
        PartView {
            index: self.index,
            id: opt_text(self.id),
            name: opt_text(self.name),
            args: self.args@,
        }
    }
}

/// What parts hold.
pub open spec fn part_views(v: Seq<CallPart>) -> Seq<PartView> {
    v.map_values(|p: CallPart| p@)
}

/// The parts stand in the order of their indices, each index once.
pub open spec fn in_index_order(v: Seq<PartView>) -> bool {
    forall|i: int, j: int| 0 <= i < j < v.len() ==> (#[trigger] v[i]).index < (#[trigger] v[j]).index
}

/// A part with a piece added: an id or a name that comes in counts from then on,
/// arguments are appended.
pub open spec fn part_with(
    p: PartView,
    id: Option<Seq<char>>,
    name: Option<Seq<char>>,
    args: Option<Seq<char>>,
) -> PartView {
    PartView {
        index: p.index,
        id: if id is Some {
            id
        } else {
            p.id
        },
        name: if name is Some {
            name
        } else {
            p.name
        },
        args: p.args + text_or_empty(args),
    }
}

/// A part in which nothing has come in.
pub open spec fn fresh_part(index: usize) -> PartView {
    PartView { index, id: None, name: None, args: Seq::empty() }
}

/// Parts with a piece added to the one at an index.
pub open spec fn pushed(
    v: Seq<PartView>,
    index: usize,
    id: Option<Seq<char>>,
    name: Option<Seq<char>>,
    args: Option<Seq<char>>,
) -> Seq<PartView>
    decreases v.len(),
{
    if v.len() == 0 || v.last().index < index {
        v.push(part_with(fresh_part(index), id, name, args))
    } else if v.last().index == index {
        v.drop_last().push(part_with(v.last(), id, name, args))
    } else {
        pushed(v.drop_last(), index, id, name, args).push(v.last())
    }
}

/// The call that a part comes to: none without a name; one without an id gets
/// one from its index.
pub open spec fn built_call(p: PartView) -> Option<JsonView> {
    let name = text_or_empty(p.name);
    let id = text_or_empty(p.id);
    if name.len() == 0 {
        None
    } else {
        Some(
            JsonView::Obj(
                map![
                "id"@ => JsonView::Str(if id.len() == 0 { "call_synth_"@ + dec(p.index as nat) } else { id }),
                "type"@ => JsonView::Str("function"@),
                "function"@ => JsonView::Obj(map![
                    "name"@ => JsonView::Str(name),
                    "arguments"@ => JsonView::Str(p.args)
                ])
            ],
            ),
        )
    }
}

/// The calls that parts come to.
pub open spec fn built_calls(v: Seq<PartView>) -> Seq<JsonView>
    decreases v.len(),
{
    if v.len() == 0 {
        Seq::empty()
    } else {
        let head = built_calls(v.drop_last());
        match built_call(v.last()) {
            Some(c) => head.push(c),
            None => head,
        }
    }
}

/// Collects the calls of a reply, which come in pieces.
#[derive(Debug)]
pub struct ToolCallAccum {
    pub parts: Vec<CallPart>,
}

impl View for ToolCallAccum {
    type V = Seq<PartView>;

    open spec fn view(&self) -> Seq<PartView> {
        part_views(self.parts@)
    }
}

/// Where the parts up to `k` decide what becomes of a piece.
proof fn lemma_pushed_split(
    v: Seq<PartView>,
    k: int,
    index: usize,
    id: Option<Seq<char>>,
    name: Option<Seq<char>>,
    args: Option<Seq<char>>,
)
    requires
        0 <= k <= v.len(),
        forall|i: int| k <= i < v.len() ==> index < (#[trigger] v[i]).index,
    ensures
        pushed(v, index, id, name, args) == pushed(v.take(k), index, id, name, args) + v.skip(k),
    decreases v.len() - k,
{
    if k == v.len() {
        assert(v.take(k) =~= v);
        assert(pushed(v, index, id, name, args) + v.skip(k) =~= pushed(v, index, id, name, args));
    } else {
        let t = v.drop_last();
        assert(v[v.len() - 1] == v.last());
        lemma_pushed_split(t, k, index, id, name, args);
        assert(t.take(k) =~= v.take(k));
        assert(t.skip(k).push(v.last()) =~= v.skip(k));
        let head = pushed(v.take(k), index, id, name, args);
        assert((head + t.skip(k)).push(v.last()) =~= head + v.skip(k));
    }
}

/// Adding a piece keeps the parts in order.
pub proof fn lemma_pushed_order(
    v: Seq<PartView>,
    index: usize,
    id: Option<Seq<char>>,
    name: Option<Seq<char>>,
    args: Option<Seq<char>>,
)
    requires
        in_index_order(v),
    ensures
        in_index_order(pushed(v, index, id, name, args)),
        forall|i: int|
            0 <= i < pushed(v, index, id, name, args).len() ==> (#[trigger] pushed(
                v,
                index,
                id,
                name,
                args,
            )[i]).index <= index || v.len() > 0 && pushed(v, index, id, name, args)[i].index
                <= v.last().index,
    decreases v.len(),
{
    let w = pushed(v, index, id, name, args);
    if v.len() == 0 || v.last().index < index {
        assert forall|i: int| 0 <= i < v.len() implies (#[trigger] v[i]).index <= v.last().index by {
            if i < v.len() - 1 {
                assert(v[i].index < v[v.len() - 1].index);
            }
        }
    } else if v.last().index == index {
        assert forall|i: int, j: int| 0 <= i < j < w.len() implies (#[trigger] w[i]).index < (
        #[trigger] w[j]).index by {
            assert(w[i].index == v[i].index && w[j].index == v[j].index);
        }
        assert forall|i: int| 0 <= i < w.len() implies (#[trigger] w[i]).index <= index by {
            assert(w[i].index == v[i].index);
            if i < v.len() - 1 {
                assert(v[i].index < v[v.len() - 1].index);
            }
        }
    } else {
        let t = v.drop_last();
        assert forall|i: int, j: int| 0 <= i < j < t.len() implies (#[trigger] t[i]).index < (
        #[trigger] t[j]).index by {
            assert(t[i] == v[i] && t[j] == v[j]);
        }
        lemma_pushed_order(t, index, id, name, args);
        let u = pushed(t, index, id, name, args);
        if t.len() > 0 {
            assert(v[t.len() - 1].index < v[v.len() - 1].index);
        }
        assert forall|i: int| 0 <= i < u.len() implies (#[trigger] u[i]).index < v.last().index by {
        }
    }
}

/// Arguments that come in two pieces come to the same as in one.
pub proof fn lemma_pieces_join(
    v: Seq<PartView>,
    index: usize,
    id: Option<Seq<char>>,
    name: Option<Seq<char>>,
    a: Seq<char>,
    b: Seq<char>,
)
    ensures
        pushed(pushed(v, index, id, name, Some(a)), index, None, None, Some(b)) == pushed(
            v,
            index,
            id,
            name,
            Some(a + b),
        ),
    decreases v.len(),
{
    let w = pushed(v, index, id, name, Some(a));
    if v.len() == 0 || v.last().index < index {
        assert(Seq::<char>::empty() + a + b =~= Seq::<char>::empty() + (a + b));
        assert(w.drop_last() =~= v);
    } else if v.last().index == index {
        assert(v.last().args + a + b =~= v.last().args + (a + b));
        assert(w.drop_last() =~= v.drop_last());
    } else {
        lemma_pieces_join(v.drop_last(), index, id, name, a, b);
        assert(w.drop_last() =~= pushed(v.drop_last(), index, id, name, Some(a)));
    }
}

proof fn lemma_call_names()
    ensures
        "id"@ != "type"@,
        "id"@ != "function"@,
        "type"@ != "function"@,
        "name"@ != "arguments"@,
        "call_synth_"@.len() > 0,
{
    reveal_strlit("id");
    reveal_strlit("type");
    reveal_strlit("function");
    reveal_strlit("name");
    reveal_strlit("arguments");
    reveal_strlit("call_synth_");
    assert("id"@.len() == 2 && "type"@.len() == 4 && "function"@.len() == 8);
    assert("name"@.len() == 4 && "arguments"@.len() == 9);
}

/// Every call that comes out has an id and a name.
pub proof fn lemma_built_legal(v: Seq<PartView>)
    ensures
        forall|i: int| 0 <= i < built_calls(v).len() ==> is_legal(#[trigger] built_calls(v)[i]),
    decreases v.len(),
{
    if v.len() > 0 {
        let head = built_calls(v.drop_last());
        lemma_built_legal(v.drop_last());
        lemma_call_names();
        assert forall|i: int| 0 <= i < built_calls(v).len() implies is_legal(
            #[trigger] built_calls(v)[i],
        ) by {
            if i < head.len() {
                assert(built_calls(v)[i] == head[i]);
            }
        }
    }
}

impl ToolCallAccum {
    /// The parts stand in the order of their indices.
    pub open spec fn wf(&self) -> bool {
        in_index_order(self@)
    }

    /// Nothing has come in.
    pub fn new() -> (r: ToolCallAccum)
        ensures
            r.wf(),
            r@ == Seq::<PartView>::empty(),
    {
        let r = ToolCallAccum { parts: Vec::new() };
        assert(r@ =~= Seq::<PartView>::empty());
        r
    }

    /// Adds a piece to the call at an index.
    pub fn push(
        &mut self,
        index: usize,
        id: Option<String>,
        name: Option<String>,
        args: Option<String>,
    )
        requires
            old(self).wf(),
        ensures
            final(self).wf(),
            final(self)@ == pushed(
                old(self)@,
                index,
                opt_text(id),
                opt_text(name),
                opt_text(args),
            ),
    {
        let ghost before = self@;
        let mut k: usize = self.parts.len();
        while k > 0 && self.parts[k - 1].index > index
            invariant
                before == self@,
                k <= self.parts@.len(),
                forall|i: int| k <= i < before.len() ==> index < (#[trigger] before[i]).index,
            decreases k,
        {
            k = k - 1;
            assert(before[k as int] == self.parts@[k as int]@);
        }
        proof {
            lemma_pushed_split(
                before,
                k as int,
                index,
                opt_text(id),
                opt_text(name),
                opt_text(args),
            );
            lemma_pushed_order(before, index, opt_text(id), opt_text(name), opt_text(args));
        }
        let ghost head = before.take(k as int);
        let ghost want = pushed(before, index, opt_text(id), opt_text(name), opt_text(args));
        let found = k > 0 && self.parts[k - 1].index == index;
        proof {
            if k > 0 {
                assert(head.last() == self.parts@[k - 1]@);
            }
        }
        let mut part = if found {
            k = k - 1;
            let p = &self.parts[k];
            CallPart {
                index,
                id: clone_opt(&p.id),
                name: clone_opt(&p.name),
                args: p.args.clone(),
            }
        } else {
            CallPart { index, id: None, name: None, args: String::new() }
        };
        let ghost base = part@;
        if let Some(a) = &args {
            part.args.push_str(a.as_str());
        } else {
            assert(part.args@ + Seq::<char>::empty() =~= part.args@);
        }
        if id.is_some() {
            part.id = id;
        }
        if name.is_some() {
            part.name = name;
        }
        proof {
            if !found {
                assert(base == fresh_part(index));
            }
            assert(part@ == part_with(base, opt_text(id), opt_text(name), opt_text(args)));
        }
        if found {
            self.parts.set(k, part);
            proof {
                assert(self@ =~= before.update(k as int, part@));
                assert(want =~= before.take(k as int).push(part@) + before.skip(k + 1));
                assert(self@ =~= want);
            }
        } else {
            self.parts.insert(k, part);
            proof {
                assert(self@ =~= before.insert(k as int, part@));
                assert(want =~= before.take(k as int).push(part@) + before.skip(k as int));
                assert(self@ =~= want);
            }
        }
    }

    /// The calls that have come in, in the order of their indices.
    pub fn finalize(&self) -> (r: Vec<Json>)
        ensures
            jsons(r@) == built_calls(self@),
    {
        let mut out: Vec<Json> = Vec::new();
        let mut i: usize = 0;
        while i < self.parts.len()
            invariant
                i <= self.parts@.len(),
                jsons(out@) == built_calls(self@.take(i as int)),
            decreases self.parts@.len() - i,
        {
            let p = &self.parts[i];
            proof {
                let t = self@.take(i + 1);
                assert(t.drop_last() =~= self@.take(i as int));
                assert(t.last() == p@);
                reveal_strlit("");
                assert(""@ =~= Seq::<char>::empty());
            }
            let name = match &p.name {
                Some(n) => n.as_str(),
                None => "",
            };
            if name.unicode_len() > 0 {
                let given = match &p.id {
                    Some(s) => s.as_str(),
                    None => "",
                };
                let id = if given.unicode_len() > 0 {
                    given.to_owned()
                } else {
                    let mut s = "call_synth_".to_owned();
                    s.push_str(write_usize(p.index).as_str());
                    s
                };
                let mut f = Fields::new();
                f.insert("name", Json::str(name));
                f.insert("arguments", Json::str(p.args.as_str()));
                let mut c = Fields::new();
                c.insert("id", Json::str(id.as_str()));
                c.insert("type", Json::str("function"));
                c.insert("function", Json::Obj(f));
                let call = Json::Obj(c);
                proof {
                    lemma_jsons_push(out@, call);
                    assert(call@ == built_call(p@)->0);
                }
                out.push(call);
            }
            i = i + 1;
        }
        assert(self@.take(i as int) =~= self@);
        out
    }
}

// ---------------------------------------------------------------------------
// Events
// ---------------------------------------------------------------------------

/// Why a reply ended.
#[derive(Debug, Clone, Copy, PartialEq, Eq, Structural)]
pub enum FinishReason {
    Stop,
    ToolCalls,
}

/// A piece of the reply, to be shown as it comes in.
#[derive(Debug)]
pub enum Delta {
    Content(String),
    Thinking(String),
}

/// What a piece of the reply holds.
pub enum DeltaView {
    Content(Seq<char>),
    Thinking(Seq<char>),
}

impl View for Delta {
    type V = DeltaView;

    open spec fn view(&self) -> DeltaView {
        match self {
            Delta::Content(s) => DeltaView::Content(s@),
            Delta::Thinking(s) => DeltaView::Thinking(s@),
        }
    }
}

/// What pieces of the reply hold.
pub open spec fn delta_views(v: Seq<Delta>) -> Seq<DeltaView> {
    v.map_values(|d: Delta| d@)
}

/// What has been heard of a reply.
pub struct HeardView {
    pub content: Seq<char>,
    pub reasoning: Seq<char>,
    pub calls: Seq<PartView>,
    pub finish: FinishReason,
    pub usage: Option<JsonView>,
}

/// Nothing has been heard.
pub open spec fn nothing_heard() -> HeardView {
    HeardView {
        content: Seq::empty(),
        reasoning: Seq::empty(),
        calls: Seq::empty(),
        finish: FinishReason::Stop,
        usage: None,
    }
}

/// The first choice of an event.
pub open spec fn first_choice(o: JsonView) -> Option<JsonView> {
    match o.array_at("choices"@) {
        Some(a) => if a.len() > 0 {
            Some(a[0])
        } else {
            None
        },
        None => None,
    }
}

/// The text of a thought.
pub open spec fn thought(x: JsonView) -> Seq<char> {
    text_or_empty(x.str_at("text"@))
}

/// The thoughts in a list that are not empty.
pub open spec fn thoughts(v: Seq<JsonView>) -> Seq<Seq<char>>
    decreases v.len(),
{
    if v.len() == 0 {
        Seq::empty()
    } else {
        let head = thoughts(v.drop_last());
        if thought(v.last()).len() > 0 {
            head.push(thought(v.last()))
        } else {
            head
        }
    }
}

/// Texts one after another.
pub open spec fn concat(v: Seq<Seq<char>>) -> Seq<char>
    decreases v.len(),
{
    if v.len() == 0 {
        Seq::empty()
    } else {
        concat(v.drop_last()) + v.last()
    }
}

/// The text at a name of the function of a call's piece.
pub open spec fn function_text(tc: JsonView, key: Seq<char>) -> Option<Seq<char>> {
    match tc.get("function"@) {
        Some(f) => f.str_at(key),
        None => None,
    }
}

/// The index of a call's piece.
pub open spec fn piece_index(tc: JsonView) -> usize {
    match tc.u64_at("index"@) {
        Some(n) => n as usize,
        None => 0,
    }
}

/// Parts with pieces added.
pub open spec fn with_pieces(parts: Seq<PartView>, v: Seq<JsonView>) -> Seq<PartView>
    decreases v.len(),
{
    if v.len() == 0 {
        parts
    } else {
        let tc = v.last();
        pushed(
            with_pieces(parts, v.drop_last()),
            piece_index(tc),
            tc.str_at("id"@),
            function_text(tc, "name"@),
            function_text(tc, "arguments"@),
        )
    }
}

/// The elements at a name, none when there is no list.
pub open spec fn list_at(d: JsonView, key: Seq<char>) -> Seq<JsonView> {
    match d.array_at(key) {
        Some(a) => a,
        None => Seq::empty(),
    }
}

/// What an event's delta adds.
pub open spec fn with_delta(h: HeardView, d: JsonView) -> HeardView {
    HeardView {
        content: h.content + text_or_empty(d.str_at("content"@)),
        reasoning: h.reasoning + concat(thoughts(list_at(d, "reasoning_details"@))),
        calls: with_pieces(h.calls, list_at(d, "tool_calls"@)),
        finish: h.finish,
        usage: h.usage,
    }
}

/// How the reply ends after a choice.
pub open spec fn finish_after(f: FinishReason, ch: JsonView) -> FinishReason {
    match ch.str_at("finish_reason"@) {
        Some(s) => if s == "tool_calls"@ {
            FinishReason::ToolCalls
        } else {
            FinishReason::Stop
        },
        None => f,
    }
}

/// What has been heard after an event.
pub open spec fn after_event(h: HeardView, o: JsonView) -> HeardView {
    let usage = match o.get("usage"@) {
        Some(u) => Some(u),
        None => h.usage,
    };
    match first_choice(o) {
        Some(ch) => {
            let g = HeardView { finish: finish_after(h.finish, ch), usage, ..h };
            match ch.get("delta"@) {
                Some(d) => with_delta(g, d),
                None => g,
            }
        },
        None => HeardView { usage, ..h },
    }
}

/// The pieces that an event's delta shows: the answer's, then the thoughts.
pub open spec fn delta_pieces(d: JsonView) -> Seq<DeltaView> {
    let c = text_or_empty(d.str_at("content"@));
    let head = if c.len() > 0 {
        seq![DeltaView::Content(c)]
    } else {
        Seq::empty()
    };
    head + thoughts(list_at(d, "reasoning_details"@)).map_values(
        |t: Seq<char>| DeltaView::Thinking(t),
    )
}

/// The pieces that an event shows.
pub open spec fn event_pieces(o: JsonView) -> Seq<DeltaView> {
    match first_choice(o) {
        Some(ch) => match ch.get("delta"@) {
            Some(d) => delta_pieces(d),
            None => Seq::empty(),
        },
        None => Seq::empty(),
    }
}

/// What has been heard of a reply.
#[derive(Debug)]
pub struct Heard {
    pub content: String,
    pub reasoning: String,
    pub calls: ToolCallAccum,
    pub finish: FinishReason,
    pub usage: Option<Json>,
}

impl View for Heard {
    type V = HeardView;

    open spec fn view(&self) -> HeardView {
        HeardView {
            content: self.content@,
            reasoning: self.reasoning@,
            calls: self.calls@,
            finish: self.finish,
            usage: opt_json(self.usage),
        }
    }
}

fn str_in_function(tc: &Json, key: &str) -> (r: Option<String>)
    ensures
        opt_text(r) == function_text(tc@, key@),
{
    match tc.get("function") {
        Some(f) => match f.str_at(key) {
            Some(s) => Some(s.to_owned()),
            None => None,
        },
        None => None,
    }
}

fn add_thoughts(reasoning: &mut String, v: &Vec<Json>, shown: &mut Vec<Delta>)
    ensures
        final(reasoning)@ == old(reasoning)@ + concat(thoughts(jsons(v@))),
        delta_views(final(shown)@) == delta_views(old(shown)@) + thoughts(jsons(v@)).map_values(
            |t: Seq<char>| DeltaView::Thinking(t),
        ),
{
    let ghost all = jsons(v@);
    let ghost start = reasoning@;
    let ghost shown_before = delta_views(shown@);
    let ghost wrap = |t: Seq<char>| DeltaView::Thinking(t);
    let mut i: usize = 0;
    proof {
        lemma_jsons_len(v@);
        assert(start + concat(thoughts(all.take(0))) =~= start);
        assert(shown_before + thoughts(all.take(0)).map_values(wrap) =~= shown_before);
    }
    while i < v.len()
        invariant
            all == jsons(v@),
            all.len() == v@.len(),
            i <= v@.len(),
            wrap == |t: Seq<char>| DeltaView::Thinking(t),
            reasoning@ == start + concat(thoughts(all.take(i as int))),
            delta_views(shown@) == shown_before + thoughts(all.take(i as int)).map_values(wrap),
        decreases v@.len() - i,
    {
        let ghost before = thoughts(all.take(i as int));
        let ghost was = reasoning@;
        let ghost list = shown@;
        proof {
            lemma_jsons_at(v@, i as int);
            let t = all.take(i + 1);
            assert(t.drop_last() =~= all.take(i as int));
            assert(t.last() == v@[i as int]@);
        }
        if let Some(t) = v[i].str_at("text") {
            if t.unicode_len() > 0 {
                reasoning.push_str(t);
                shown.push(Delta::Thinking(t.to_owned()));
                proof {
                    assert(before.push(t@).drop_last() =~= before);
                    assert(reasoning@ =~= start + concat(before.push(t@)));
                    assert(delta_views(shown@) =~= delta_views(list).push(
                        DeltaView::Thinking(t@),
                    ));
                    assert(delta_views(shown@) =~= shown_before + before.push(t@).map_values(wrap));
                }
            }
        }
        i = i + 1;
    }
    assert(all.take(i as int) =~= all);
}

impl Heard {
    /// The parts of calls stand in order.
    pub open spec fn wf(&self) -> bool {
        self.calls.wf()
    }

    /// Nothing has been heard.
    pub fn new() -> (r: Heard)
        ensures
            r.wf(),
            r@ == nothing_heard(),
    {
        Heard {
            content: String::new(),
            reasoning: String::new(),
            calls: ToolCallAccum::new(),
            finish: FinishReason::Stop,
            usage: None,
        }
    }

    fn add_pieces(&mut self, v: &Vec<Json>)
        requires
            old(self).wf(),
        ensures
            final(self).wf(),
            final(self)@ == (HeardView {
                calls: with_pieces(old(self)@.calls, jsons(v@)),
                ..old(self)@
            }),
    {
        let ghost all = jsons(v@);
        let ghost start = self@;
        let mut i: usize = 0;
        proof {
            lemma_jsons_len(v@);
            assert(all.take(0) =~= Seq::empty());
        }
        while i < v.len()
            invariant
                all == jsons(v@),
                all.len() == v@.len(),
                i <= v@.len(),
                self.wf(),
                self@ == (HeardView {
                    calls: with_pieces(start.calls, all.take(i as int)),
                    ..start
                }),
            decreases v@.len() - i,
        {
            proof {
                lemma_jsons_at(v@, i as int);
                let t = all.take(i + 1);
                assert(t.drop_last() =~= all.take(i as int));
                assert(t.last() == v@[i as int]@);
            }
            let tc = &v[i];
            let index: usize = match tc.u64_at("index") {
                Some(n) => n as usize,
                None => 0,
            };
            let id = match tc.str_at("id") {
                Some(s) => Some(s.to_owned()),
                None => None,
            };
            self.calls.push(index, id, str_in_function(tc, "name"), str_in_function(tc, "arguments"));
            i = i + 1;
        }
        assert(all.take(i as int) =~= all);
    }

    fn add_delta(&mut self, d: &Json, shown: &mut Vec<Delta>)
        requires
            old(self).wf(),
        ensures
            final(self).wf(),
            final(self)@ == with_delta(old(self)@, d@),
            delta_views(final(shown)@) == delta_views(old(shown)@) + delta_pieces(d@),
    {
        let ghost start = self@;
        let ghost first = shown@;
        let ghost c = text_or_empty(d@.str_at("content"@));
        let ghost head = if c.len() > 0 {
            seq![DeltaView::Content(c)]
        } else {
            Seq::empty()
        };
        if let Some(s) = d.str_at("content") {
            if s.unicode_len() > 0 {
                self.content.push_str(s);
                shown.push(Delta::Content(s.to_owned()));
            }
        }
        let ghost middle = delta_views(shown@);
        proof {
            assert(self.content@ =~= start.content + c);
            assert(middle =~= delta_views(first) + head);
        }
        let ghost none = Seq::<JsonView>::empty();
        if let Some(v) = d.array_at("reasoning_details") {
            add_thoughts(&mut self.reasoning, v, shown);
        } else {
            proof {
                assert(self.reasoning@ + concat(thoughts(none)) =~= self.reasoning@);
            }
        }
        proof {
            let list = thoughts(list_at(d@, "reasoning_details"@));
            assert(delta_views(shown@) =~= delta_views(first) + delta_pieces(d@));
        }
        if let Some(v) = d.array_at("tool_calls") {
            self.add_pieces(v);
        }
    }

    /// Takes in an event; gives the pieces that it shows.
    pub fn apply_event(&mut self, o: &Json) -> (shown: Vec<Delta>)
        requires
            old(self).wf(),
        ensures
            final(self).wf(),
            final(self)@ == after_event(old(self)@, o@),
            delta_views(shown@) == event_pieces(o@),
    {
        let mut shown: Vec<Delta> = Vec::new();
        assert(delta_views(shown@) =~= Seq::empty());
        if let Some(u) = o.get("usage") {
            self.usage = Some(u.clone());
        }
        let choices = match o.array_at("choices") {
            Some(v) => v,
            None => {
                return shown;
            },
        };
        proof {
            lemma_jsons_len(choices@);
        }
        if choices.len() == 0 {
            return shown;
        }
        let ch = &choices[0];
        proof {
            lemma_jsons_at(choices@, 0);
        }
        if let Some(fr) = ch.str_at("finish_reason") {
            self.finish = if str_eq(fr, "tool_calls") {
                FinishReason::ToolCalls
            } else {
                FinishReason::Stop
            };
        }
        if let Some(d) = ch.get("delta") {
            self.add_delta(d, &mut shown);
            assert(delta_views(shown@) =~= event_pieces(o@));
        }
        shown
    }
}

// ---------------------------------------------------------------------------
// Lines
// ---------------------------------------------------------------------------

/// The payload of a data line: what stands behind `data:` and one space.
pub open spec fn data_payload(line: Seq<char>) -> Option<Seq<char>> {
    match strip_prefix(line, "data:"@) {
        Some(rest) => Some(
            if rest.len() > 0 && rest[0] == ' ' {
                rest.skip(1)
            } else {
                rest
            },
        ),
        None => None,
    }
}

/// The payload of a data line; nothing of any other line.
pub fn parse_data_line(line: &str) -> (r: Option<String>)
    ensures
        opt_text(r) == data_payload(line@),
{
    let v = to_chars(line);
    let p = to_chars("data:");
    match strip_prefix_chars(v.as_slice(), p.as_slice()) {
        Some(rest) => {
            let n: usize = rest.len();
            if n > 0 && rest[0] == ' ' {
                assert(rest@.subrange(1, n as int) =~= rest@.skip(1));
                Some(from_chars(slice_subrange(rest, 1, n)))
            } else {
                Some(from_chars(rest))
            }
        },
        None => None,
    }
}

/// A text without the carriage returns at its end.
pub open spec fn without_returns(s: Seq<char>) -> Seq<char>
    decreases s.len(),
{
    if s.len() > 0 && s.last() == '\r' {
        without_returns(s.drop_last())
    } else {
        s
    }
}

fn drop_returns(s: &str) -> (r: String)
    ensures
        r@ == without_returns(s@),
{
    let v = to_chars(s);
    let mut n: usize = v.len();
    assert(v@.take(n as int) =~= v@);
    while n > 0 && v[n - 1] == '\r'
        invariant
            n <= v@.len(),
            without_returns(v@.take(n as int)) == without_returns(v@),
        decreases n,
    {
        proof {
            let t = v@.take(n as int);
            assert(t.last() == '\r');
            assert(t.drop_last() =~= v@.take(n - 1));
        }
        n = n - 1;
    }
    assert(v@.subrange(0, n as int) =~= v@.take(n as int));
    from_chars(slice_subrange(v.as_slice(), 0, n))
}

/// The event that a line carries: none on a line that is no data line, that ends
/// the stream, or whose payload is no JSON.
pub open spec fn line_event(line: Seq<char>) -> Option<JsonView> {
    match data_payload(without_returns(line)) {
        Some(p) => if p == "[DONE]"@ {
            None
        } else {
            match json_read(p) {
                Reading::Value(o) => Some(o),
                Reading::Failure(_) => None,
            }
        },
        None => None,
    }
}

/// What has been heard after a line.
pub open spec fn after_line(h: HeardView, line: Seq<char>) -> HeardView {
    match line_event(line) {
        Some(o) => after_event(h, o),
        None => h,
    }
}

/// What has been heard after lines.
pub open spec fn after_lines(h: HeardView, lines: Seq<Seq<char>>) -> HeardView
    decreases lines.len(),
{
    if lines.len() == 0 {
        h
    } else {
        after_line(after_lines(h, lines.drop_last()), lines.last())
    }
}

/// The pieces that a line shows.
pub open spec fn line_pieces(line: Seq<char>) -> Seq<DeltaView> {
    match line_event(line) {
        Some(o) => event_pieces(o),
        None => Seq::empty(),
    }
}

/// The pieces that lines show.
pub open spec fn lines_pieces(lines: Seq<Seq<char>>) -> Seq<DeltaView>
    decreases lines.len(),
{
    if lines.len() == 0 {
        Seq::empty()
    } else {
        lines_pieces(lines.drop_last()) + line_pieces(lines.last())
    }
}

/// A reply as it streams in: what has been heard, and the line that has begun.
pub struct StreamView {
    pub begun: Seq<char>,
    pub heard: HeardView,
}

/// A stream before anything comes in.
pub open spec fn new_stream() -> StreamView {
    StreamView { begun: Seq::empty(), heard: nothing_heard() }
}

/// The stream after more text: the lines that it ends are heard.
pub open spec fn after_text(s: StreamView, text: Seq<char>) -> StreamView {
    let v = split(s.begun + text, '\n');
    StreamView { begun: v.last(), heard: after_lines(s.heard, v.drop_last()) }
}

/// The pieces that more text shows.
pub open spec fn text_pieces(s: StreamView, text: Seq<char>) -> Seq<DeltaView> {
    lines_pieces(split(s.begun + text, '\n').drop_last())
}

/// What `String::from_utf8_lossy` makes of bytes that are not valid UTF-8.
pub uninterp spec fn lossy_text(bytes: Seq<u8>) -> Seq<char>;

/// The text of bytes: what they encode, or what is made of them when they are not
/// valid UTF-8.
pub open spec fn bytes_text(bytes: Seq<u8>) -> Seq<char> {
    if valid_utf8(bytes) {
        decode_utf8(bytes)
    } else {
        lossy_text(bytes)
    }
}

/// Calls `String::from_utf8_lossy`: the text that valid UTF-8 encodes. Of other
/// bytes only that the text depends on nothing else.
#[verifier::external_body]
pub(crate) fn decode_lossy(bytes: &[u8]) -> (r: String)
    ensures
        r@ == (if valid_utf8(bytes@) {
            decode_utf8(bytes@)
        } else {
            lossy_text(bytes@)
        }),
{
    String::from_utf8_lossy(bytes).into_owned()
}

/// A reply as it streams in.
#[derive(Debug)]
pub struct SseStream {
    pub begun: String,
    pub heard: Heard,
}

impl View for SseStream {
    type V = StreamView;

    open spec fn view(&self) -> StreamView {
        StreamView { begun: self.begun@, heard: self.heard@ }
    }
}

proof fn lemma_split_some(s: Seq<char>, c: char)
    ensures
        split(s, c).len() > 0,
{
    lemma_char_index(s, c);
}

impl SseStream {
    /// The parts of calls stand in order.
    pub open spec fn wf(&self) -> bool {
        self.heard.wf()
    }

    /// A stream before anything comes in.
    pub fn new() -> (r: SseStream)
        ensures
            r.wf(),
            r@ == new_stream(),
    {
        SseStream { begun: String::new(), heard: Heard::new() }
    }

    fn feed_line(&mut self, line: &str) -> (shown: Vec<Delta>)
        requires
            old(self).wf(),
        ensures
            final(self).wf(),
            final(self)@ == (StreamView {
                heard: after_line(old(self)@.heard, line@),
                ..old(self)@
            }),
            delta_views(shown@) == line_pieces(line@),
    {
        let none: Vec<Delta> = Vec::new();
        assert(delta_views(none@) =~= Seq::empty());
        let text = drop_returns(line);
        let payload = match parse_data_line(text.as_str()) {
            Some(p) => p,
            None => {
                return none;
            },
        };
        if str_eq(payload.as_str(), "[DONE]") {
            return none;
        }
        match parse_json(payload.as_str()) {
            Ok(o) => self.heard.apply_event(&o),
            Err(_) => none,
        }
    }

    /// Takes in more text; gives the pieces that it shows.
    pub fn feed_text(&mut self, text: &str) -> (shown: Vec<Delta>)
        requires
            old(self).wf(),
        ensures
            final(self).wf(),
            final(self)@ == after_text(old(self)@, text@),
            delta_views(shown@) == text_pieces(old(self)@, text@),
    {
        let ghost start = self@;
        let mut whole = self.begun.clone();
        whole.push_str(text);
        let lines = split_str(whole.as_str(), '\n');
        let ghost all = texts(lines@);
        proof {
            lemma_split_some(whole@, '\n');
        }
        let n: usize = lines.len() - 1;
        let mut shown: Vec<Delta> = Vec::new();
        let mut i: usize = 0;
        proof {
            assert(delta_views(shown@) =~= lines_pieces(all.take(0)));
        }
        while i < n
            invariant
                self.wf(),
                all == texts(lines@),
                n + 1 == lines@.len(),
                i <= n,
                self@ == (StreamView {
                    begun: start.begun,
                    heard: after_lines(start.heard, all.take(i as int)),
                }),
                delta_views(shown@) == lines_pieces(all.take(i as int)),
            decreases n - i,
        {
            proof {
                let t = all.take(i + 1);
                assert(t.drop_last() =~= all.take(i as int));
                assert(t.last() == lines@[i as int]@);
            }
            let ghost before = shown@;
            let mut more = self.feed_line(lines[i].as_str());
            let ghost extra = more@;
            shown.append(&mut more);
            assert(delta_views(shown@) =~= delta_views(before) + delta_views(extra));
            i = i + 1;
        }
        self.begun = lines[n].clone();
        assert(all.take(n as int) =~= all.drop_last());
        shown
    }

    /// Takes in more bytes; gives the pieces that they show.
    pub fn feed(&mut self, bytes: &[u8]) -> (shown: Vec<Delta>)
        requires
            old(self).wf(),
        ensures
            final(self).wf(),
            final(self)@ == after_text(old(self)@, bytes_text(bytes@)),
            delta_views(shown@) == text_pieces(old(self)@, bytes_text(bytes@)),
    {
        let text = decode_lossy(bytes);
        self.feed_text(text.as_str())
    }
}

// ---------------------------------------------------------------------------
// Chunks
// ---------------------------------------------------------------------------

/// A text that is continued splits as before, but for the last piece, which the
/// continuation belongs to.
proof fn lemma_split_more(a: Seq<char>, b: Seq<char>, c: char)
    ensures
        split(a + b, c) == split(a, c).drop_last() + split(split(a, c).last() + b, c),
    decreases a.len(),
{
    lemma_char_index(a, c);
    lemma_split_some(a, c);
    match char_index(a, c) {
        Some(i) => {
            let rest = a.skip(i + 1);
            assert((a + b)[i] == c);
            assert forall|k: int| 0 <= k < i implies (a + b)[k] != c by {
                assert((a + b)[k] == a[k]);
            }
            lemma_char_index_is(a + b, c, i);
            assert((a + b).take(i) =~= a.take(i));
            assert((a + b).skip(i + 1) =~= rest + b);
            lemma_split_more(rest, b, c);
            lemma_split_some(rest, c);
            assert(split(a, c).last() == split(rest, c).last());
            assert(split(a, c).drop_last() =~= seq![a.take(i)] + split(rest, c).drop_last());
            assert(split(a + b, c) =~= split(a, c).drop_last() + split(split(a, c).last() + b, c));
        },
        None => {
            assert(split(a, c).drop_last() =~= Seq::<Seq<char>>::empty());
            assert(split(a + b, c) =~= split(a, c).drop_last() + split(a + b, c));
        },
    }
}

proof fn lemma_after_lines_add(h: HeardView, a: Seq<Seq<char>>, b: Seq<Seq<char>>)
    ensures
        after_lines(h, a + b) == after_lines(after_lines(h, a), b),
        lines_pieces(a + b) == lines_pieces(a) + lines_pieces(b),
    decreases b.len(),
{
    if b.len() == 0 {
        assert(a + b =~= a);
        assert(lines_pieces(a) + lines_pieces(b) =~= lines_pieces(a));
    } else {
        lemma_after_lines_add(h, a, b.drop_last());
        assert((a + b).drop_last() =~= a + b.drop_last());
        assert((a + b).last() == b.last());
        assert(lines_pieces(a + b) =~= lines_pieces(a) + lines_pieces(b));
    }
}

/// However the text of a reply is cut into chunks, the same is heard and shown.
pub proof fn lemma_chunks(s: StreamView, a: Seq<char>, b: Seq<char>)
    ensures
        after_text(after_text(s, a), b) == after_text(s, a + b),
        text_pieces(s, a) + text_pieces(after_text(s, a), b) == text_pieces(s, a + b),
{
    let x = split(s.begun + a, '\n');
    let y = split(x.last() + b, '\n');
    lemma_split_more(s.begun + a, b, '\n');
    lemma_split_some(s.begun + a, '\n');
    lemma_split_some(x.last() + b, '\n');
    assert(s.begun + a + b =~= s.begun + (a + b));
    let z = split(s.begun + (a + b), '\n');
    assert(z == x.drop_last() + y);
    assert(z.last() == y.last());
    assert(z.drop_last() =~= x.drop_last() + y.drop_last());
    lemma_after_lines_add(s.heard, x.drop_last(), y.drop_last());
}

proof fn lemma_decode_add(a: Seq<u8>, b: Seq<u8>)
    requires
        valid_utf8(a),
        valid_utf8(b),
    ensures
        valid_utf8(a + b),
        decode_utf8(a + b) == decode_utf8(a) + decode_utf8(b),
    decreases a.len(),
{
    valid_utf8_concat(a, b);
    if a.len() == 0 {
        assert(a + b =~= b);
        assert(decode_utf8(a) + decode_utf8(b) =~= decode_utf8(b));
    } else {
        let rest = pop_first_scalar(a);
        lemma_decode_add(rest, b);
        assert(pop_first_scalar(a + b) =~= rest + b);
        assert(decode_utf8(a + b) =~= decode_utf8(a) + decode_utf8(b));
    }
}

/// However the bytes of a reply are cut into chunks, each valid UTF-8, the same
/// is heard and shown.
pub proof fn lemma_byte_chunks(s: StreamView, a: Seq<u8>, b: Seq<u8>)
    requires
        valid_utf8(a),
        valid_utf8(b),
    ensures
        after_text(after_text(s, bytes_text(a)), bytes_text(b)) == after_text(
            s,
            bytes_text(a + b),
        ),
        text_pieces(s, bytes_text(a)) + text_pieces(after_text(s, bytes_text(a)), bytes_text(b))
            == text_pieces(s, bytes_text(a + b)),
{
    lemma_decode_add(a, b);
    lemma_chunks(s, bytes_text(a), bytes_text(b));
}

// ---------------------------------------------------------------------------
// The round
// ---------------------------------------------------------------------------

/// What a reply comes to.
#[derive(Debug)]
pub struct RoundResult {
    pub content: String,
    pub reasoning: String,
    pub tool_calls: Vec<Json>,
    pub finish: FinishReason,
    pub usage: Option<Json>,
    pub assistant_message: Json,
}

/// What the result of a reply holds.
pub struct RoundView {
    pub content: Seq<char>,
    pub reasoning: Seq<char>,
    pub tool_calls: Seq<JsonView>,
    pub finish: FinishReason,
    pub usage: Option<JsonView>,
    pub assistant_message: JsonView,
}

impl View for RoundResult {
    type V = RoundView;

    open spec fn view(&self) -> RoundView {
        RoundView {
            content: self.content@,
            reasoning: self.reasoning@,
            tool_calls: jsons(self.tool_calls@),
            finish: self.finish,
            usage: opt_json(self.usage),
            assistant_message: self.assistant_message@,
        }
    }
}

/// The assistant's message of a reply: its calls when it makes any, otherwise its
/// answer.
pub open spec fn echo(answer: Seq<char>, calls: Seq<JsonView>) -> JsonView {
    if calls.len() == 0 {
        message("assistant"@, JsonView::Str(answer))
    } else {
        message("assistant"@, JsonView::Null).with("tool_calls"@, JsonView::Arr(calls))
    }
}

/// What a reply comes to once all of it has been heard.
pub open spec fn round_of(h: HeardView) -> RoundView {
    let p = parted(h.content);
    let calls = built_calls(h.calls);
    RoundView {
        content: p.answer,
        reasoning: if p.thoughts.len() == 0 {
            h.reasoning
        } else {
            h.reasoning.push('\n') + p.thoughts
        },
        tool_calls: calls,
        finish: h.finish,
        usage: h.usage,
        assistant_message: echo(p.answer, calls),
    }
}

/// The assistant's message of a reply.
pub fn make_echo(answer: &str, calls: &Vec<Json>) -> (r: Json)
    ensures
        r@ == echo(answer@, jsons(calls@)),
{
    proof {
        lemma_jsons_len(calls@);
    }
    if calls.len() == 0 {
        make_message("assistant", Json::str(answer))
    } else {
        make_message("assistant", Json::Null).with("tool_calls", Json::array(clone_jsons(calls)))
    }
}

impl Heard {
    /// What the reply comes to, once all of it has been heard.
    pub fn finish_round(&self) -> (r: RoundResult)
        ensures
            r@ == round_of(self@),
    {
        let tool_calls = self.calls.finalize();
        let (content, extra) = strip_thinking_blocks(self.content.as_str());
        let mut reasoning = self.reasoning.clone();
        if extra.as_str().unicode_len() > 0 {
            reasoning.push('\n');
            reasoning.push_str(extra.as_str());
        }
        let assistant_message = make_echo(content.as_str(), &tool_calls);
        RoundResult {
            content,
            reasoning,
            tool_calls,
            finish: self.finish,
            usage: clone_opt_json(&self.usage),
            assistant_message,
        }
    }
}

/// The texts of chunks of bytes, one after another.
pub open spec fn chunks_text(chunks: Seq<Vec<u8>>) -> Seq<char>
    decreases chunks.len(),
{
    if chunks.len() == 0 {
        Seq::empty()
    } else {
        chunks_text(chunks.drop_last()) + bytes_text(chunks.last()@)
    }
}

/// Takes in a whole reply, chunk by chunk: what it comes to, and the pieces that
/// it shows. How the text is cut into chunks makes no difference.
pub fn consume_sse(chunks: &Vec<Vec<u8>>) -> (r: (RoundResult, Vec<Delta>))
    ensures
        r.0@ == round_of(after_text(new_stream(), chunks_text(chunks@)).heard),
        delta_views(r.1@) == text_pieces(new_stream(), chunks_text(chunks@)),
{
    let mut stream = SseStream::new();
    let mut shown: Vec<Delta> = Vec::new();
    let ghost start = new_stream();
    let mut i: usize = 0;
    proof {
        let none = Seq::<char>::empty();
        assert(chunks@.take(0) =~= Seq::empty());
        assert(none + none =~= none);
        lemma_char_index(none, '\n');
        assert(split(none, '\n') =~= seq![none]);
        assert(split(none, '\n').drop_last() =~= Seq::empty());
        assert(delta_views(shown@) =~= Seq::empty());
    }
    while i < chunks.len()
        invariant
            i <= chunks@.len(),
            start == new_stream(),
            stream.wf(),
            stream@ == after_text(start, chunks_text(chunks@.take(i as int))),
            delta_views(shown@) == text_pieces(start, chunks_text(chunks@.take(i as int))),
        decreases chunks@.len() - i,
    {
        proof {
            let t = chunks@.take(i + 1);
            assert(t.drop_last() =~= chunks@.take(i as int));
            assert(t.last() == chunks@[i as int]);
            lemma_chunks(
                start,
                chunks_text(chunks@.take(i as int)),
                bytes_text(chunks@[i as int]@),
            );
        }
        let ghost before = shown@;
        let mut more = stream.feed(chunks[i].as_slice());
        let ghost extra = more@;
        shown.append(&mut more);
        assert(delta_views(shown@) =~= delta_views(before) + delta_views(extra));
        i = i + 1;
    }
    assert(chunks@.take(i as int) =~= chunks@);
    (stream.heard.finish_round(), shown)
}

} // verus!
