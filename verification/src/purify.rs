//! Messages that the service's content filter refuses: stand-ins for what tools
//! returned, and the list of texts that are known to be refused.
use crate::json::{clone_jsons, jsons, lemma_jsons_at, lemma_jsons_len, Json, JsonView};
use crate::pairing::{
    answered_ids, call_id, call_name, called_ids, calls_of, is_paired, is_tool, keeps_call,
    keeps_message, legal_ids, lemma_names, lemma_stripped_paired, message_calls,
    strip_unpaired_tool_calls, stripped,
};
use crate::wire::{numbers_read, read_numbers, write_numbers};
use vstd::prelude::*;
use vstd::utf8::encode_utf8;

verus! {

/// What stands in for a tool's result.
pub const TOOL_RESULT_STUB: &'static str = "[此工具输出因触发服务商内容风控被省略。若仍需要该信息，请换一种措辞重新调用工具获取。]";

/// What stands in for the arguments of a call.
pub const TOOL_CALL_ARGS_STUB: &'static str = "{\"note\":\"原参数因内容风控被省略\"}";

// ---------------------------------------------------------------------------
// Hashes
// ---------------------------------------------------------------------------

/// The FNV-1a hash of bytes, in 64 bits.
pub open spec fn fnv1a(bytes: Seq<u8>) -> u64
    decreases bytes.len(),
{
    if bytes.len() == 0 {
        0xcbf29ce484222325
    } else {
        let h = fnv1a(bytes.drop_last()) ^ (bytes.last() as u64);
        ((h * 0x100000001b3) % 0x1_0000_0000_0000_0000) as u64
    }
}

/// The hash of a text.
pub open spec fn hash_of(s: Seq<char>) -> u64 {
    fnv1a(encode_utf8(s))
}

/// Hashes a text, to find it again.
pub fn text_hash(s: &str) -> (r: u64)
    ensures
        r == hash_of(s@),
{
    let b = s.as_bytes();
    let mut h: u64 = 0xcbf29ce484222325;
    let mut i: usize = 0;
    while i < b.len()
        invariant
            b@ == encode_utf8(s@),
            i <= b@.len(),
            h == fnv1a(b@.take(i as int)),
        decreases b@.len() - i,
    {
        proof {
            let t = b@.take(i + 1);
            assert(t.drop_last() =~= b@.take(i as int));
            assert(t.last() == b@[i as int]);
        }
        h = h ^ (b[i] as u64);
        h = h.wrapping_mul(0x100000001b3);
        i = i + 1;
    }
    assert(b@.take(i as int) =~= b@);
    h
}

proof fn lemma_set_push(s: Seq<u64>, h: u64)
    ensures
        s.push(h).to_set() == s.to_set().insert(h),
{
    assert forall|x: u64| s.push(h).to_set().contains(x) <==> s.to_set().insert(h).contains(x) by {
        if s.contains(x) {
            let k = choose|k: int| 0 <= k < s.len() && s[k] == x;
            assert(s.push(h)[k] == x);
        }
        if x == h {
            assert(s.push(h)[s.len() as int] == x);
        }
    }
    assert(s.push(h).to_set() =~= s.to_set().insert(h));
}

/// The hashes of texts that the service is known to refuse, each once.
#[derive(Debug)]
pub struct Quarantine {
    pub hashes: Vec<u64>,
}

impl View for Quarantine {
    type V = Set<u64>;

    open spec fn view(&self) -> Set<u64> {
        self.hashes@.to_set()
    }
}

/// What a list holds after a text was read into it: a text that is no list of
/// numbers adds nothing.
pub open spec fn after_load(set: Set<u64>, text: Seq<char>) -> Set<u64> {
    match numbers_read(text) {
        Some(v) => set.union(v.to_set()),
        None => set,
    }
}

impl Quarantine {
    /// No hash stands in the list twice.
    pub open spec fn wf(&self) -> bool {
        self.hashes@.no_duplicates()
    }

    /// An empty list.
    pub fn new() -> (r: Quarantine)
        ensures
            r.wf(),
            r@ == Set::<u64>::empty(),
    {
        let r = Quarantine { hashes: Vec::new() };
        assert(r@ =~= Set::<u64>::empty());
        r
    }

    /// Whether a hash stands in the list.
    pub fn contains(&self, h: u64) -> (r: bool)
        ensures
            r == self@.contains(h),
    {
        let mut i: usize = 0;
        while i < self.hashes.len()
            invariant
                i <= self.hashes@.len(),
                forall|k: int| 0 <= k < i ==> self.hashes@[k] != h,
            decreases self.hashes@.len() - i,
        {
            if self.hashes[i] == h {
                assert(self.hashes@.contains(h));
                return true;
            }
            i = i + 1;
        }
        false
    }

    /// Whether the list is empty.
    pub fn is_empty(&self) -> (r: bool)
        ensures
            r == (self@ == Set::<u64>::empty()),
    {
        let r = self.hashes.len() == 0;
        proof {
            if r {
                assert(self@ =~= Set::<u64>::empty());
            } else {
                assert(self@.contains(self.hashes@[0]));
            }
        }
        r
    }

    /// Adds hashes; tells whether the list has grown.
    pub fn add(&mut self, hashes: &Vec<u64>) -> (grown: bool)
        requires
            old(self).wf(),
        ensures
            final(self).wf(),
            final(self)@ == old(self)@.union(hashes@.to_set()),
            grown == (final(self)@ != old(self)@),
    {
        let mut grown = false;
        let mut i: usize = 0;
        proof {
            assert(self@ =~= old(self)@.union(hashes@.take(0).to_set()));
        }
        while i < hashes.len()
            invariant
                i <= hashes@.len(),
                self.wf(),
                self@ == old(self)@.union(hashes@.take(i as int).to_set()),
                grown == (self@ != old(self)@),
            decreases hashes@.len() - i,
        {
            let h: u64 = hashes[i];
            let ghost before = self.hashes@;
            proof {
                let t = hashes@.take(i as int);
                assert(hashes@.take(i + 1) =~= t.push(h));
                lemma_set_push(t, h);
            }
            if !self.contains(h) {
                self.hashes.push(h);
                grown = true;
                proof {
                    lemma_set_push(before, h);
                    assert(!before.to_set().contains(h));
                    assert(!old(self)@.contains(h));
                    assert(self@.contains(h));
                }
            }
            assert(self@ =~= old(self)@.union(hashes@.take(i + 1).to_set()));
            i = i + 1;
        }
        assert(hashes@.take(i as int) =~= hashes@);
        grown
    }

    /// Reads a kept list into this one; tells whether this one has grown.
    pub fn load(&mut self, text: &str) -> (grown: bool)
        requires
            old(self).wf(),
        ensures
            final(self).wf(),
            final(self)@ == after_load(old(self)@, text@),
            grown == (final(self)@ != old(self)@),
    {
        match read_numbers(text) {
            Some(v) => self.add(&v),
            None => false,
        }
    }

    /// The text in which the list is kept.
    pub fn to_text(&self) -> (r: String)
        ensures
            numbers_read(r@) == Some(self.hashes@),
            r@ == seq!['['] + crate::lines::join(
                crate::wire::numerals(self.hashes@),
                seq![','],
            ) + seq![']'],
    {
        write_numbers(&self.hashes)
    }
}

/// A list that is kept and read again is the same list.
pub proof fn lemma_quarantine_kept(q: Quarantine, text: Seq<char>)
    requires
        numbers_read(text) == Some(q.hashes@),
    ensures
        after_load(Set::<u64>::empty(), text) == q@,
        after_load(q@, text) == q@,
{
    assert(after_load(Set::<u64>::empty(), text) =~= q@);
    assert(after_load(q@, text) =~= q@);
}

// ---------------------------------------------------------------------------
// Stand-ins
// ---------------------------------------------------------------------------

/// How many of the messages are tools' results.
pub open spec fn tool_count(msgs: Seq<JsonView>) -> nat
    decreases msgs.len(),
{
    if msgs.len() == 0 {
        0
    } else {
        tool_count(msgs.drop_last()) + if is_tool(msgs.last()) {
            1nat
        } else {
            0nat
        }
    }
}

/// How many tools' results, out of `n`, a level leaves as they are: all at level
/// 0, the older half at level 1, none from level 2 on.
pub open spec fn spared(level: nat, n: nat) -> nat {
    if level == 0 {
        n
    } else if level == 1 {
        n / 2
    } else {
        0
    }
}

/// A tool's result with the stand-in for what it says.
pub open spec fn stub_result(m: JsonView) -> JsonView {
    m.with("content"@, JsonView::Str(TOOL_RESULT_STUB@))
}

/// A call with the stand-in for its arguments.
pub open spec fn stub_call(c: JsonView) -> JsonView {
    match c.get("function"@) {
        Some(JsonView::Obj(f)) => c.with(
            "function"@,
            JsonView::Obj(f.insert("arguments"@, JsonView::Str(TOOL_CALL_ARGS_STUB@))),
        ),
        _ => c,
    }
}

/// A message of the assistant with stand-ins for the arguments of its calls.
pub open spec fn stub_calls(m: JsonView) -> JsonView {
    match calls_of(m) {
        Some(calls) => m.with(
            "tool_calls"@,
            JsonView::Arr(calls.map_values(|c: JsonView| stub_call(c))),
        ),
        None => m,
    }
}

/// What a level makes of the message at a place, before anything is left out.
pub open spec fn stub_at(msgs: Seq<JsonView>, level: nat, i: int) -> JsonView {
    let m = if is_tool(msgs[i]) && tool_count(msgs.take(i)) >= spared(level, tool_count(msgs)) {
        stub_result(msgs[i])
    } else {
        msgs[i]
    };
    if level >= 3 {
        stub_calls(m)
    } else {
        m
    }
}

/// The messages with stand-ins, before anything is left out.
pub open spec fn stub_all(msgs: Seq<JsonView>, level: nat) -> Seq<JsonView> {
    Seq::new(msgs.len(), |i: int| stub_at(msgs, level, i))
}

/// The places of the user's messages.
pub open spec fn user_places(msgs: Seq<JsonView>) -> Seq<int>
    decreases msgs.len(),
{
    if msgs.len() == 0 {
        Seq::empty()
    } else {
        let head = user_places(msgs.drop_last());
        if msgs.last().str_at("role"@) == Some("user"@) {
            head.push(msgs.len() - 1)
        } else {
            head
        }
    }
}

/// The first message and the last two of the user's with what follows them,
/// paired anew, when the user has more than two messages.
pub open spec fn last_two_turns(msgs: Seq<JsonView>) -> Seq<JsonView> {
    let places = user_places(msgs);
    if places.len() > 2 {
        stripped(seq![msgs[0]] + msgs.skip(places[places.len() - 2]))
    } else {
        msgs
    }
}

/// What is sent at a level: the messages as they are at 0, with stand-ins for
/// the newer half of the tools' results at 1 and for all of them at 2, with
/// stand-ins for the arguments of calls too at 3, and only the last two turns
/// of that from 4 on.
pub open spec fn stub_messages(msgs: Seq<JsonView>, level: nat) -> Seq<JsonView> {
    if level == 0 {
        msgs
    } else if level <= 3 {
        stub_all(msgs, level)
    } else {
        last_two_turns(stub_all(msgs, level))
    }
}

fn count_tools(msgs: &Vec<Json>) -> (r: usize)
    ensures
        r == tool_count(jsons(msgs@)),
        r <= msgs@.len(),
{
    let mut n: usize = 0;
    let mut i: usize = 0;
    proof {
        lemma_jsons_len(msgs@);
    }
    while i < msgs.len()
        invariant
            jsons(msgs@).len() == msgs@.len(),
            i <= msgs@.len(),
            n <= i,
            n == tool_count(jsons(msgs@).take(i as int)),
        decreases msgs@.len() - i,
    {
        proof {
            lemma_jsons_at(msgs@, i as int);
            let t = jsons(msgs@).take(i + 1);
            assert(t.drop_last() =~= jsons(msgs@).take(i as int));
            assert(t.last() == msgs@[i as int]@);
        }
        if msgs[i].is_at("role", "tool") {
            n = n + 1;
        }
        i = i + 1;
    }
    assert(jsons(msgs@).take(i as int) =~= jsons(msgs@));
    n
}

fn stubbed_call(c: &Json) -> (r: Json)
    ensures
        r@ == stub_call(c@),
{
    match c.get("function") {
        Some(f) => match f {
            Json::Obj(_) => c.with("function", f.with("arguments", Json::str(TOOL_CALL_ARGS_STUB))),
            _ => c.clone(),
        },
        None => c.clone(),
    }
}

fn stubbed_calls(m: &Json) -> (r: Json)
    ensures
        r@ == stub_calls(m@),
{
    let calls: &Vec<Json> = match message_calls(m) {
        Some(v) => v,
        None => {
            return m.clone();
        },
    };
    let mut out: Vec<Json> = Vec::new();
    let mut k: usize = 0;
    while k < calls.len()
        invariant
            k <= calls@.len(),
            out@.len() == k,
            forall|q: int| 0 <= q < k ==> (#[trigger] out@[q])@ == stub_call(calls@[q]@),
        decreases calls@.len() - k,
    {
        out.push(stubbed_call(&calls[k]));
        k = k + 1;
    }
    proof {
        lemma_jsons_len(calls@);
        lemma_jsons_len(out@);
        let want = jsons(calls@).map_values(|c: JsonView| stub_call(c));
        assert forall|q: int| 0 <= q < out@.len() implies jsons(out@)[q] == want[q] by {
            lemma_jsons_at(out@, q);
            lemma_jsons_at(calls@, q);
        }
        assert(jsons(out@) =~= want);
    }
    m.with("tool_calls", Json::array(out))
}

fn stub_each(msgs: &Vec<Json>, level: usize) -> (r: Vec<Json>)
    requires
        level > 0,
    ensures
        jsons(r@) == stub_all(jsons(msgs@), level as nat),
{
    let n: usize = count_tools(msgs);
    let keep: usize = if level == 1 {
        n / 2
    } else {
        0
    };
    let ghost all = jsons(msgs@);
    proof {
        lemma_jsons_len(msgs@);
    }
    let mut out: Vec<Json> = Vec::new();
    let mut rank: usize = 0;
    let mut i: usize = 0;
    while i < msgs.len()
        invariant
            level > 0,
            all == jsons(msgs@),
            all.len() == msgs@.len(),
            keep == spared(level as nat, tool_count(all)),
            i <= msgs@.len(),
            rank <= i,
            rank == tool_count(all.take(i as int)),
            out@.len() == i,
            forall|k: int|
                0 <= k < i ==> (#[trigger] out@[k])@ == stub_at(all, level as nat, k),
        decreases msgs@.len() - i,
    {
        proof {
            lemma_jsons_at(msgs@, i as int);
            let t = all.take(i + 1);
            assert(t.drop_last() =~= all.take(i as int));
            assert(t.last() == msgs@[i as int]@);
        }
        let tool = msgs[i].is_at("role", "tool");
        let m = if tool && rank >= keep {
            msgs[i].with("content", Json::str(TOOL_RESULT_STUB))
        } else {
            msgs[i].clone()
        };
        if tool {
            rank = rank + 1;
        }
        if level >= 3 {
            out.push(stubbed_calls(&m));
        } else {
            out.push(m);
        }
        i = i + 1;
    }
    proof {
        lemma_jsons_len(out@);
        assert forall|k: int| 0 <= k < out@.len() implies jsons(out@)[k] == stub_at(
            all,
            level as nat,
            k,
        ) by {
            lemma_jsons_at(out@, k);
        }
        assert(jsons(out@) =~= stub_all(all, level as nat));
    }
    out
}

fn find_user_places(msgs: &Vec<Json>) -> (r: Vec<usize>)
    ensures
        r@.len() == user_places(jsons(msgs@)).len(),
        forall|k: int| 0 <= k < r@.len() ==> user_places(jsons(msgs@))[k] == #[trigger] r@[k],
        forall|k: int| 0 <= k < r@.len() ==> (#[trigger] r@[k]) < msgs@.len(),
{
    let mut out: Vec<usize> = Vec::new();
    let mut i: usize = 0;
    proof {
        lemma_jsons_len(msgs@);
    }
    while i < msgs.len()
        invariant
            jsons(msgs@).len() == msgs@.len(),
            i <= msgs@.len(),
            out@.len() == user_places(jsons(msgs@).take(i as int)).len(),
            forall|k: int|
                0 <= k < out@.len() ==> user_places(jsons(msgs@).take(i as int))[k]
                    == #[trigger] out@[k],
            forall|k: int| 0 <= k < out@.len() ==> (#[trigger] out@[k]) < i,
        decreases msgs@.len() - i,
    {
        proof {
            lemma_jsons_at(msgs@, i as int);
            let t = jsons(msgs@).take(i + 1);
            assert(t.drop_last() =~= jsons(msgs@).take(i as int));
            assert(t.last() == msgs@[i as int]@);
        }
        if msgs[i].is_at("role", "user") {
            out.push(i);
        }
        i = i + 1;
    }
    assert(jsons(msgs@).take(i as int) =~= jsons(msgs@));
    out
}

/// The messages as they are sent at a level. The messages themselves stay as
/// they are.
pub fn stub_tool_results(msgs: &Vec<Json>, level: usize) -> (r: Vec<Json>)
    ensures
        jsons(r@) == stub_messages(jsons(msgs@), level as nat),
{
    if level == 0 {
        return clone_jsons(msgs);
    }
    let out = stub_each(msgs, level);
    if level <= 3 {
        return out;
    }
    let places = find_user_places(&out);
    let n: usize = places.len();
    if n <= 2 {
        return out;
    }
    let from: usize = places[n - 2];
    let len: usize = out.len();
    let ghost all = jsons(out@);
    proof {
        lemma_jsons_len(out@);
        lemma_jsons_at(out@, 0);
    }
    let mut kept: Vec<Json> = Vec::new();
    kept.push(out[0].clone());
    let mut i: usize = from;
    while i < len
        invariant
            len == out@.len(),
            from <= i <= len,
            kept@.len() == 1 + i - from,
            kept@[0]@ == out@[0]@,
            forall|k: int|
                1 <= k < kept@.len() ==> (#[trigger] kept@[k])@ == out@[from + k - 1]@,
        decreases len - i,
    {
        kept.push(out[i].clone());
        i = i + 1;
    }
    proof {
        lemma_jsons_len(kept@);
        let want = seq![all[0]] + all.skip(from as int);
        assert forall|k: int| 0 <= k < kept@.len() implies jsons(kept@)[k] == want[k] by {
            lemma_jsons_at(kept@, k);
            if k > 0 {
                lemma_jsons_at(out@, from + k - 1);
            }
        }
        assert(jsons(kept@) =~= want);
    }
    strip_unpaired_tool_calls(&mut kept);
    kept
}

// ---------------------------------------------------------------------------
// What a level replaces
// ---------------------------------------------------------------------------

/// The contents of the tools' results behind the first so many, as far as they are
/// texts.
pub open spec fn newer_texts(msgs: Seq<JsonView>, from: nat) -> Seq<Seq<char>>
    decreases msgs.len(),
{
    if msgs.len() == 0 {
        Seq::empty()
    } else {
        let head = newer_texts(msgs.drop_last(), from);
        let m = msgs.last();
        match m.str_at("content"@) {
            Some(s) => if is_tool(m) && tool_count(msgs.drop_last()) >= from {
                head.push(s)
            } else {
                head
            },
            None => head,
        }
    }
}

/// The text of a call's arguments.
pub open spec fn call_args(c: JsonView) -> Option<Seq<char>> {
    match c.get("function"@) {
        Some(f) => f.str_at("arguments"@),
        None => None,
    }
}

/// The arguments of calls, as far as they are texts.
pub open spec fn args_texts(calls: Seq<JsonView>) -> Seq<Seq<char>>
    decreases calls.len(),
{
    if calls.len() == 0 {
        Seq::empty()
    } else {
        let head = args_texts(calls.drop_last());
        match call_args(calls.last()) {
            Some(s) => head.push(s),
            None => head,
        }
    }
}

/// The arguments of the calls that messages make, as far as they are texts.
pub open spec fn all_args_texts(msgs: Seq<JsonView>) -> Seq<Seq<char>>
    decreases msgs.len(),
{
    if msgs.len() == 0 {
        Seq::empty()
    } else {
        let head = all_args_texts(msgs.drop_last());
        match calls_of(msgs.last()) {
            Some(calls) => head + args_texts(calls),
            None => head,
        }
    }
}

/// The texts that a level puts stand-ins for: the newer tools' results, and from
/// level 3 on the arguments of calls.
pub open spec fn stubbed_texts(msgs: Seq<JsonView>, level: nat) -> Seq<Seq<char>> {
    let newer = newer_texts(msgs, spared(level, tool_count(msgs)));
    if level >= 3 {
        newer + all_args_texts(msgs)
    } else {
        newer
    }
}

/// The hashes of texts.
pub open spec fn hashes_of(v: Seq<Seq<char>>) -> Seq<u64> {
    v.map_values(|s: Seq<char>| hash_of(s))
}

/// The text of a call's arguments.
pub fn args_of_call(c: &Json) -> (r: Option<&str>)
    ensures
        crate::text::opt_str(r) == call_args(c@),
{
    match c.get("function") {
        Some(f) => f.str_at("arguments"),
        None => None,
    }
}

/// The hashes of the texts that a level puts stand-ins for.
pub fn collect_stubbed_hashes(msgs: &Vec<Json>, level: usize) -> (r: Vec<u64>)
    ensures
        r@ == hashes_of(stubbed_texts(jsons(msgs@), level as nat)),
{
    let ghost all = jsons(msgs@);
    proof {
        lemma_jsons_len(msgs@);
    }
    let n: usize = count_tools(msgs);
    let from: usize = if level >= 2 {
        0
    } else if level == 1 {
        n / 2
    } else {
        n
    };
    let mut out: Vec<u64> = Vec::new();
    let mut rank: usize = 0;
    let mut i: usize = 0;
    assert(out@ =~= hashes_of(newer_texts(all.take(0), from as nat)));
    while i < msgs.len()
        invariant
            all == jsons(msgs@),
            all.len() == msgs@.len(),
            i <= msgs@.len(),
            rank <= i,
            rank == tool_count(all.take(i as int)),
            out@ == hashes_of(newer_texts(all.take(i as int), from as nat)),
        decreases msgs@.len() - i,
    {
        proof {
            lemma_jsons_at(msgs@, i as int);
            let t = all.take(i + 1);
            assert(t.drop_last() =~= all.take(i as int));
            assert(t.last() == msgs@[i as int]@);
        }
        if msgs[i].is_at("role", "tool") {
            if rank >= from {
                if let Some(s) = msgs[i].str_at("content") {
                    let ghost before = newer_texts(all.take(i as int), from as nat);
                    out.push(text_hash(s));
                    assert(out@ =~= hashes_of(before.push(s@)));
                }
            }
            rank = rank + 1;
        }
        i = i + 1;
    }
    assert(all.take(i as int) =~= all);
    let ghost newer = newer_texts(all, from as nat);
    if level >= 3 {
        let mut j: usize = 0;
        assert(out@ =~= hashes_of(newer + all_args_texts(all.take(0))));
        while j < msgs.len()
            invariant
                all == jsons(msgs@),
                all.len() == msgs@.len(),
                j <= msgs@.len(),
                out@ == hashes_of(newer + all_args_texts(all.take(j as int))),
            decreases msgs@.len() - j,
        {
            proof {
                lemma_jsons_at(msgs@, j as int);
                let t = all.take(j + 1);
                assert(t.drop_last() =~= all.take(j as int));
                assert(t.last() == msgs@[j as int]@);
            }
            if let Some(calls) = message_calls(&msgs[j]) {
                let ghost base = newer + all_args_texts(all.take(j as int));
                let mut q: usize = 0;
                proof {
                    lemma_jsons_len(calls@);
                    assert(base + args_texts(jsons(calls@).take(0)) =~= base);
                }
                while q < calls.len()
                    invariant
                        q <= calls@.len(),
                        jsons(calls@).len() == calls@.len(),
                        out@ == hashes_of(base + args_texts(jsons(calls@).take(q as int))),
                    decreases calls@.len() - q,
                {
                    proof {
                        lemma_jsons_at(calls@, q as int);
                        let t = jsons(calls@).take(q + 1);
                        assert(t.drop_last() =~= jsons(calls@).take(q as int));
                        assert(t.last() == calls@[q as int]@);
                    }
                    if let Some(s) = args_of_call(&calls[q]) {
                        out.push(text_hash(s));
                        assert(out@ =~= hashes_of(
                            base + args_texts(jsons(calls@).take(q + 1)),
                        ));
                    }
                    q = q + 1;
                }
                proof {
                    assert(jsons(calls@).take(q as int) =~= jsons(calls@));
                    assert(base + args_texts(jsons(calls@)) =~= newer + all_args_texts(
                        all.take(j + 1),
                    ));
                }
            }
            j = j + 1;
        }
        assert(all.take(j as int) =~= all);
    }
    out
}

// ---------------------------------------------------------------------------
// Applying the list
// ---------------------------------------------------------------------------

/// A call, with the stand-in when its arguments are known to be refused.
pub open spec fn screen_call(known: Set<u64>, c: JsonView) -> JsonView {
    match call_args(c) {
        Some(s) => if known.contains(hash_of(s)) {
            stub_call(c)
        } else {
            c
        },
        None => c,
    }
}

/// A message, with stand-ins for what is known to be refused.
pub open spec fn screen_message(known: Set<u64>, m: JsonView) -> JsonView {
    if is_tool(m) {
        match m.str_at("content"@) {
            Some(s) => if known.contains(hash_of(s)) {
                stub_result(m)
            } else {
                m
            },
            None => m,
        }
    } else {
        match calls_of(m) {
            Some(calls) => m.with(
                "tool_calls"@,
                JsonView::Arr(calls.map_values(|c: JsonView| screen_call(known, c))),
            ),
            None => m,
        }
    }
}

/// Messages, with stand-ins for what is known to be refused.
pub open spec fn screened(known: Set<u64>, msgs: Seq<JsonView>) -> Seq<JsonView> {
    msgs.map_values(|m: JsonView| screen_message(known, m))
}

/// The texts of a message that are looked up: what a tool's result says, and the
/// arguments of calls.
pub open spec fn looked_up(m: JsonView) -> Seq<Seq<char>> {
    if is_tool(m) {
        match m.str_at("content"@) {
            Some(s) => seq![s],
            None => Seq::empty(),
        }
    } else {
        match calls_of(m) {
            Some(calls) => args_texts(calls),
            None => Seq::empty(),
        }
    }
}

/// The texts of messages that are looked up.
pub open spec fn all_looked_up(msgs: Seq<JsonView>) -> Seq<Seq<char>>
    decreases msgs.len(),
{
    if msgs.len() == 0 {
        Seq::empty()
    } else {
        all_looked_up(msgs.drop_last()) + looked_up(msgs.last())
    }
}

/// The hashes among those of texts that are known.
pub open spec fn hits(known: Set<u64>, v: Seq<Seq<char>>) -> Seq<u64> {
    hashes_of(v).filter(|h: u64| known.contains(h))
}

proof fn lemma_hits_push(known: Set<u64>, v: Seq<Seq<char>>, s: Seq<char>)
    ensures
        hits(known, v.push(s)) == (if known.contains(hash_of(s)) {
            hits(known, v).push(hash_of(s))
        } else {
            hits(known, v)
        }),
{
    reveal(Seq::filter);
    let h = hashes_of(v.push(s));
    assert(h.drop_last() =~= hashes_of(v));
    assert(h.last() == hash_of(s));
}

fn screen_calls(q: &Quarantine, calls: &Vec<Json>, found: &mut Vec<u64>, seen: Ghost<
    Seq<Seq<char>>,
>) -> (r: Vec<Json>)
    requires
        old(found)@ == hits(q@, seen@),
    ensures
        jsons(r@) == jsons(calls@).map_values(|c: JsonView| screen_call(q@, c)),
        final(found)@ == hits(q@, seen@ + args_texts(jsons(calls@))),
{
    let ghost all = jsons(calls@);
    let mut out: Vec<Json> = Vec::new();
    let mut k: usize = 0;
    proof {
        lemma_jsons_len(calls@);
        assert(seen@ + args_texts(all.take(0)) =~= seen@);
    }
    while k < calls.len()
        invariant
            all == jsons(calls@),
            all.len() == calls@.len(),
            k <= calls@.len(),
            out@.len() == k,
            forall|i: int| 0 <= i < k ==> (#[trigger] out@[i])@ == screen_call(q@, all[i]),
            found@ == hits(q@, seen@ + args_texts(all.take(k as int))),
        decreases calls@.len() - k,
    {
        proof {
            lemma_jsons_at(calls@, k as int);
            let t = all.take(k + 1);
            assert(t.drop_last() =~= all.take(k as int));
            assert(t.last() == calls@[k as int]@);
        }
        let ghost before = seen@ + args_texts(all.take(k as int));
        let mut done = false;
        if let Some(s) = args_of_call(&calls[k]) {
            let h: u64 = text_hash(s);
            proof {
                lemma_hits_push(q@, before, s@);
                assert(before.push(s@) =~= seen@ + args_texts(all.take(k + 1)));
            }
            if q.contains(h) {
                found.push(h);
                out.push(stubbed_call(&calls[k]));
                done = true;
            }
        }
        if !done {
            out.push(calls[k].clone());
        }
        k = k + 1;
    }
    proof {
        assert(all.take(k as int) =~= all);
        lemma_jsons_len(out@);
        let want = all.map_values(|c: JsonView| screen_call(q@, c));
        assert forall|i: int| 0 <= i < out@.len() implies jsons(out@)[i] == want[i] by {
            lemma_jsons_at(out@, i);
        }
        assert(jsons(out@) =~= want);
    }
    out
}

/// The messages with stand-ins for what the list knows, and the hashes that were
/// found, in the order of the messages. The messages themselves stay as they are.
pub fn apply_quarantine(msgs: &Vec<Json>, q: &Quarantine) -> (r: (Vec<Json>, Vec<u64>))
    ensures
        jsons(r.0@) == screened(q@, jsons(msgs@)),
        r.1@ == hits(q@, all_looked_up(jsons(msgs@))),
{
    let ghost all = jsons(msgs@);
    let mut out: Vec<Json> = Vec::new();
    let mut found: Vec<u64> = Vec::new();
    let mut i: usize = 0;
    proof {
        reveal(Seq::filter);
        lemma_jsons_len(msgs@);
        assert(hashes_of(all_looked_up(all.take(0))).len() == 0);
        assert(found@ =~= hits(q@, all_looked_up(all.take(0))));
    }
    while i < msgs.len()
        invariant
            all == jsons(msgs@),
            all.len() == msgs@.len(),
            i <= msgs@.len(),
            out@.len() == i,
            forall|k: int| 0 <= k < i ==> (#[trigger] out@[k])@ == screen_message(q@, all[k]),
            found@ == hits(q@, all_looked_up(all.take(i as int))),
        decreases msgs@.len() - i,
    {
        proof {
            lemma_names();
            lemma_jsons_at(msgs@, i as int);
            let t = all.take(i + 1);
            assert(t.drop_last() =~= all.take(i as int));
            assert(t.last() == msgs@[i as int]@);
        }
        let ghost before = all_looked_up(all.take(i as int));
        proof {
            assert(before + Seq::<Seq<char>>::empty() =~= before);
        }
        let m = &msgs[i];
        if m.is_at("role", "tool") {
            let mut hit = false;
            if let Some(s) = m.str_at("content") {
                let h: u64 = text_hash(s);
                proof {
                    lemma_hits_push(q@, before, s@);
                    assert(before.push(s@) =~= before + seq![s@]);
                }
                if q.contains(h) {
                    found.push(h);
                    hit = true;
                }
            }
            if hit {
                out.push(m.with("content", Json::str(TOOL_RESULT_STUB)));
            } else {
                out.push(m.clone());
            }
        } else {
            match message_calls(m) {
                Some(calls) => {
                    let kept = screen_calls(q, calls, &mut found, Ghost(before));
                    out.push(m.with("tool_calls", Json::array(kept)));
                },
                None => {
                    out.push(m.clone());
                },
            }
        }
        i = i + 1;
    }
    proof {
        assert(all.take(i as int) =~= all);
        lemma_jsons_len(out@);
        let want = screened(q@, all);
        assert forall|k: int| 0 <= k < out@.len() implies jsons(out@)[k] == want[k] by {
            lemma_jsons_at(out@, k);
        }
        assert(jsons(out@) =~= want);
    }
    (out, found)
}

// ---------------------------------------------------------------------------
// Laws
// ---------------------------------------------------------------------------

/// Two messages that make calls with the same ids and names, and answer the same
/// call, in the same role.
pub open spec fn pairs_alike(a: JsonView, b: JsonView) -> bool {
    &&& a.str_at("role"@) == b.str_at("role"@)
    &&& a.str_at("tool_call_id"@) == b.str_at("tool_call_id"@)
    &&& (calls_of(a) is Some) == (calls_of(b) is Some)
    &&& calls_of(a) is Some ==> {
        let x = calls_of(a)->0;
        let y = calls_of(b)->0;
        &&& x.len() == y.len()
        &&& forall|k: int|
            #![trigger x[k]]
            #![trigger y[k]]
            0 <= k < x.len() ==> call_id(x[k]) == call_id(y[k]) && call_name(x[k]) == call_name(
                y[k],
            )
    }
}

/// Two lists of messages that pair alike, one by one.
pub open spec fn all_alike(a: Seq<JsonView>, b: Seq<JsonView>) -> bool {
    a.len() == b.len() && forall|i: int|
        #![trigger a[i]]
        #![trigger b[i]]
        0 <= i < a.len() ==> pairs_alike(a[i], b[i])
}

proof fn lemma_more_names()
    ensures
        "arguments"@ != "name"@,
        "function"@ != "id"@,
{
    reveal_strlit("arguments");
    reveal_strlit("name");
    reveal_strlit("function");
    reveal_strlit("id");
    assert("arguments"@.len() != "name"@.len());
    assert("function"@.len() != "id"@.len());
}

proof fn lemma_legal_alike(x: Seq<JsonView>, y: Seq<JsonView>)
    requires
        x.len() == y.len(),
        forall|k: int|
            #![trigger x[k]]
            #![trigger y[k]]
            0 <= k < x.len() ==> call_id(x[k]) == call_id(y[k]) && call_name(x[k]) == call_name(
                y[k],
            ),
    ensures
        legal_ids(x) == legal_ids(y),
    decreases x.len(),
{
    if x.len() > 0 {
        let a = x.drop_last();
        let b = y.drop_last();
        assert forall|k: int|
            #![trigger a[k]]
            #![trigger b[k]]
            0 <= k < a.len() implies call_id(a[k]) == call_id(b[k]) && call_name(a[k])
            == call_name(b[k]) by {
            assert(a[k] == x[k] && b[k] == y[k]);
        }
        lemma_legal_alike(a, b);
        assert(x.last() == x[x.len() - 1]);
    }
}

proof fn lemma_ids_alike(a: Seq<JsonView>, b: Seq<JsonView>)
    requires
        all_alike(a, b),
    ensures
        answered_ids(a) == answered_ids(b),
        called_ids(a) == called_ids(b),
    decreases a.len(),
{
    if a.len() > 0 {
        let x = a.drop_last();
        let y = b.drop_last();
        assert forall|i: int|
            #![trigger x[i]]
            #![trigger y[i]]
            0 <= i < x.len() implies pairs_alike(x[i], y[i]) by {
            assert(x[i] == a[i] && y[i] == b[i]);
        }
        lemma_ids_alike(x, y);
        assert(pairs_alike(a[a.len() - 1], b[a.len() - 1]));
        if calls_of(a.last()) is Some {
            lemma_legal_alike(calls_of(a.last())->0, calls_of(b.last())->0);
        }
    }
}

/// Lists that pair alike are both paired or both not.
pub proof fn lemma_paired_alike(a: Seq<JsonView>, b: Seq<JsonView>)
    requires
        all_alike(a, b),
        is_paired(a),
    ensures
        is_paired(b),
{
    lemma_ids_alike(a, b);
    assert forall|i: int| 0 <= i < b.len() implies (calls_of(#[trigger] b[i]) matches Some(calls)
        ==> forall|k: int|
        0 <= k < calls.len() ==> keeps_call(answered_ids(b), #[trigger] calls[k])) by {
        assert(pairs_alike(a[i], b[i]));
        if let Some(y) = calls_of(b[i]) {
            let x = calls_of(a[i])->0;
            assert forall|k: int| 0 <= k < y.len() implies keeps_call(
                answered_ids(b),
                #[trigger] y[k],
            ) by {
                assert(keeps_call(answered_ids(a), x[k]));
            }
        }
    }
    assert forall|i: int| 0 <= i < b.len() implies keeps_message(called_ids(b), #[trigger] b[i]) by {
        assert(pairs_alike(a[i], b[i]));
        assert(keeps_message(called_ids(a), a[i]));
    }
}

proof fn lemma_stub_call_alike(c: JsonView)
    ensures
        call_id(stub_call(c)) == call_id(c),
        call_name(stub_call(c)) == call_name(c),
{
    lemma_more_names();
}

proof fn lemma_stub_calls_alike(m: JsonView)
    ensures
        pairs_alike(m, stub_calls(m)),
{
    lemma_names();
    if let Some(calls) = calls_of(m) {
        let y = calls.map_values(|c: JsonView| stub_call(c));
        assert(calls_of(stub_calls(m)) == Some(y));
        assert forall|k: int|
            #![trigger calls[k]]
            #![trigger y[k]]
            0 <= k < calls.len() implies call_id(calls[k]) == call_id(y[k]) && call_name(calls[k])
            == call_name(y[k]) by {
            lemma_stub_call_alike(calls[k]);
        }
    }
}

/// Stand-ins keep roles, ids and names: what paired before pairs after.
pub proof fn lemma_stubs_alike(msgs: Seq<JsonView>, level: nat)
    ensures
        all_alike(msgs, stub_all(msgs, level)),
{
    lemma_names();
    let out = stub_all(msgs, level);
    assert forall|i: int|
        #![trigger msgs[i]]
        #![trigger out[i]]
        0 <= i < msgs.len() implies pairs_alike(msgs[i], out[i]) by {
        let m = if is_tool(msgs[i]) && tool_count(msgs.take(i)) >= spared(level, tool_count(msgs)) {
            stub_result(msgs[i])
        } else {
            msgs[i]
        };
        assert(pairs_alike(msgs[i], m));
        lemma_stub_calls_alike(m);
    }
}

/// What a level makes of paired messages is paired.
pub proof fn lemma_stubbed_paired(msgs: Seq<JsonView>, level: nat)
    requires
        is_paired(msgs),
    ensures
        is_paired(stub_messages(msgs, level)),
{
    if level > 0 {
        let all = stub_all(msgs, level);
        lemma_stubs_alike(msgs, level);
        lemma_paired_alike(msgs, all);
        let places = user_places(all);
        if level > 3 && places.len() > 2 {
            lemma_stripped_paired(seq![all[0]] + all.skip(places[places.len() - 2]));
        }
    }
}

/// Level 0 leaves the messages as they are, and up to level 3 none is left out.
pub proof fn lemma_stub_levels(msgs: Seq<JsonView>, level: nat)
    ensures
        stub_messages(msgs, 0) == msgs,
        level <= 3 ==> stub_messages(msgs, level).len() == msgs.len(),
{
}

proof fn lemma_tool_count(msgs: Seq<JsonView>, i: int)
    requires
        0 <= i < msgs.len(),
        is_tool(msgs[i]),
    ensures
        tool_count(msgs.take(i)) < tool_count(msgs),
    decreases msgs.len(),
{
    if i == msgs.len() - 1 {
        assert(msgs.take(i) =~= msgs.drop_last());
    } else {
        lemma_tool_count(msgs.drop_last(), i);
        assert(msgs.drop_last().take(i) =~= msgs.take(i));
    }
}

proof fn lemma_stub_at_tool(msgs: Seq<JsonView>, level: nat, i: int)
    requires
        0 <= i < msgs.len(),
        is_tool(msgs[i]),
    ensures
        stub_at(msgs, level, i) == if tool_count(msgs.take(i)) >= spared(level, tool_count(msgs)) {
            stub_result(msgs[i])
        } else {
            msgs[i]
        },
{
    lemma_names();
    lemma_tool_count(msgs, i);
    assert(calls_of(stub_result(msgs[i])) is None);
}

/// From level 2 on, no tool's result says what it said, and before that the
/// newer half does not.
pub proof fn lemma_stubbed_results(msgs: Seq<JsonView>, level: nat, i: int)
    requires
        0 < level,
        0 <= i < msgs.len(),
        is_tool(msgs[i]),
        level >= 2 || tool_count(msgs.take(i)) >= tool_count(msgs) / 2,
    ensures
        stub_all(msgs, level)[i].str_at("content"@) == Some(TOOL_RESULT_STUB@),
        stub_all(msgs, level)[i].str_at("tool_call_id"@) == msgs[i].str_at("tool_call_id"@),
{
    lemma_names();
    lemma_stub_at_tool(msgs, level, i);
}

/// With an empty list nothing is replaced and nothing found.
pub proof fn lemma_nothing_known(msgs: Seq<JsonView>)
    ensures
        screened(Set::<u64>::empty(), msgs) == msgs,
        hits(Set::<u64>::empty(), all_looked_up(msgs)) == Seq::<u64>::empty(),
{
    let known = Set::<u64>::empty();
    assert forall|i: int| 0 <= i < msgs.len() implies screened(known, msgs)[i] == msgs[i] by {
        if let Some(calls) = calls_of(msgs[i]) {
            assert(calls.map_values(|c: JsonView| screen_call(known, c)) =~= calls);
            if msgs[i] is Obj {
                let f = msgs[i]->Obj_0;
                assert(f.insert("tool_calls"@, JsonView::Arr(calls)) =~= f);
            }
        }
    }
    assert(screened(known, msgs) =~= msgs);
    let h = hashes_of(all_looked_up(msgs));
    let p = |x: u64| known.contains(x);
    assert(h.filter(p).len() == 0) by {
        if h.filter(p).len() > 0 {
            h.lemma_filter_pred(p, 0);
        }
    }
    assert(hits(known, all_looked_up(msgs)) =~= Seq::<u64>::empty());
}

/// Screening keeps roles, ids and names: what paired before pairs after.
pub proof fn lemma_screened_alike(known: Set<u64>, msgs: Seq<JsonView>)
    ensures
        all_alike(msgs, screened(known, msgs)),
        is_paired(msgs) ==> is_paired(screened(known, msgs)),
{
    lemma_names();
    let out = screened(known, msgs);
    assert forall|i: int|
        #![trigger msgs[i]]
        #![trigger out[i]]
        0 <= i < msgs.len() implies pairs_alike(msgs[i], out[i]) by {
        if !is_tool(msgs[i]) {
            if let Some(calls) = calls_of(msgs[i]) {
                let y = calls.map_values(|c: JsonView| screen_call(known, c));
                assert(calls_of(out[i]) == Some(y));
                assert forall|k: int|
                    #![trigger calls[k]]
                    #![trigger y[k]]
                    0 <= k < calls.len() implies call_id(calls[k]) == call_id(y[k]) && call_name(
                    calls[k],
                ) == call_name(y[k]) by {
                    lemma_stub_call_alike(calls[k]);
                }
            }
        }
    }
    if is_paired(msgs) {
        lemma_paired_alike(msgs, out);
    }
}

proof fn lemma_newer_text_at(msgs: Seq<JsonView>, from: nat, i: int)
    requires
        0 <= i < msgs.len(),
        is_tool(msgs[i]),
        msgs[i].str_at("content"@) is Some,
        tool_count(msgs.take(i)) >= from,
    ensures
        newer_texts(msgs, from).contains(msgs[i].str_at("content"@)->0),
    decreases msgs.len(),
{
    let s = msgs[i].str_at("content"@)->0;
    let all = newer_texts(msgs, from);
    let t = msgs.drop_last();
    if i == msgs.len() - 1 {
        assert(msgs.take(i) =~= t);
        assert(all[all.len() - 1] == s);
    } else {
        assert(t.take(i) =~= msgs.take(i));
        lemma_newer_text_at(t, from, i);
        let head = newer_texts(t, from);
        let j = choose|j: int| 0 <= j < head.len() && head[j] == s;
        assert(all[j] == s);
    }
}

/// What is kept of the tools' results that a level replaces is what they said, and
/// nothing that a result says which it does not replace.
pub proof fn lemma_collected_is_replaced(msgs: Seq<JsonView>, level: nat, j: int) -> (i: int)
    requires
        0 <= j < newer_texts(msgs, spared(level, tool_count(msgs))).len(),
    ensures
        0 <= i < msgs.len(),
        is_tool(msgs[i]),
        msgs[i].str_at("content"@) == Some(newer_texts(msgs, spared(level, tool_count(msgs)))[j]),
        stub_at(msgs, level, i) == stub_result(msgs[i]),
{
    let from = spared(level, tool_count(msgs));
    let i = lemma_newer_source(msgs, from, j);
    lemma_stub_at_tool(msgs, level, i);
    i
}

/// At level 0 nothing is kept.
pub proof fn lemma_nothing_collected(msgs: Seq<JsonView>)
    ensures
        stubbed_texts(msgs, 0) == Seq::<Seq<char>>::empty(),
{
    let v = stubbed_texts(msgs, 0);
    if v.len() > 0 {
        let i = lemma_newer_source(msgs, tool_count(msgs), 0);
        lemma_tool_count(msgs, i);
    }
    assert(v =~= Seq::empty());
}

proof fn lemma_newer_source(msgs: Seq<JsonView>, from: nat, j: int) -> (i: int)
    requires
        0 <= j < newer_texts(msgs, from).len(),
    ensures
        0 <= i < msgs.len(),
        is_tool(msgs[i]),
        msgs[i].str_at("content"@) == Some(newer_texts(msgs, from)[j]),
        tool_count(msgs.take(i)) >= from,
    decreases msgs.len(),
{
    let t = msgs.drop_last();
    if j < newer_texts(t, from).len() {
        let i = lemma_newer_source(t, from, j);
        assert(t.take(i) =~= msgs.take(i));
        i
    } else {
        assert(msgs.take(msgs.len() - 1) =~= t);
        msgs.len() - 1
    }
}

/// Once the texts that a level replaces stand in the list, sending the same
/// messages again replaces them at once: every tool's result that the level puts
/// a stand-in for, and that is a text, is screened.
pub proof fn lemma_collected_is_screened(
    msgs: Seq<JsonView>,
    level: nat,
    known: Set<u64>,
    i: int,
)
    requires
        hashes_of(stubbed_texts(msgs, level)).to_set().subset_of(known),
        0 <= i < msgs.len(),
        is_tool(msgs[i]),
        msgs[i].str_at("content"@) is Some,
        stub_at(msgs, level, i) != msgs[i],
    ensures
        screened(known, msgs)[i] == stub_at(msgs, level, i),
{
    lemma_stub_at_tool(msgs, level, i);
    let from = spared(level, tool_count(msgs));
    let s = msgs[i].str_at("content"@)->0;
    lemma_newer_text_at(msgs, from, i);
    let newer = newer_texts(msgs, from);
    let v = stubbed_texts(msgs, level);
    let j = choose|j: int| 0 <= j < newer.len() && newer[j] == s;
    assert(v[j] == s);
    assert(hashes_of(v)[j] == hash_of(s));
    assert(hashes_of(v).to_set().contains(hash_of(s)));
}

proof fn lemma_args_held(calls: Seq<JsonView>, k: int)
    requires
        0 <= k < calls.len(),
        call_args(calls[k]) is Some,
    ensures
        args_texts(calls).contains(call_args(calls[k])->0),
    decreases calls.len(),
{
    let s = call_args(calls[k])->0;
    let all = args_texts(calls);
    let head = args_texts(calls.drop_last());
    if k == calls.len() - 1 {
        assert(all[all.len() - 1] == s);
    } else {
        lemma_args_held(calls.drop_last(), k);
        let j = choose|j: int| 0 <= j < head.len() && head[j] == s;
        assert(all[j] == s);
    }
}

proof fn lemma_all_args_held(msgs: Seq<JsonView>, i: int, k: int)
    requires
        0 <= i < msgs.len(),
        calls_of(msgs[i]) is Some,
        0 <= k < calls_of(msgs[i])->0.len(),
        call_args(calls_of(msgs[i])->0[k]) is Some,
    ensures
        all_args_texts(msgs).contains(call_args(calls_of(msgs[i])->0[k])->0),
    decreases msgs.len(),
{
    let calls = calls_of(msgs[i])->0;
    let s = call_args(calls[k])->0;
    let all = all_args_texts(msgs);
    let head = all_args_texts(msgs.drop_last());
    if i == msgs.len() - 1 {
        lemma_args_held(calls, k);
        let last = args_texts(calls);
        let j = choose|j: int| 0 <= j < last.len() && last[j] == s;
        assert(all[head.len() + j] == s);
    } else {
        lemma_all_args_held(msgs.drop_last(), i, k);
        let j = choose|j: int| 0 <= j < head.len() && head[j] == s;
        assert(all[j] == s);
    }
}

/// Once the texts that a level from 3 on replaces stand in the list, sending the
/// same messages again replaces the arguments of every call at once.
pub proof fn lemma_collected_args_are_screened(
    msgs: Seq<JsonView>,
    level: nat,
    known: Set<u64>,
    i: int,
    k: int,
)
    requires
        level >= 3,
        hashes_of(stubbed_texts(msgs, level)).to_set().subset_of(known),
        0 <= i < msgs.len(),
        calls_of(msgs[i]) is Some,
        0 <= k < calls_of(msgs[i])->0.len(),
        call_args(calls_of(msgs[i])->0[k]) is Some,
    ensures
        calls_of(screened(known, msgs)[i]) is Some,
        calls_of(screened(known, msgs)[i])->0.len() == calls_of(msgs[i])->0.len(),
        calls_of(screened(known, msgs)[i])->0[k] == stub_call(calls_of(msgs[i])->0[k]),
{
    lemma_names();
    let calls = calls_of(msgs[i])->0;
    let s = call_args(calls[k])->0;
    lemma_all_args_held(msgs, i, k);
    let args = all_args_texts(msgs);
    let j = choose|j: int| 0 <= j < args.len() && args[j] == s;
    let v = stubbed_texts(msgs, level);
    let at = v.len() - args.len() + j;
    assert(v[at] == s);
    assert(hashes_of(v)[at] == hash_of(s));
    assert(hashes_of(v).to_set().contains(hash_of(s)));
    assert(calls_of(screened(known, msgs)[i]) == Some(
        calls.map_values(|c: JsonView| screen_call(known, c)),
    ));
}

} // verus!
