//! The messages that a turn starts from: the pinned blocks and what the history
//! holds since it was last cut off.
use crate::cut::{cap_str, capped};
use crate::decimal::{dec, write_u64};
use crate::files::{attachments, AttachmentRef, AttachmentView};
use crate::history::{events, EventView, HistoryEvent};
use crate::json::{
    clone_jsons, jsons, lemma_jsons_add, lemma_jsons_at, lemma_jsons_len, lemma_jsons_push,
    make_message, message, Fields, Json, JsonView,
};
use crate::llm::{
    loaded, user_message, user_message_with_attachments, LoadedFile, LoadedView,
};
use crate::pairing::{
    answered_ids, called_ids, calls_answered, calls_of, has_role, is_assistant, is_paired, is_tool,
    keeps_call, keeps_message, lemma_answered_add, lemma_called_add, lemma_names, lemma_settled,
    lemma_settled_role, makes_calls, settle_calls, settled,
};
use crate::text::{blank, is_blank, opt_text, str_eq, trim_end, trimmed_end};
use vstd::prelude::*;

verus! {

/// How many bytes of a subagent's summary go into a message.
pub const SUBAGENT_SUMMARY_RENDER_CAP: usize = 131072;

/// What stands behind a summary that was cut.
pub const SUMMARY_CUT_MARK: &'static str = "…（已截断，完整产出可用 subagent status 查看）";

/// What the model is told about the shell on Windows.
pub const WINDOWS_HINT: &'static str = "# 运行环境\n- 平台 Windows（绿色桌面 app）。bash 工具实际执行 **POSIX sh**（自带 busybox-w32，`sh -c \"<命令>\"`），**不是 cmd / PowerShell**。\n- 工作目录 = workspace 根；输出 UTF-8。\n- 用 POSIX 命令，勿用 cmd 内建：`ls`(非 dir)、`grep`(非 findstr)、`cat`(非 type)、`cp/mv/rm`(非 copy/move/del)、`$VAR`(非 %VAR%)。\n- 仅 POSIX sh：不支持 `${var,,}`、`shopt`、`declare` 数组、`<(...)` 进程替换、`[[ ]]`（用 `[ ]`）。\n- 命令作为单个 sh 脚本传入：引号 / 管道 / `$()` / `&&` 直接写，无需 cmd 转义；路径正/反斜杠均可。";

/// What the model is told about the shell elsewhere.
pub const POSIX_HINT: &'static str = "# 运行环境\n- 平台 macOS/Linux。bash 工具执行系统 **/bin/sh**（POSIX sh，`sh -c \"<命令>\"`）。\n- 工作目录 = workspace 根。\n- 仅 POSIX sh：不支持 bash-ism（`${var,,}`、`shopt`、`declare` 数组、`<(...)` 进程替换、`[[ ]]` 用 `[ ]`）。";

/// The blocks that every turn starts with.
#[derive(Debug)]
pub struct PinnedBlocks {
    pub system_prompt: String,
    pub soul: Option<String>,
    pub agent: Option<String>,
    pub memory: Option<String>,
}

/// What the model is told about the shell.
pub open spec fn env_hint(windows: bool) -> Seq<char> {
    if windows {
        WINDOWS_HINT@
    } else {
        POSIX_HINT@
    }
}

/// What the model is told about the shell.
pub fn shell_env_hint(windows: bool) -> (r: &'static str)
    ensures
        r@ == env_hint(windows),
{
    if windows {
        WINDOWS_HINT
    } else {
        POSIX_HINT
    }
}

/// A text with a block behind it, unless the block is missing or blank.
pub open spec fn with_block(s: Seq<char>, tag: Seq<char>, body: Option<Seq<char>>) -> Seq<char> {
    match body {
        Some(b) => if is_blank(b) {
            s
        } else {
            s + "\n\n"@ + tag + "\n"@ + b
        },
        None => s,
    }
}

/// The text of the one system message.
pub open spec fn pinned_text(p: PinnedBlocks, windows: bool) -> Seq<char> {
    let head = trim_end(p.system_prompt@) + "\n\n"@ + env_hint(windows);
    let soul = with_block(head, "# 灵魂（SOUL.md）"@, opt_text(p.soul));
    let agent = with_block(soul, "# 工具与规范（AGENT.md）"@, opt_text(p.agent));
    with_block(agent, "# 记忆索引（MEMORY.md）"@, opt_text(p.memory))
}

/// The one system message.
pub open spec fn pinned_message(p: PinnedBlocks, windows: bool) -> JsonView {
    message("system"@, JsonView::Str(pinned_text(p, windows)))
}

fn push_block(s: &mut String, tag: &str, body: &Option<String>)
    ensures
        final(s)@ == with_block(old(s)@, tag@, opt_text(*body)),
{
    if let Some(b) = body {
        if !blank(b.as_str()) {
            s.push_str("\n\n");
            s.push_str(tag);
            s.push_str("\n");
            s.push_str(b.as_str());
        }
    }
}

impl PinnedBlocks {
    /// The blocks as messages: one system message.
    pub fn to_messages(&self, windows: bool) -> (r: Vec<Json>)
        ensures
            jsons(r@) == seq![pinned_message(*self, windows)],
    {
        let mut s = trimmed_end(self.system_prompt.as_str());
        s.push_str("\n\n");
        s.push_str(shell_env_hint(windows));
        push_block(&mut s, "# 灵魂（SOUL.md）", &self.soul);
        push_block(&mut s, "# 工具与规范（AGENT.md）", &self.agent);
        push_block(&mut s, "# 记忆索引（MEMORY.md）", &self.memory);
        let m = make_message("system", Json::Str(s));
        let mut out: Vec<Json> = Vec::new();
        proof {
            lemma_jsons_push(out@, m);
        }
        out.push(m);
        assert(jsons(out@) =~= seq![pinned_message(*self, windows)]);
        out
    }
}

/// A block that was read, unless it is blank.
pub open spec fn non_blank(text: Option<Seq<char>>) -> Option<Seq<char>> {
    match text {
        Some(t) => if is_blank(t) {
            None
        } else {
            Some(t)
        },
        None => None,
    }
}

fn keep_non_blank(text: Option<String>) -> (r: Option<String>)
    ensures
        opt_text(r) == non_blank(opt_text(text)),
{
    match text {
        Some(t) => if blank(t.as_str()) {
            None
        } else {
            Some(t)
        },
        None => None,
    }
}

/// The blocks out of the system prompt and the files that could be read; a
/// blank file counts as none.
pub fn load_pinned(
    system_prompt: &str,
    soul: Option<String>,
    agent: Option<String>,
    memory: Option<String>,
) -> (r: PinnedBlocks)
    ensures
        r.system_prompt@ == system_prompt@,
        opt_text(r.soul) == non_blank(opt_text(soul)),
        opt_text(r.agent) == non_blank(opt_text(agent)),
        opt_text(r.memory) == non_blank(opt_text(memory)),
{
    PinnedBlocks {
        system_prompt: system_prompt.to_owned(),
        soul: keep_non_blank(soul),
        agent: keep_non_blank(agent),
        memory: keep_non_blank(memory),
    }
}

// ---------------------------------------------------------------------------
// The cut
// ---------------------------------------------------------------------------

/// The number up to which a marker cuts the history off.
pub open spec fn marker_cut(e: EventView) -> Option<u64> {
    if e.kind == "marker"@ {
        e.body().u64_at("until_seq"@)
    } else {
        None
    }
}

/// The highest number up to which a marker, of either kind, cuts the history
/// off.
pub open spec fn last_cut(evs: Seq<EventView>) -> Option<u64>
    decreases evs.len(),
{
    if evs.len() == 0 {
        None
    } else {
        let head = last_cut(evs.drop_last());
        match (head, marker_cut(evs.last())) {
            (None, x) => x,
            (Some(a), None) => Some(a),
            (Some(a), Some(b)) => Some(if a >= b {
                a
            } else {
                b
            }),
        }
    }
}

/// The highest number up to which a marker cuts the history off.
pub fn last_marker_until_seq(evs: &Vec<HistoryEvent>) -> (r: Option<u64>)
    ensures
        r == last_cut(events(evs@)),
{
    let mut best: Option<u64> = None;
    let mut i: usize = 0;
    while i < evs.len()
        invariant
            i <= evs@.len(),
            best == last_cut(events(evs@).take(i as int)),
        decreases evs@.len() - i,
    {
        proof {
            let t = events(evs@).take(i + 1);
            assert(t.drop_last() =~= events(evs@).take(i as int));
            assert(t.last() == evs@[i as int]@);
        }
        if evs[i].is_kind("marker") {
            if let Some(u) = evs[i].u64_at("until_seq") {
                best = match best {
                    Some(a) => if a >= u {
                        Some(a)
                    } else {
                        Some(u)
                    },
                    None => Some(u),
                };
            }
        }
        i = i + 1;
    }
    assert(events(evs@).take(i as int) =~= events(evs@));
    best
}

/// `last_cut` is the cut of some marker, and no marker cuts further.
pub proof fn lemma_last_cut(evs: Seq<EventView>)
    ensures
        match last_cut(evs) {
            Some(c) => (exists|i: int|
                0 <= i < evs.len() && marker_cut(#[trigger] evs[i]) == Some(c)) && forall|i: int|
                0 <= i < evs.len() ==> (marker_cut(#[trigger] evs[i]) matches Some(x) ==> x <= c),
            None => forall|i: int| 0 <= i < evs.len() ==> marker_cut(#[trigger] evs[i]) is None,
        },
    decreases evs.len(),
{
    if evs.len() > 0 {
        let head = evs.drop_last();
        lemma_last_cut(head);
        assert(forall|i: int| 0 <= i < head.len() ==> head[i] == evs[i]);
        assert(evs[evs.len() - 1] == evs.last());
        if let Some(c) = last_cut(evs) {
            if marker_cut(evs.last()) != Some(c) {
                let i = choose|i: int|
                    0 <= i < head.len() && marker_cut(#[trigger] head[i]) == Some(c);
                assert(marker_cut(evs[i]) == Some(c));
            }
        }
    }
}

// ---------------------------------------------------------------------------
// One event as a message
// ---------------------------------------------------------------------------

/// A text with a prefix in tags before it, unless the prefix is blank.
pub open spec fn prefixed(prefix: Seq<char>, text: Seq<char>) -> Seq<char> {
    if is_blank(prefix) {
        text
    } else {
        "<prefix>"@ + prefix + "</prefix>"@ + text
    }
}

/// Puts a prefix in tags before a text.
pub fn with_prefix(prefix: &str, text: &str) -> (r: String)
    ensures
        r@ == prefixed(prefix@, text@),
{
    if blank(prefix) {
        return text.to_owned();
    }
    let mut s = "<prefix>".to_owned();
    s.push_str(prefix);
    s.push_str("</prefix>");
    s.push_str(text);
    s
}

/// An attachment reference out of a JSON value: an object with two strings, or
/// an array of them.
pub open spec fn attachment_of(v: JsonView) -> Option<AttachmentView> {
    match v {
        JsonView::Obj(m) => match (v.str_at("staged_path"@), v.str_at("kind"@)) {
            (Some(p), Some(k)) => Some(AttachmentView { staged_path: p, kind: k }),
            _ => None,
        },
        JsonView::Arr(a) => if a.len() == 2 {
            match (a[0].as_str(), a[1].as_str()) {
                (Some(p), Some(k)) => Some(AttachmentView { staged_path: p, kind: k }),
                _ => None,
            }
        } else {
            None
        },
        _ => None,
    }
}

/// All elements of an array are attachment references.
pub open spec fn all_attachments(a: Seq<JsonView>) -> bool {
    forall|i: int| 0 <= i < a.len() ==> attachment_of(#[trigger] a[i]) is Some
}

/// The attachment references out of a JSON value: none at all when one of them
/// is malformed.
pub open spec fn attachments_of(v: Option<JsonView>) -> Seq<AttachmentView> {
    match v {
        Some(JsonView::Arr(a)) => if all_attachments(a) {
            a.map_values(|x: JsonView| attachment_of(x)->0)
        } else {
            Seq::empty()
        },
        _ => Seq::empty(),
    }
}

fn read_attachment(v: &Json) -> (r: Option<AttachmentRef>)
    ensures
        match r {
            Some(a) => attachment_of(v@) == Some(a@),
            None => attachment_of(v@) is None,
        },
{
    match v {
        Json::Obj(_) => {
            let p = v.str_at("staged_path");
            let k = v.str_at("kind");
            match (p, k) {
                (Some(p), Some(k)) => Some(
                    AttachmentRef { staged_path: p.to_owned(), kind: k.to_owned() },
                ),
                _ => None,
            }
        },
        Json::Arr(a) => {
            proof {
                lemma_jsons_len(a@);
            }
            if a.len() != 2 {
                return None;
            }
            proof {
                lemma_jsons_at(a@, 0);
                lemma_jsons_at(a@, 1);
            }
            match (a[0].as_str(), a[1].as_str()) {
                (Some(p), Some(k)) => Some(
                    AttachmentRef { staged_path: p.to_owned(), kind: k.to_owned() },
                ),
                _ => None,
            }
        },
        _ => None,
    }
}

/// Reads the attachment references out of a JSON value.
pub fn read_attachments(v: Option<&Json>) -> (r: Vec<AttachmentRef>)
    ensures
        attachments(r@) == attachments_of(crate::json::opt_json_ref(v)),
{
    let mut out: Vec<AttachmentRef> = Vec::new();
    let a: &Vec<Json> = match v {
        Some(Json::Arr(a)) => a,
        _ => {
            assert(attachments(out@) =~= Seq::empty());
            return out;
        },
    };
    let ghost views = jsons(a@);
    proof {
        lemma_jsons_len(a@);
    }
    let mut i: usize = 0;
    while i < a.len()
        invariant
            crate::json::opt_json_ref(v) == Some(JsonView::Arr(views)),
            views == jsons(a@),
            views.len() == a@.len(),
            i <= a@.len(),
            out@.len() == i,
            forall|k: int|
                0 <= k < i ==> attachment_of(#[trigger] views[k]) == Some(out@[k]@),
        decreases a@.len() - i,
    {
        proof {
            lemma_jsons_at(a@, i as int);
        }
        match read_attachment(&a[i]) {
            Some(x) => {
                out.push(x);
            },
            None => {
                assert(attachment_of(views[i as int]) is None);
                let none: Vec<AttachmentRef> = Vec::new();
                assert(attachments(none@) =~= Seq::empty());
                return none;
            },
        }
        i = i + 1;
    }
    assert(all_attachments(views));
    assert(attachments(out@) =~= views.map_values(|x: JsonView| attachment_of(x)->0));
    out
}

/// The name of a subagent, by a text or by a number; `0` when there is neither.
pub open spec fn agent_name(v: Option<JsonView>) -> Seq<char> {
    match v {
        Some(JsonView::Str(s)) => s,
        Some(JsonView::Uint(n)) => dec(n as nat),
        _ => "0"@,
    }
}

/// How a subagent's end reads in the conversation. An event that does not say
/// whether it went well counts as one that did.
pub open spec fn subagent_text(d: JsonView) -> Seq<char> {
    let state = if d.bool_at("ok"@) == Some(false) {
        "失败"@
    } else {
        "完成"@
    };
    "[子代理 #"@ + agent_name(d.get("agent_id"@)) + " "@ + state + "] "@ + capped(
        d.text_at("summary"@),
        SUBAGENT_SUMMARY_RENDER_CAP as int,
        SUMMARY_CUT_MARK@,
    ) + " [完整对话: "@ + d.text_at("ref"@) + "]"@
}

/// How something from outside reads in the conversation.
pub open spec fn external_text(d: JsonView) -> Seq<char> {
    let path = d.text_at("path"@);
    let what = "[外部] "@ + d.text_at("what"@);
    if path.len() == 0 {
        what
    } else {
        what + " "@ + path
    }
}

/// The assistant's answer as a message: its text, or its calls with a null
/// content.
pub open spec fn assistant_message(d: JsonView) -> JsonView {
    let base = map!["role"@ => JsonView::Str("assistant"@)];
    match d.array_at("tool_calls"@) {
        Some(calls) => if calls.len() > 0 {
            JsonView::Obj(
                base.insert("content"@, JsonView::Null).insert("tool_calls"@, JsonView::Arr(calls)),
            )
        } else {
            JsonView::Obj(base.insert("content"@, JsonView::Str(d.text_at("content"@))))
        },
        None => JsonView::Obj(base.insert("content"@, JsonView::Str(d.text_at("content"@)))),
    }
}

/// A tool's result as a message.
pub open spec fn tool_message(id: Seq<char>, content: Seq<char>) -> JsonView {
    JsonView::Obj(
        map![
        "role"@ => JsonView::Str("tool"@),
        "tool_call_id"@ => JsonView::Str(id),
        "content"@ => JsonView::Str(content)],
    )
}

/// The message that an event stands for; none for an edit, a marker or an
/// unknown kind.
pub open spec fn message_of(e: EventView, files: Seq<LoadedView>) -> Option<JsonView> {
    let d = e.body();
    let prefix = d.text_at("prefix"@);
    if e.kind == "user"@ {
        Some(
            user_message(
                prefixed(prefix, d.text_at("text"@)),
                attachments_of(d.get("attachments"@)),
                files,
            ),
        )
    } else if e.kind == "assistant"@ {
        Some(assistant_message(d))
    } else if e.kind == "tool_result"@ {
        Some(tool_message(d.text_at("call_id"@), d.text_at("result"@)))
    } else if e.kind == "subagent_result"@ {
        Some(message("user"@, JsonView::Str(prefixed(prefix, subagent_text(d)))))
    } else if e.kind == "external"@ {
        Some(message("user"@, JsonView::Str(prefixed(prefix, external_text(d)))))
    } else {
        None
    }
}

fn make_subagent_text(e: &HistoryEvent) -> (r: String)
    ensures
        r@ == subagent_text(e@.body()),
{
    let id = match e.data.get("agent_id") {
        Some(v) => match v {
            Json::Str(s) => s.clone(),
            Json::Uint(n) => write_u64(*n),
            _ => "0".to_owned(),
        },
        None => "0".to_owned(),
    };
    let ok = match e.data.get("ok") {
        Some(v) => match v.as_bool() {
            Some(b) => b,
            None => true,
        },
        None => true,
    };
    let mut s = "[子代理 #".to_owned();
    s.push_str(id.as_str());
    s.push_str(" ");
    s.push_str(if ok {
        "完成"
    } else {
        "失败"
    });
    s.push_str("] ");
    s.push_str(
        cap_str(e.text_at("summary"), SUBAGENT_SUMMARY_RENDER_CAP, SUMMARY_CUT_MARK).as_str(),
    );
    s.push_str(" [完整对话: ");
    s.push_str(e.text_at("ref"));
    s.push_str("]");
    s
}

fn make_external_text(e: &HistoryEvent) -> (r: String)
    ensures
        r@ == external_text(e@.body()),
{
    let path = e.text_at("path");
    let mut s = "[外部] ".to_owned();
    s.push_str(e.text_at("what"));
    if !path.is_empty() {
        s.push_str(" ");
        s.push_str(path);
    }
    s
}

fn make_assistant_message(e: &HistoryEvent) -> (r: Json)
    ensures
        r@ == assistant_message(e@.body()),
{
    let mut f = Fields::new();
    f.insert("role", Json::str("assistant"));
    if let Some(v) = e.data.get("tool_calls") {
        if let Some(calls) = v.as_array() {
            proof {
                lemma_jsons_len(calls@);
            }
            if calls.len() > 0 {
                f.insert("content", Json::Null);
                f.insert("tool_calls", Json::array(clone_jsons(calls)));
                return Json::Obj(f);
            }
        }
    }
    f.insert("content", Json::str(e.text_at("content")));
    Json::Obj(f)
}

/// Builds the message with a tool's result.
pub fn make_tool_message(id: &str, content: &str) -> (r: Json)
    ensures
        r@ == tool_message(id@, content@),
{
    let mut f = Fields::new();
    f.insert("role", Json::str("tool"));
    f.insert("tool_call_id", Json::str(id));
    f.insert("content", Json::str(content));
    Json::Obj(f)
}

/// The message that an event stands for, with what was read of the files that
/// it refers to.
pub fn event_to_message(e: &HistoryEvent, files: &Vec<LoadedFile>) -> (r: Option<Json>)
    ensures
        crate::json::opt_json(r) == message_of(e@, loaded(files@)),
{
    if e.is_kind("user") {
        let text = with_prefix(e.text_at("prefix"), e.text_at("text"));
        let atts = read_attachments(e.data.get("attachments"));
        Some(user_message_with_attachments(text.as_str(), &atts, files))
    } else if e.is_kind("assistant") {
        Some(make_assistant_message(e))
    } else if e.is_kind("tool_result") {
        Some(make_tool_message(e.text_at("call_id"), e.text_at("result")))
    } else if e.is_kind("subagent_result") {
        let text = with_prefix(e.text_at("prefix"), make_subagent_text(e).as_str());
        Some(make_message("user", Json::Str(text)))
    } else if e.is_kind("external") {
        let text = with_prefix(e.text_at("prefix"), make_external_text(e).as_str());
        Some(make_message("user", Json::Str(text)))
    } else {
        None
    }
}

// ---------------------------------------------------------------------------
// The context
// ---------------------------------------------------------------------------

/// An event that a turn sees: of the main conversation and behind the cut.
pub open spec fn in_context(e: EventView, cut: Option<u64>) -> bool {
    e.is_main() && match cut {
        Some(s) => e.seq > s,
        None => true,
    }
}

/// The messages of the events that a turn sees.
pub open spec fn messages_of(evs: Seq<EventView>, cut: Option<u64>, files: Seq<LoadedView>) -> Seq<
    JsonView,
>
    decreases evs.len(),
{
    if evs.len() == 0 {
        Seq::empty()
    } else {
        let head = messages_of(evs.drop_last(), cut, files);
        match message_of(evs.last(), files) {
            Some(m) => if in_context(evs.last(), cut) {
                head.push(m)
            } else {
                head
            },
            None => head,
        }
    }
}

/// The messages that a turn starts from: the system message, and what the
/// history holds behind the cut, with calls and answers paired and without calls at
/// the end.
pub open spec fn context_messages(
    evs: Seq<EventView>,
    pinned: PinnedBlocks,
    files: Seq<LoadedView>,
    windows: bool,
) -> Seq<JsonView> {
    seq![pinned_message(pinned, windows)] + settled(messages_of(evs, last_cut(evs), files))
}

fn seen(e: &HistoryEvent, cut: Option<u64>) -> (r: bool)
    ensures
        r == in_context(e@, cut),
{
    e.is_main() && match cut {
        Some(s) => e.seq > s,
        None => true,
    }
}

/// Builds the messages that a turn starts from. The number of turns to keep is
/// taken for the sake of the callers and does not matter.
pub fn build_messages(
    evs: &Vec<HistoryEvent>,
    pinned: &PinnedBlocks,
    _cap_after_dream: usize,
    files: &Vec<LoadedFile>,
    windows: bool,
) -> (r: Vec<Json>)
    ensures
        jsons(r@) == context_messages(events(evs@), *pinned, loaded(files@), windows),
{
    let cut = last_marker_until_seq(evs);
    let mut msgs: Vec<Json> = Vec::new();
    let mut i: usize = 0;
    while i < evs.len()
        invariant
            i <= evs@.len(),
            jsons(msgs@) == messages_of(events(evs@).take(i as int), cut, loaded(files@)),
        decreases evs@.len() - i,
    {
        proof {
            let t = events(evs@).take(i + 1);
            assert(t.drop_last() =~= events(evs@).take(i as int));
            assert(t.last() == evs@[i as int]@);
        }
        if seen(&evs[i], cut) {
            if let Some(m) = event_to_message(&evs[i], files) {
                proof {
                    lemma_jsons_push(msgs@, m);
                }
                msgs.push(m);
            }
        }
        i = i + 1;
    }
    assert(events(evs@).take(i as int) =~= events(evs@));
    settle_calls(&mut msgs);
    let mut out = pinned.to_messages(windows);
    proof {
        lemma_jsons_add(out@, msgs@);
    }
    out.append(&mut msgs);
    out
}

/// An attachment whose file is read for the context: a document or a text.
pub open spec fn wants_file(a: AttachmentView) -> bool {
    crate::llm::is_doc_kind(a.kind) || crate::llm::is_inline_kind(a.kind)
}

/// The attachments of one event whose files are read for the context.
pub open spec fn event_files(e: EventView, cut: Option<u64>) -> Seq<AttachmentView> {
    if in_context(e, cut) && e.kind == "user"@ {
        attachments_of(e.body().get("attachments"@)).filter(|a: AttachmentView| wants_file(a))
    } else {
        Seq::empty()
    }
}

/// The attachments whose files are read for the context.
pub open spec fn files_wanted(evs: Seq<EventView>, cut: Option<u64>) -> Seq<AttachmentView>
    decreases evs.len(),
{
    if evs.len() == 0 {
        Seq::empty()
    } else {
        files_wanted(evs.drop_last(), cut) + event_files(evs.last(), cut)
    }
}

fn push_wanted(out: &mut Vec<AttachmentRef>, atts: &Vec<AttachmentRef>)
    ensures
        attachments(final(out)@) == attachments(old(out)@) + attachments(atts@).filter(
            |a: AttachmentView| wants_file(a),
        ),
{
    let ghost p = |a: AttachmentView| wants_file(a);
    let ghost head = attachments(out@);
    let mut k: usize = 0;
    proof {
        reveal(Seq::filter);
        assert(head + attachments(atts@).take(0).filter(p) =~= head);
    }
    while k < atts.len()
        invariant
            p == (|a: AttachmentView| wants_file(a)),
            k <= atts@.len(),
            attachments(out@) == head + attachments(atts@).take(k as int).filter(p),
        decreases atts@.len() - k,
    {
        proof {
            reveal(Seq::filter);
            let t = attachments(atts@).take(k + 1);
            assert(t.drop_last() =~= attachments(atts@).take(k as int));
            assert(t.last() == atts@[k as int]@);
        }
        let kind = atts[k].kind.as_str();
        if str_eq(kind, "pdf") || str_eq(kind, "docx") || crate::llm::is_inline_text_kind(kind) {
            let ghost prev = out@;
            out.push(atts[k].clone());
            assert(attachments(out@) =~= attachments(prev).push(atts@[k as int]@));
            assert(attachments(out@) =~= head + attachments(atts@).take(k + 1).filter(p));
        }
        k = k + 1;
    }
    assert(attachments(atts@).take(k as int) =~= attachments(atts@));
}

/// The attachments whose files have to be read before `build_messages`.
pub fn context_files(evs: &Vec<HistoryEvent>) -> (r: Vec<AttachmentRef>)
    ensures
        attachments(r@) == files_wanted(events(evs@), last_cut(events(evs@))),
{
    let cut = last_marker_until_seq(evs);
    let mut out: Vec<AttachmentRef> = Vec::new();
    let mut i: usize = 0;
    assert(attachments(out@) =~= Seq::empty());
    while i < evs.len()
        invariant
            i <= evs@.len(),
            attachments(out@) == files_wanted(events(evs@).take(i as int), cut),
        decreases evs@.len() - i,
    {
        proof {
            let t = events(evs@).take(i + 1);
            assert(t.drop_last() =~= events(evs@).take(i as int));
            assert(t.last() == evs@[i as int]@);
        }
        if seen(&evs[i], cut) && evs[i].is_kind("user") {
            let atts = read_attachments(evs[i].data.get("attachments"));
            push_wanted(&mut out, &atts);
        } else {
            assert(files_wanted(events(evs@).take(i as int), cut) + Seq::empty() =~= files_wanted(
                events(evs@).take(i as int),
                cut,
            ));
        }
        i = i + 1;
    }
    assert(events(evs@).take(i as int) =~= events(evs@));
    out
}

// ---------------------------------------------------------------------------
// What holds of every context
// ---------------------------------------------------------------------------

proof fn lemma_message_role(e: EventView, files: Seq<LoadedView>)
    ensures
        message_of(e, files) matches Some(m) ==> m.str_at("role"@) == Some("user"@) || m.str_at(
            "role"@,
        ) == Some("assistant"@) || m.str_at("role"@) == Some("tool"@),
        e.kind == "user"@ || e.kind == "subagent_result"@ || e.kind == "external"@ ==> (message_of(
            e,
            files,
        ) matches Some(m) && m.str_at("role"@) == Some("user"@)),
{
    lemma_names();
    reveal_strlit("user");
    reveal_strlit("assistant");
    reveal_strlit("tool_result");
    reveal_strlit("subagent_result");
    reveal_strlit("external");
    assert("user"@.len() == 4 && "assistant"@.len() == 9 && "tool_result"@.len() == 11);
    assert("subagent_result"@.len() == 15 && "external"@.len() == 8);
}

/// An event with which the user, a subagent or something outside speaks.
pub open spec fn is_spoken(e: EventView) -> bool {
    e.kind == "user"@ || e.kind == "subagent_result"@ || e.kind == "external"@
}

/// The messages of what was said behind a cut, in the order of the events.
pub open spec fn spoken_messages(
    evs: Seq<EventView>,
    cut: Option<u64>,
    files: Seq<LoadedView>,
) -> Seq<JsonView> {
    evs.filter(|e: EventView| in_context(e, cut) && is_spoken(e)).map_values(
        |e: EventView| message_of(e, files)->0,
    )
}

proof fn lemma_messages_roles(evs: Seq<EventView>, cut: Option<u64>, files: Seq<LoadedView>)
    ensures
        messages_of(evs, cut, files).filter(|m: JsonView| has_role(m, "user"@)) == spoken_messages(
            evs,
            cut,
            files,
        ),
        messages_of(evs, cut, files).filter(|m: JsonView| has_role(m, "system"@)) == Seq::<
            JsonView,
        >::empty(),
    decreases evs.len(),
{
    reveal(Seq::filter);
    lemma_names();
    let spoken = |e: EventView| in_context(e, cut) && is_spoken(e);
    let f = |e: EventView| message_of(e, files)->0;
    let p = |m: JsonView| has_role(m, "user"@);
    let q = |m: JsonView| has_role(m, "system"@);
    if evs.len() > 0 {
        let t = evs.drop_last();
        let e = evs.last();
        lemma_messages_roles(t, cut, files);
        lemma_message_role(e, files);
        reveal_strlit("user");
        reveal_strlit("system");
        assert("user"@.len() == 4 && "system"@.len() == 6);
        let head = messages_of(t, cut, files);
        if spoken(e) {
            assert(t.filter(spoken).push(e).map_values(f) =~= t.filter(spoken).map_values(f).push(
                f(e),
            ));
        }
        if let Some(m) = message_of(e, files) {
            assert(head.push(m).drop_last() =~= head);
        }
    } else {
        assert(spoken_messages(evs, cut, files) =~= Seq::empty());
    }
}

/// A context begins with the system message and holds no other.
pub proof fn lemma_one_system_message(
    evs: Seq<EventView>,
    pinned: PinnedBlocks,
    files: Seq<LoadedView>,
    windows: bool,
)
    ensures
        ({
            let c = context_messages(evs, pinned, files, windows);
            &&& c.len() > 0
            &&& c[0] == pinned_message(pinned, windows)
            &&& forall|i: int|
                0 < i < c.len() ==> (#[trigger] c[i]).str_at("role"@) != Some("system"@)
        }),
{
    lemma_names();
    let c = context_messages(evs, pinned, files, windows);
    let raw = messages_of(evs, last_cut(evs), files);
    let s = settled(raw);
    let q = |m: JsonView| has_role(m, "system"@);
    lemma_messages_roles(evs, last_cut(evs), files);
    lemma_settled_role(raw, "system"@);
    assert forall|i: int| 0 < i < c.len() implies (#[trigger] c[i]).str_at("role"@) != Some(
        "system"@,
    ) by {
        assert(c[i] == s[i - 1]);
        if q(s[i - 1]) {
            s.lemma_filter_contains(q, i - 1);
        }
    }
}

/// The user's messages in a context are those of what the user, subagents and
/// something outside said in the main conversation behind the cut: all of them, in
/// the order of the events, and no others.
pub proof fn lemma_user_messages(
    evs: Seq<EventView>,
    pinned: PinnedBlocks,
    files: Seq<LoadedView>,
    windows: bool,
)
    ensures
        context_messages(evs, pinned, files, windows).filter(|m: JsonView| has_role(m, "user"@))
            == spoken_messages(evs, last_cut(evs), files),
{
    lemma_names();
    reveal_strlit("user");
    reveal_strlit("system");
    assert("user"@.len() == 4 && "system"@.len() == 6);
    let sys = pinned_message(pinned, windows);
    let raw = messages_of(evs, last_cut(evs), files);
    let s = settled(raw);
    let p = |m: JsonView| has_role(m, "user"@);
    lemma_messages_roles(evs, last_cut(evs), files);
    lemma_settled_role(raw, "user"@);
    assert(sys.str_at("role"@) == Some("system"@));
    Seq::filter_distributes_over_add(seq![sys], s, p);
    assert(seq![sys].filter(p) =~= Seq::empty()) by {
        reveal(Seq::filter);
        assert(seq![sys].drop_last() =~= Seq::<JsonView>::empty());
        assert(Seq::<JsonView>::empty().filter(p) =~= Seq::empty());
    }
    assert(Seq::<JsonView>::empty() + s.filter(p) =~= s.filter(p));
}

/// In a context every call is legal and answered, and the last message makes no
/// call.
pub proof fn lemma_context_calls(
    evs: Seq<EventView>,
    pinned: PinnedBlocks,
    files: Seq<LoadedView>,
    windows: bool,
)
    ensures
        calls_answered(context_messages(evs, pinned, files, windows)),
        !makes_calls(context_messages(evs, pinned, files, windows).last()),
{
    lemma_names();
    let sys = pinned_message(pinned, windows);
    let s = settled(messages_of(evs, last_cut(evs), files));
    let c = context_messages(evs, pinned, files, windows);
    lemma_settled(messages_of(evs, last_cut(evs), files));
    lemma_answered_add(seq![sys], s);
    assert(!is_tool(sys) && !is_assistant(sys)) by {
        assert(sys.str_at("role"@) == Some("system"@));
    }
    assert(seq![sys].drop_last() =~= Seq::<JsonView>::empty());
    reveal_with_fuel(answered_ids, 2);
    assert(answered_ids(seq![sys]) =~= Seq::empty());
    assert(answered_ids(c) =~= answered_ids(s));
    assert forall|i: int| 0 <= i < c.len() implies (calls_of(#[trigger] c[i]) matches Some(calls)
        ==> forall|k: int|
        0 <= k < calls.len() ==> keeps_call(answered_ids(c), #[trigger] calls[k])) by {
        if i > 0 {
            assert(c[i] == s[i - 1]);
        }
    }
    if s.len() > 0 {
        assert(c.last() == s.last());
    } else {
        assert(c.last() == sys);
    }
}

/// In a context every answer is to a legal call of the context.
pub proof fn lemma_context_answers(
    evs: Seq<EventView>,
    pinned: PinnedBlocks,
    files: Seq<LoadedView>,
    windows: bool,
)
    ensures
        is_paired(context_messages(evs, pinned, files, windows)),
{
    lemma_names();
    let sys = pinned_message(pinned, windows);
    let s = settled(messages_of(evs, last_cut(evs), files));
    let c = context_messages(evs, pinned, files, windows);
    lemma_settled(messages_of(evs, last_cut(evs), files));
    lemma_context_calls(evs, pinned, files, windows);
    lemma_called_add(seq![sys], s);
    assert(sys.str_at("role"@) == Some("system"@));
    assert(seq![sys].drop_last() =~= Seq::<JsonView>::empty());
    reveal_with_fuel(called_ids, 2);
    assert(called_ids(seq![sys]) =~= Seq::empty());
    assert(called_ids(c) =~= called_ids(s));
    assert forall|i: int| 0 <= i < c.len() implies keeps_message(called_ids(c), #[trigger] c[i]) by {
        if i > 0 {
            assert(c[i] == s[i - 1]);
        }
    }
}

/// A context depends on the events of the main conversation behind the cut, and
/// on no others.
pub proof fn lemma_only_behind_cut(evs: Seq<EventView>, cut: Option<u64>, files: Seq<LoadedView>)
    ensures
        messages_of(evs, cut, files) == messages_of(
            evs.filter(|e: EventView| in_context(e, cut)),
            cut,
            files,
        ),
    decreases evs.len(),
{
    reveal(Seq::filter);
    let p = |e: EventView| in_context(e, cut);
    if evs.len() > 0 {
        lemma_only_behind_cut(evs.drop_last(), cut, files);
        let f = evs.filter(p);
        if p(evs.last()) {
            assert(f.drop_last() =~= evs.drop_last().filter(p));
            assert(f.last() == evs.last());
        }
    }
}

/// A message from the user, a subagent or outside that stands behind the cut is
/// in the context.
pub proof fn lemma_user_events_included(
    evs: Seq<EventView>,
    pinned: PinnedBlocks,
    files: Seq<LoadedView>,
    windows: bool,
    i: int,
)
    requires
        0 <= i < evs.len(),
        in_context(evs[i], last_cut(evs)),
        is_spoken(evs[i]),
    ensures
        message_of(evs[i], files) matches Some(m) && context_messages(
            evs,
            pinned,
            files,
            windows,
        ).contains(m),
{
    lemma_message_role(evs[i], files);
    lemma_user_messages(evs, pinned, files, windows);
    let cut = last_cut(evs);
    let spoken = |e: EventView| in_context(e, cut) && is_spoken(e);
    let said = evs.filter(spoken);
    evs.lemma_filter_contains(spoken, i);
    let k = choose|k: int| 0 <= k < said.len() && said[k] == evs[i];
    let m = message_of(evs[i], files)->0;
    assert(spoken_messages(evs, cut, files)[k] == m);
    let c = context_messages(evs, pinned, files, windows);
    let p = |m: JsonView| has_role(m, "user"@);
    assert(c.filter(p).contains(m));
    c.lemma_filter_contains_rev(p, m);
}

} // verus!
