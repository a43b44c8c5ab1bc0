//! The session: what each event becomes in the history, what it sets off, and how
//! questions to the user end.
use crate::ask_user::{
    pick_recommended_label, recommended_label, AskOption, AskResultView, AskUserRequest,
    AskUserResult, PendingAsk,
};
use crate::config::Config;
use crate::context::{
    build_messages, context_messages, in_context, last_cut, lemma_last_cut,
    lemma_user_events_included, marker_cut, message_of, PinnedBlocks,
};
use crate::decimal::{dec_int, parse_signed, parse_unsigned, read_i32, read_u32, write_i64};
use crate::dream_trigger::{
    due, is_open, last_dream, prepare_dream, DreamTrigger, TriggerReason,
};
use crate::files::{attachments, AttachmentRef, AttachmentView};
use crate::history::{
    events, external_event, marker_event, subagent_result_event, tool_result_event, user_event,
    EventView, HistoryEvent,
};
use crate::jobs::{
    empty_registry, is_counted, JobKind, JobOutcome, JobOutcomeView, JobRegistry, JobView,
};
use crate::json::{jsons, lemma_jsons_at, lemma_jsons_len, opt_json, Fields, Json, JsonView};
use crate::lines::{split, split_str};
use crate::llm::{loaded, LoadedFile, LoadedView};
use crate::text::{opt_str, opt_text, text_or_empty, texts, to_chars, trim, trimmed};
use vstd::prelude::*;

verus! {

/// How much longer than the user's time a question waits, in seconds, in case that
/// nobody keeps the user's time.
pub const ASK_RUST_SAFETY_GRACE_SECS: u64 = 120;

/// What happens in a session.
#[derive(Debug)]
pub enum SessionEvent {
    /// The user says something.
    UserMessage { text: String, attachments: Vec<AttachmentRef>, source: String },
    /// Something is noted without an answer.
    ContextNote { text: String },
    /// A background job has ended.
    JobDone(JobOutcome),
    /// The conversation starts over.
    Reset,
    /// It is time to see whether memories are to be made.
    DreamCheck,
    /// Memories are asked for.
    DreamRequest,
    /// The assistant wants to see pictures.
    InjectAttachment { attachments: Vec<AttachmentRef>, caption: String },
    /// The assistant asks the user.
    AwaitUserRequest(AskUserRequest),
    /// A question to the user has ended.
    AwaitUserAnswer {
        question_id: String,
        call_id: String,
        answer: Option<String>,
        skipped: bool,
        timed_out: bool,
        cancelled: bool,
        auto_submitted: bool,
        fallback_no_recommended: bool,
    },
}

// ---------------------------------------------------------------------------
// Texts
// ---------------------------------------------------------------------------

/// How the end of a job reads.
pub open spec fn job_text(o: JobOutcomeView) -> Seq<char> {
    match o.kind {
        JobKind::Process => if o.ok {
            "[后台任务 #"@ + o.job_id + " 完成] 退出码 "@ + (match o.code {
                Some(c) => dec_int(c as int),
                None => "?"@,
            }) + "\n"@ + o.tail
        } else {
            "[后台任务 #"@ + o.job_id + " 失败]\n"@ + o.tail
        },
        JobKind::Agent => {
            let cap = match o.label {
                Some(c) => "（"@ + c + "）"@,
                None => Seq::empty(),
            };
            let answer = text_or_empty(o.answer);
            match o.note {
                None => if o.ok {
                    "[子代理 #"@ + o.job_id + " 完成"@ + cap + "]\n"@ + answer
                } else {
                    "[子代理 #"@ + o.job_id + " 失败"@ + cap + "]\n"@ + answer
                },
                Some(note) => "[子代理 #"@ + o.job_id + " "@ + note + cap + "；部分产出：\n"@
                    + answer + "]"@,
            }
        },
    }
}

/// How the end of a job reads.
pub fn jobdone_body(o: &JobOutcome) -> (r: String)
    ensures
        r@ == job_text(o@),
{
    match o.kind {
        JobKind::Process => {
            let mut s = "[后台任务 #".to_owned();
            s.push_str(o.job_id.as_str());
            if o.ok {
                s.push_str(" 完成] 退出码 ");
                match o.code {
                    Some(c) => {
                        s.push_str(write_i64(c as i64).as_str());
                    },
                    None => {
                        s.push_str("?");
                    },
                }
                s.push_str("\n");
            } else {
                s.push_str(" 失败]\n");
            }
            s.push_str(o.tail.as_str());
            s
        },
        JobKind::Agent => {
            let mut cap = String::new();
            if let Some(c) = &o.label {
                cap = "（".to_owned();
                cap.push_str(c.as_str());
                cap.push_str("）");
            }
            let mut s = "[子代理 #".to_owned();
            s.push_str(o.job_id.as_str());
            let answer = match &o.answer {
                Some(a) => a.clone(),
                None => String::new(),
            };
            match &o.note {
                None => {
                    if o.ok {
                        s.push_str(" 完成");
                    } else {
                        s.push_str(" 失败");
                    }
                    s.push_str(cap.as_str());
                    s.push_str("]\n");
                    s.push_str(answer.as_str());
                },
                Some(note) => {
                    s.push_str(" ");
                    s.push_str(note.as_str());
                    s.push_str(cap.as_str());
                    s.push_str("；部分产出：\n");
                    s.push_str(answer.as_str());
                    s.push_str("]");
                },
            }
            s
        },
    }
}

/// What is said for pictures that the assistant wants to see. It states a fact and
/// gives no order in the user's name.
pub open spec fn inject_note(caption: Seq<char>) -> Seq<char> {
    if trim(caption).len() == 0 {
        "[系统：助手通过 attach 请求纳入以下图片]"@
    } else {
        "[系统：助手通过 attach 请求纳入以下图片："@ + caption + "]"@
    }
}

/// What is said for pictures that the assistant wants to see.
pub fn inject_text(caption: &str) -> (r: String)
    ensures
        r@ == inject_note(caption@),
{
    if trimmed(caption).as_str().unicode_len() == 0 {
        return "[系统：助手通过 attach 请求纳入以下图片]".to_owned();
    }
    let mut s = "[系统：助手通过 attach 请求纳入以下图片：".to_owned();
    s.push_str(caption);
    s.push_str("]");
    s
}

/// How the end of a question reads.
pub open spec fn answer_text(
    answer: Option<Seq<char>>,
    skipped: bool,
    timed_out: bool,
    cancelled: bool,
    auto_submitted: bool,
    fallback_no_recommended: bool,
) -> Seq<char> {
    match answer {
        Some(a) => if cancelled {
            "[询问被外部事件打断（全局中断）]"@
        } else if skipped {
            "[用户未提供回答]"@
        } else if auto_submitted {
            "[用户超时未答,已自动提交推荐项] "@ + a
        } else if timed_out {
            "[用户超时未答] "@ + a
        } else {
            a
        },
        None => if skipped {
            "[用户主动跳过本次询问]"@
        } else if timed_out {
            if fallback_no_recommended {
                "[用户超时未答且无推荐项,请自行决策]"@
            } else {
                "[用户超时未答]"@
            }
        } else if cancelled {
            "[询问被外部事件打断（全局中断）]"@
        } else {
            "[用户未提供回答]"@
        },
    }
}

/// How the end of a question reads.
pub fn ask_user_result_text(
    answer: Option<&str>,
    skipped: bool,
    timed_out: bool,
    cancelled: bool,
    auto_submitted: bool,
    fallback_no_recommended: bool,
) -> (r: String)
    ensures
        r@ == answer_text(
            opt_str(answer),
            skipped,
            timed_out,
            cancelled,
            auto_submitted,
            fallback_no_recommended,
        ),
{
    match answer {
        Some(a) => {
            if cancelled {
                "[询问被外部事件打断（全局中断）]".to_owned()
            } else if skipped {
                "[用户未提供回答]".to_owned()
            } else if auto_submitted {
                let mut s = "[用户超时未答,已自动提交推荐项] ".to_owned();
                s.push_str(a);
                s
            } else if timed_out {
                let mut s = "[用户超时未答] ".to_owned();
                s.push_str(a);
                s
            } else {
                a.to_owned()
            }
        },
        None => {
            if skipped {
                "[用户主动跳过本次询问]".to_owned()
            } else if timed_out {
                if fallback_no_recommended {
                    "[用户超时未答且无推荐项,请自行决策]".to_owned()
                } else {
                    "[用户超时未答]".to_owned()
                }
            } else if cancelled {
                "[询问被外部事件打断（全局中断）]".to_owned()
            } else {
                "[用户未提供回答]".to_owned()
            }
        },
    }
}

// ---------------------------------------------------------------------------
// Events in the history
// ---------------------------------------------------------------------------

/// The prefix of what the user says stands before an event of this kind.
pub open spec fn takes_prefix(kind: Seq<char>) -> bool {
    kind == "user"@ || kind == "subagent_result"@ || kind == "external"@
}

/// An event with the prefix that the settings ask for.
pub open spec fn with_prefix_kept(e: EventView, enabled: bool, prefix: Seq<char>) -> EventView {
    if takes_prefix(e.kind) && enabled && trim(prefix).len() > 0 {
        EventView { data: e.data.insert("prefix"@, JsonView::Str(prefix)), ..e }
    } else {
        e
    }
}

/// Keeps the prefix of the settings with an event, when there is one and the event
/// takes it; tells whether it was kept.
pub fn maybe_snapshot_prefix(current: &mut HistoryEvent, cfg: &Config) -> (r: bool)
    ensures
        final(current)@ == with_prefix_kept(
            old(current)@,
            cfg.user_prompt_prefix_enabled,
            cfg.user_prompt_prefix@,
        ),
        r == (takes_prefix(old(current)@.kind) && cfg.user_prompt_prefix_enabled && trim(
            cfg.user_prompt_prefix@,
        ).len() > 0),
{
    let takes = current.is_kind("user") || current.is_kind("subagent_result") || current.is_kind(
        "external",
    );
    if takes && cfg.user_prompt_prefix_enabled && trimmed(
        cfg.user_prompt_prefix.as_str(),
    ).as_str().unicode_len() > 0 {
        current.data.insert("prefix", Json::str(cfg.user_prompt_prefix.as_str()));
        true
    } else {
        false
    }
}

/// An event that stays inside the session.
pub open spec fn is_signal(e: SessionEvent) -> bool {
    e is DreamCheck || e is DreamRequest || e is AwaitUserRequest
}

/// What an event becomes in the history, before it is numbered.
pub open spec fn kept_event(e: SessionEvent, now: u64, next_seq: u64) -> EventView {
    match e {
        SessionEvent::UserMessage { text, attachments: atts, source } => {
            let ev = user_event(now, "main"@, text@, attachments(atts@));
            EventView { data: ev.data.insert("source"@, JsonView::Str(source@)), ..ev }
        },
        SessionEvent::ContextNote { text } => external_event(now, text@, ""@, None),
        SessionEvent::JobDone(o) => match o.kind {
            JobKind::Agent => subagent_result_event(
                now,
                o.job_id@,
                text_or_empty(opt_text(o.answer)),
                "thread=agent:"@ + o.job_id@,
                o.ok,
            ),
            JobKind::Process => external_event(now, job_text(o@), ""@, None),
        },
        SessionEvent::Reset => marker_event(now, "reset"@, next_seq),
        SessionEvent::InjectAttachment { attachments: atts, caption } => user_event(
            now,
            "main"@,
            inject_note(caption@),
            attachments(atts@),
        ),
        SessionEvent::AwaitUserAnswer {
            call_id,
            answer,
            skipped,
            timed_out,
            cancelled,
            auto_submitted,
            fallback_no_recommended,
            ..
        } => tool_result_event(
            now,
            "main"@,
            "ask_user"@,
            answer_text(
                opt_text(answer),
                skipped,
                timed_out,
                cancelled,
                auto_submitted,
                fallback_no_recommended,
            ),
            call_id@,
        ),
        _ => marker_event(now, ""@, next_seq),
    }
}

/// What an event becomes in the history: numbered as the next one, with the
/// prefix that the settings ask for.
pub open spec fn current_event(
    e: SessionEvent,
    now: u64,
    next_seq: u64,
    enabled: bool,
    prefix: Seq<char>,
) -> EventView {
    with_prefix_kept(
        EventView { seq: next_seq, ..kept_event(e, now, next_seq) },
        enabled,
        prefix,
    )
}

fn keep(e: &SessionEvent, now: u64, next_seq: u64) -> (r: HistoryEvent)
    requires
        !is_signal(*e),
    ensures
        r@ == kept_event(*e, now, next_seq),
{
    match e {
        SessionEvent::UserMessage { text, attachments: atts, source } => {
            let mut ev = HistoryEvent::user(now, "main", text.as_str(), atts);
            ev.data.insert("source", Json::str(source.as_str()));
            ev
        },
        SessionEvent::ContextNote { text } => HistoryEvent::external(now, text.as_str(), "", None),
        SessionEvent::JobDone(o) => match o.kind {
            JobKind::Agent => {
                let mut refs = "thread=agent:".to_owned();
                refs.push_str(o.job_id.as_str());
                let answer = match &o.answer {
                    Some(a) => a.clone(),
                    None => String::new(),
                };
                HistoryEvent::subagent_result(
                    now,
                    o.job_id.as_str(),
                    answer.as_str(),
                    refs.as_str(),
                    o.ok,
                )
            },
            JobKind::Process => HistoryEvent::external(now, jobdone_body(o).as_str(), "", None),
        },
        SessionEvent::Reset => HistoryEvent::marker(now, "reset", next_seq),
        SessionEvent::InjectAttachment { attachments: atts, caption } => HistoryEvent::user(
            now,
            "main",
            inject_text(caption.as_str()).as_str(),
            atts,
        ),
        SessionEvent::AwaitUserAnswer {
            question_id: _,
            call_id,
            answer,
            skipped,
            timed_out,
            cancelled,
            auto_submitted,
            fallback_no_recommended,
        } => {
            let given = match answer {
                Some(a) => Some(a.as_str()),
                None => None,
            };
            let body = ask_user_result_text(
                given,
                *skipped,
                *timed_out,
                *cancelled,
                *auto_submitted,
                *fallback_no_recommended,
            );
            HistoryEvent::tool_result(now, "main", "ask_user", body.as_str(), call_id.as_str())
        },
        _ => HistoryEvent::marker(now, "", next_seq),
    }
}

/// What an event becomes in the history.
pub fn history_event(e: &SessionEvent, now: u64, next_seq: u64, cfg: &Config) -> (r: HistoryEvent)
    requires
        !is_signal(*e),
    ensures
        r@ == current_event(
            *e,
            now,
            next_seq,
            cfg.user_prompt_prefix_enabled,
            cfg.user_prompt_prefix@,
        ),
{
    let mut current = keep(e, now, next_seq);
    current.seq = next_seq;
    let _kept = maybe_snapshot_prefix(&mut current, cfg);
    current
}

/// An event that the assistant answers.
pub open spec fn is_answered(e: SessionEvent) -> bool {
    e is UserMessage || e is JobDone || e is InjectAttachment || e is AwaitUserAnswer
}

/// Whether the assistant answers an event.
pub fn triggers_turn(e: &SessionEvent) -> (r: bool)
    ensures
        r == is_answered(*e),
{
    match e {
        SessionEvent::UserMessage { .. } => true,
        SessionEvent::JobDone(_) => true,
        SessionEvent::InjectAttachment { .. } => true,
        SessionEvent::AwaitUserAnswer { .. } => true,
        _ => false,
    }
}

/// The messages of a turn on an event: what the history holds, and the event
/// behind it.
pub fn turn_messages(
    history: Vec<HistoryEvent>,
    current: HistoryEvent,
    pinned: &PinnedBlocks,
    cap: usize,
    files: &Vec<LoadedFile>,
    windows: bool,
) -> (r: Vec<Json>)
    ensures
        jsons(r@) == context_messages(
            events(history@).push(current@),
            *pinned,
            loaded(files@),
            windows,
        ),
{
    let mut evs = history;
    evs.push(current);
    assert(events(evs@) =~= events(history@).push(current@));
    build_messages(&evs, pinned, cap, files, windows)
}

/// No marker cuts further than to itself.
pub open spec fn cuts_behind(evs: Seq<EventView>) -> bool {
    forall|i: int|
        0 <= i < evs.len() ==> (marker_cut(#[trigger] evs[i]) matches Some(c) ==> c <= evs[i].seq)
}

/// What the user, a subagent or something outside says is in the context of the
/// turn that answers it, whatever markers stand before it.
pub proof fn lemma_current_included(
    e: SessionEvent,
    evs: Seq<EventView>,
    now: u64,
    next_seq: u64,
    enabled: bool,
    prefix: Seq<char>,
    pinned: PinnedBlocks,
    files: Seq<LoadedView>,
    windows: bool,
)
    requires
        e is UserMessage || e is JobDone || e is InjectAttachment,
        cuts_behind(evs),
        forall|i: int| 0 <= i < evs.len() ==> (#[trigger] evs[i]).seq < next_seq,
    ensures
        ({
            let current = current_event(e, now, next_seq, enabled, prefix);
            message_of(current, files) matches Some(m) && context_messages(
                evs.push(current),
                pinned,
                files,
                windows,
            ).contains(m)
        }),
{
    let current = current_event(e, now, next_seq, enabled, prefix);
    let all = evs.push(current);
    let n = evs.len() as int;
    lemma_last_cut(all);
    reveal_strlit("user");
    reveal_strlit("subagent_result");
    reveal_strlit("external");
    reveal_strlit("marker");
    assert("user"@.len() == 4 && "marker"@.len() == 6);
    assert("external"@.len() == 8 && "subagent_result"@.len() == 15);
    assert(all[n] == current);
    assert(current.kind != "marker"@);
    if let Some(c) = last_cut(all) {
        let i = choose|i: int| 0 <= i < all.len() && marker_cut(#[trigger] all[i]) == Some(c);
        if i < n {
            assert(all[i] == evs[i]);
        }
    }
    assert(in_context(all[n], last_cut(all)));
    lemma_user_events_included(all, pinned, files, windows, n);
}

/// The marker with which the conversation starts over does not cut further than
/// to itself.
pub proof fn lemma_reset_cuts_behind(
    evs: Seq<EventView>,
    now: u64,
    next_seq: u64,
    enabled: bool,
    prefix: Seq<char>,
)
    requires
        cuts_behind(evs),
    ensures
        cuts_behind(
            evs.push(current_event(SessionEvent::Reset, now, next_seq, enabled, prefix)),
        ),
        last_cut(
            evs.push(current_event(SessionEvent::Reset, now, next_seq, enabled, prefix)),
        ) is Some,
        last_cut(
            evs.push(current_event(SessionEvent::Reset, now, next_seq, enabled, prefix)),
        )->0 >= next_seq,
{
    let m = current_event(SessionEvent::Reset, now, next_seq, enabled, prefix);
    let all = evs.push(m);
    let n = evs.len() as int;
    reveal_strlit("until_seq");
    reveal_strlit("marker");
    reveal_strlit("user");
    reveal_strlit("subagent_result");
    reveal_strlit("external");
    assert("user"@.len() == 4 && "marker"@.len() == 6 && "until_seq"@.len() == 9);
    assert("external"@.len() == 8 && "subagent_result"@.len() == 15);
    assert(all[n] == m);
    assert(marker_cut(all[n]) == Some(next_seq));
    lemma_last_cut(all);
    assert forall|i: int| 0 <= i < all.len() implies (marker_cut(#[trigger] all[i]) matches Some(c)
        ==> c <= all[i].seq) by {
        if i < n {
            assert(all[i] == evs[i]);
        }
    }
}

// ---------------------------------------------------------------------------
// What an event sets off
// ---------------------------------------------------------------------------

/// Where an event goes.
#[derive(Debug, Clone, Copy, PartialEq, Eq, Structural)]
pub enum Route {
    /// To the making of memories.
    Dream { force: bool },
    /// To the history, and from there to a turn when one answers it.
    History,
    /// Nowhere.
    Drop,
}

/// Where an event goes.
pub open spec fn route_of(e: SessionEvent) -> Route {
    match e {
        SessionEvent::DreamCheck => Route::Dream { force: false },
        SessionEvent::DreamRequest => Route::Dream { force: true },
        SessionEvent::AwaitUserRequest(_) => Route::Drop,
        _ => Route::History,
    }
}

/// Where an event goes.
pub fn route(e: &SessionEvent) -> (r: Route)
    ensures
        r == route_of(*e),
        r == Route::History <==> !is_signal(*e),
{
    match e {
        SessionEvent::DreamCheck => Route::Dream { force: false },
        SessionEvent::DreamRequest => Route::Dream { force: true },
        SessionEvent::AwaitUserRequest(_) => Route::Drop,
        _ => Route::History,
    }
}

/// An event with which the user is active.
pub open spec fn shows_activity(e: SessionEvent) -> bool {
    e is UserMessage || e is ContextNote || e is AwaitUserAnswer
}

/// Whether the user is active with an event.
pub fn is_activity(e: &SessionEvent) -> (r: bool)
    ensures
        r == shows_activity(*e),
{
    match e {
        SessionEvent::UserMessage { .. } => true,
        SessionEvent::ContextNote { .. } => true,
        SessionEvent::AwaitUserAnswer { .. } => true,
        _ => false,
    }
}

/// An event after whose turn it is seen whether memories are to be made.
pub open spec fn may_dream_after(e: SessionEvent) -> bool {
    e is UserMessage || e is JobDone
}

/// Whether it is seen after an event's turn whether memories are to be made.
pub fn dreams_after(e: &SessionEvent) -> (r: bool)
    ensures
        r == may_dream_after(*e),
{
    match e {
        SessionEvent::UserMessage { .. } => true,
        SessionEvent::JobDone(_) => true,
        _ => false,
    }
}

/// The subagents that are asked to stop when the conversation starts over.
pub open spec fn stopped_agents(v: Seq<JobView>) -> Seq<Seq<char>>
    decreases v.len(),
{
    if v.len() == 0 {
        Seq::empty()
    } else {
        let head = stopped_agents(v.drop_last());
        if v.last().kind == JobKind::Agent && v.last().cancel {
            head.push(v.last().id)
        } else {
            head
        }
    }
}

/// Starts over: gives the subagents to stop, and leaves a registry without jobs.
pub fn reset_jobs(registry: &mut JobRegistry, max_agents: usize, today: &str) -> (ids: Vec<String>)
    ensures
        texts(ids@) == stopped_agents(old(registry)@.jobs),
        final(registry)@ == empty_registry(today@, max_agents),
        is_counted(final(registry)@),
{
    let ghost v = registry@.jobs;
    let mut ids: Vec<String> = Vec::new();
    let mut i: usize = 0;
    proof {
        assert(v.take(0) =~= Seq::empty());
        assert(texts(ids@) =~= Seq::empty());
    }
    while i < registry.jobs.len()
        invariant
            v == registry@.jobs,
            i <= registry.jobs@.len(),
            texts(ids@) == stopped_agents(v.take(i as int)),
        decreases registry.jobs@.len() - i,
    {
        let j = &registry.jobs[i];
        proof {
            let t = v.take(i + 1);
            assert(t.drop_last() =~= v.take(i as int));
            assert(t.last() == j@);
        }
        let agent = match j.kind {
            JobKind::Agent => true,
            JobKind::Process => false,
        };
        if agent && j.cancel {
            let ghost before = texts(ids@);
            ids.push(j.id.clone());
            assert(texts(ids@) =~= before.push(j@.id));
        }
        i = i + 1;
    }
    assert(v.take(i as int) =~= v);
    *registry = JobRegistry::new_with_max(max_agents, today);
    ids
}

/// What is shown of a job that has ended.
pub open spec fn job_callback(o: JobOutcomeView) -> JsonView {
    JsonView::Obj(
        map![
            "job_id"@ => JsonView::Str(o.job_id),
            "kind"@ => JsonView::Str(match o.kind {
                JobKind::Process => "process"@,
                JobKind::Agent => "agent"@,
            }),
            "body"@ => JsonView::Str(job_text(o))],
    )
}

/// What is shown of a job that has ended.
pub fn job_callback_payload(o: &JobOutcome) -> (r: Json)
    ensures
        r@ == job_callback(o@),
{
    let mut f = Fields::new();
    f.insert("job_id", Json::str(o.job_id.as_str()));
    f.insert(
        "kind",
        Json::str(
            match o.kind {
                JobKind::Process => "process",
                JobKind::Agent => "agent",
            },
        ),
    );
    f.insert("body", Json::str(jobdone_body(o).as_str()));
    Json::Obj(f)
}

/// What is shown of pictures that the assistant wants to see: the first of them.
pub open spec fn injected(atts: Seq<AttachmentView>, caption: Seq<char>) -> Option<JsonView> {
    if atts.len() == 0 {
        None
    } else {
        Some(
            JsonView::Obj(
                map![
                    "staged_path"@ => JsonView::Str(atts[0].staged_path),
                    "kind"@ => JsonView::Str(atts[0].kind),
                    "caption"@ => JsonView::Str(caption)],
            ),
        )
    }
}

/// What is shown of pictures that the assistant wants to see.
pub fn injected_payload(atts: &Vec<AttachmentRef>, caption: &str) -> (r: Option<Json>)
    ensures
        opt_json(r) == injected(attachments(atts@), caption@),
{
    if atts.len() == 0 {
        return None;
    }
    let mut f = Fields::new();
    f.insert("staged_path", Json::str(atts[0].staged_path.as_str()));
    f.insert("kind", Json::str(atts[0].kind.as_str()));
    f.insert("caption", Json::str(caption));
    Some(Json::Obj(f))
}

// ---------------------------------------------------------------------------
// Questions
// ---------------------------------------------------------------------------

/// Lets a question wait, unless another one waits: questions do not nest. Tells
/// whether it waits.
pub fn begin_question(pending: &mut PendingAsk, question_id: &str) -> (r: bool)
    requires
        old(pending).wf(),
    ensures
        final(pending).wf(),
        r == (old(pending)@ == Set::<Seq<char>>::empty()),
        r ==> final(pending)@ == Set::<Seq<char>>::empty().insert(question_id@),
        !r ==> final(pending)@ == old(pending)@,
{
    if pending.ids.len() > 0 {
        assert(texts(pending.ids@)[0] == pending.ids@[0]@);
        assert(pending@.contains(pending.ids@[0]@));
        return false;
    }
    assert(pending@ =~= Set::<Seq<char>>::empty());
    pending.register(question_id);
    true
}

/// How long a question waits, in seconds.
pub fn ask_wait_secs(req: &AskUserRequest) -> (r: u64)
    requires
        req.timeout_secs + ASK_RUST_SAFETY_GRACE_SECS <= u64::MAX,
    ensures
        r == req.timeout_secs + ASK_RUST_SAFETY_GRACE_SECS,
{
    req.timeout_secs + ASK_RUST_SAFETY_GRACE_SECS
}

/// What ends the wait for an answer.
#[derive(Debug)]
pub enum Waited {
    /// The user interrupted.
    Interrupted,
    /// An answer came.
    Answered(AskUserResult),
    /// Nobody is left to answer.
    Abandoned,
    /// The time is over.
    TimedOut,
}

/// A question that ended without an answer.
pub open spec fn unanswered_result(id: Seq<char>) -> AskResultView {
    AskResultView {
        question_id: id,
        answer: None,
        skipped: false,
        timed_out: false,
        cancelled: false,
        auto_submitted: false,
        fallback_no_recommended: false,
    }
}

/// How a question ends. When the time is over the recommended answer counts, and
/// without one the assistant decides.
pub open spec fn question_result(
    id: Seq<char>,
    options: Seq<AskOption>,
    w: Waited,
) -> AskResultView {
    let label = recommended_label(options);
    match w {
        Waited::Interrupted => AskResultView { cancelled: true, ..unanswered_result(id) },
        Waited::Answered(r) => r@,
        Waited::Abandoned => AskResultView {
            timed_out: true,
            fallback_no_recommended: label is None,
            ..unanswered_result(id)
        },
        Waited::TimedOut => AskResultView {
            answer: label,
            timed_out: true,
            auto_submitted: label is Some,
            fallback_no_recommended: label is None,
            ..unanswered_result(id)
        },
    }
}

/// How a question ends.
pub fn conclude_question(req: &AskUserRequest, waited: Waited) -> (r: AskUserResult)
    ensures
        r@ == question_result(req.question_id@, req.options@, waited),
{
    let label = pick_recommended_label(req.options.as_slice());
    let none = label.is_none();
    let id = req.question_id.clone();
    match waited {
        Waited::Interrupted => AskUserResult {
            question_id: id,
            answer: None,
            skipped: false,
            timed_out: false,
            cancelled: true,
            auto_submitted: false,
            fallback_no_recommended: false,
        },
        Waited::Answered(r) => r,
        Waited::Abandoned => AskUserResult {
            question_id: id,
            answer: None,
            skipped: false,
            timed_out: true,
            cancelled: false,
            auto_submitted: false,
            fallback_no_recommended: none,
        },
        Waited::TimedOut => AskUserResult {
            question_id: id,
            answer: label,
            skipped: false,
            timed_out: true,
            cancelled: false,
            auto_submitted: !none,
            fallback_no_recommended: none,
        },
    }
}

/// How the result of a question reads.
pub open spec fn result_text(r: AskResultView) -> Seq<char> {
    answer_text(
        r.answer,
        r.skipped,
        r.timed_out,
        r.cancelled,
        r.auto_submitted,
        r.fallback_no_recommended,
    )
}

/// The event with which a question comes back to the session, and how it reads.
pub fn answer_event(result: AskUserResult, call_id: &str) -> (r: (SessionEvent, String))
    ensures
        r.1@ == result_text(result@),
        r.0 is AwaitUserAnswer,
        forall|now: u64, next_seq: u64|
            #![trigger kept_event(r.0, now, next_seq)]
            kept_event(r.0, now, next_seq) == tool_result_event(
                now,
                "main"@,
                "ask_user"@,
                result_text(result@),
                call_id@,
            ),
        r.0 matches SessionEvent::AwaitUserAnswer {
            question_id,
            call_id: id,
            answer,
            skipped,
            timed_out,
            cancelled,
            auto_submitted,
            fallback_no_recommended,
        } && id@ == call_id@ && result@ == (AskResultView {
            question_id: question_id@,
            answer: opt_text(answer),
            skipped,
            timed_out,
            cancelled,
            auto_submitted,
            fallback_no_recommended,
        }),
{
    let given = match &result.answer {
        Some(a) => Some(a.as_str()),
        None => None,
    };
    let body = ask_user_result_text(
        given,
        result.skipped,
        result.timed_out,
        result.cancelled,
        result.auto_submitted,
        result.fallback_no_recommended,
    );
    let e = SessionEvent::AwaitUserAnswer {
        question_id: result.question_id,
        call_id: call_id.to_owned(),
        answer: result.answer,
        skipped: result.skipped,
        timed_out: result.timed_out,
        cancelled: result.cancelled,
        auto_submitted: result.auto_submitted,
        fallback_no_recommended: result.fallback_no_recommended,
    };
    (e, body)
}

/// What is answered to a question that comes while another waits.
pub open spec fn nested_text(question_id: Seq<char>) -> Seq<char> {
    "[询问失败] 已有 ask_user 在等待，不能嵌套提问（question_id="@ + question_id + "）"@
}

/// The event with which a question that comes while another waits goes back to the
/// session: an error as the result of its call; and how it reads.
pub fn refused_question(question_id: &str, call_id: &str) -> (r: (SessionEvent, String))
    ensures
        r.1@ == nested_text(question_id@),
        forall|now: u64, next_seq: u64|
            #![trigger kept_event(r.0, now, next_seq)]
            kept_event(r.0, now, next_seq) == tool_result_event(
                now,
                "main"@,
                "ask_user"@,
                nested_text(question_id@),
                call_id@,
            ),
        r.0 matches SessionEvent::AwaitUserAnswer {
            question_id: question,
            call_id: id,
            answer,
            skipped,
            timed_out,
            cancelled,
            auto_submitted,
            fallback_no_recommended,
        } && question@ == question_id@ && id@ == call_id@ && opt_text(answer) == Some(
            nested_text(question_id@),
        ) && !skipped && !timed_out && !cancelled && !auto_submitted && !fallback_no_recommended,
{
    let mut text = "[询问失败] 已有 ask_user 在等待，不能嵌套提问（question_id=".to_owned();
    text.push_str(question_id);
    text.push_str("）");
    let result = AskUserResult {
        question_id: question_id.to_owned(),
        answer: Some(text),
        skipped: false,
        timed_out: false,
        cancelled: false,
        auto_submitted: false,
        fallback_no_recommended: false,
    };
    answer_event(result, call_id)
}

/// A question whose time is over is never left without an answer or a word that
/// the assistant decides.
pub proof fn lemma_timed_out(id: Seq<char>, options: Seq<AskOption>)
    ensures
        ({
            let r = question_result(id, options, Waited::TimedOut);
            &&& r.timed_out
            &&& r.answer is Some <==> r.auto_submitted
            &&& r.answer is None <==> r.fallback_no_recommended
            &&& r.answer is None ==> result_text(r) == "[用户超时未答且无推荐项,请自行决策]"@
            &&& r.answer is Some ==> result_text(r) == "[用户超时未答,已自动提交推荐项] "@
                + recommended_label(options)->0
        }),
{
}

/// What is shown of an option.
pub open spec fn option_json(o: AskOption) -> JsonView {
    let base = map![
        "label"@ => JsonView::Str(o.label@),
        "recommended"@ => JsonView::Bool(o.recommended),
        "is_custom"@ => JsonView::Bool(o.is_custom)];
    JsonView::Obj(
        match o.description {
            Some(d) => base.insert("description"@, JsonView::Str(d@)),
            None => base,
        },
    )
}

/// What is shown of a question.
pub open spec fn question_json(q: AskUserRequest) -> JsonView {
    JsonView::Obj(
        map![
            "question_id"@ => JsonView::Str(q.question_id@),
            "question"@ => JsonView::Str(q.question@),
            "context"@ => match q.context {
                Some(c) => JsonView::Str(c@),
                None => JsonView::Null,
            },
            "options"@ => JsonView::Arr(q.options@.map_values(|o: AskOption| option_json(o))),
            "allow_custom"@ => JsonView::Bool(q.allow_custom),
            "require_confirm"@ => JsonView::Bool(q.require_confirm),
            "timeout_secs"@ => JsonView::Uint(q.timeout_secs),
            "pause_on_activity"@ => JsonView::Bool(q.pause_on_activity),
            "resume_after_idle_secs"@ => JsonView::Uint(q.resume_after_idle_secs)],
    )
}

fn option_payload(o: &AskOption) -> (r: Json)
    ensures
        r@ == option_json(*o),
{
    let mut f = Fields::new();
    f.insert("label", Json::str(o.label.as_str()));
    f.insert("recommended", Json::Bool(o.recommended));
    f.insert("is_custom", Json::Bool(o.is_custom));
    if let Some(d) = &o.description {
        f.insert("description", Json::str(d.as_str()));
    }
    Json::Obj(f)
}

/// What is shown of a question.
pub fn question_payload(q: &AskUserRequest) -> (r: Json)
    ensures
        r@ == question_json(*q),
{
    let mut opts: Vec<Json> = Vec::new();
    let mut i: usize = 0;
    while i < q.options.len()
        invariant
            i <= q.options@.len(),
            opts@.len() == i,
            forall|k: int| 0 <= k < i ==> (#[trigger] opts@[k])@ == option_json(q.options@[k]),
        decreases q.options@.len() - i,
    {
        opts.push(option_payload(&q.options[i]));
        i = i + 1;
    }
    proof {
        lemma_jsons_len(opts@);
        let want = q.options@.map_values(|o: AskOption| option_json(o));
        assert forall|k: int| 0 <= k < opts@.len() implies jsons(opts@)[k] == want[k] by {
            lemma_jsons_at(opts@, k);
        }
        assert(jsons(opts@) =~= want);
    }
    let mut f = Fields::new();
    f.insert("question_id", Json::str(q.question_id.as_str()));
    f.insert("question", Json::str(q.question.as_str()));
    f.insert(
        "context",
        match &q.context {
            Some(c) => Json::str(c.as_str()),
            None => Json::Null,
        },
    );
    f.insert("options", Json::array(opts));
    f.insert("allow_custom", Json::Bool(q.allow_custom));
    f.insert("require_confirm", Json::Bool(q.require_confirm));
    f.insert("timeout_secs", Json::Uint(q.timeout_secs));
    f.insert("pause_on_activity", Json::Bool(q.pause_on_activity));
    f.insert("resume_after_idle_secs", Json::Uint(q.resume_after_idle_secs));
    Json::Obj(f)
}

// ---------------------------------------------------------------------------
// Memories
// ---------------------------------------------------------------------------

/// Why memories are to be made now, whether by time or by hand.
pub open spec fn dream_reason(
    t: DreamTrigger,
    evs: Seq<EventView>,
    now: u64,
    idle_secs: u64,
    trigger_tokens: u64,
    force: bool,
) -> Option<TriggerReason> {
    if force {
        if is_open(t, evs) {
            Some(TriggerReason::ContextLen)
        } else {
            None
        }
    } else {
        due(t, evs, now, idle_secs, trigger_tokens)
    }
}

/// Sees whether memories are to be made now, and begins when they are.
pub fn begin_dream(
    trigger: &mut DreamTrigger,
    evs: &[HistoryEvent],
    now: u64,
    cfg: &Config,
    force: bool,
) -> (r: Option<TriggerReason>)
    requires
        is_open(*old(trigger), events(evs@)) ==> old(trigger).last_dream_marker_seq < u64::MAX,
        is_open(*old(trigger), events(evs@)) && !force ==> cfg.dream_idle_secs * 1000
            <= u64::MAX,
    ensures
        r == dream_reason(
            *old(trigger),
            events(evs@),
            now,
            cfg.dream_idle_secs,
            cfg.dream_context_trigger_tokens,
            force,
        ),
        *final(trigger) == (DreamTrigger {
            in_flight: old(trigger).in_flight || r is Some,
            ..*old(trigger)
        }),
{
    let decision = if force {
        trigger.check_forced(evs)
    } else {
        trigger.check(evs, now, cfg.dream_idle_secs, cfg.dream_context_trigger_tokens)
    };
    if decision.is_none() {
        return None;
    }
    let _first = prepare_dream(trigger);
    decision
}

/// The trigger once the making of memories has ended: when it went well, memories
/// count as made up to the last marker in the history.
pub open spec fn after_dream(t: DreamTrigger, ok: bool, evs: Seq<EventView>) -> DreamTrigger {
    DreamTrigger {
        in_flight: false,
        last_dream_marker_seq: if ok {
            last_dream(evs)
        } else {
            t.last_dream_marker_seq
        },
        ..t
    }
}

/// The conversation starts over after memories were made.
pub open spec fn starts_over_after(reason: TriggerReason, ok: bool) -> bool {
    ok && reason == TriggerReason::Idle
}

/// Notes that the making of memories has ended. When it went well, memories count
/// as made up to the last marker in the history. Tells whether the conversation
/// starts over: only after the user was away and all went well.
pub fn end_dream(
    trigger: &mut DreamTrigger,
    reason: TriggerReason,
    ok: bool,
    evs: &[HistoryEvent],
) -> (starts_over: bool)
    ensures
        *final(trigger) == after_dream(*old(trigger), ok, events(evs@)),
        starts_over == starts_over_after(reason, ok),
{
    if ok {
        trigger.seed_from_history(evs);
    }
    trigger.dream_finished();
    let idle = match reason {
        TriggerReason::Idle => true,
        TriggerReason::ContextLen => false,
    };
    ok && idle
}

/// The year and the month of a date, 1970 and 1 where it has none.
pub open spec fn year_month_of(today: Seq<char>) -> (int, nat) {
    let parts = split(today, '-');
    (
        match parse_signed(parts[0], i32::MIN as int, i32::MAX as int) {
            Some(y) => y,
            None => 1970,
        },
        if parts.len() > 1 {
            match parse_unsigned(parts[1], u32::MAX as nat) {
                Some(m) => m,
                None => 1,
            }
        } else {
            1
        },
    )
}

/// The year and the month of a date.
pub fn year_month(today: &str) -> (r: (i32, u32))
    ensures
        (r.0 as int, r.1 as nat) == year_month_of(today@),
{
    let parts = split_str(today, '-');
    proof {
        crate::text::lemma_char_index(today@, '-');
        assert(split(today@, '-').len() > 0);
    }
    let y = to_chars(parts[0].as_str());
    let year: i32 = match read_i32(y.as_slice()) {
        Some(n) => n,
        None => 1970,
    };
    let month: u32 = if parts.len() > 1 {
        let m = to_chars(parts[1].as_str());
        match read_u32(m.as_slice()) {
            Some(n) => n,
            None => 1,
        }
    } else {
        1
    };
    (year, month)
}

} // verus!
