//! What becomes of an event in a session: it is kept as it came, and the model hears it
//! in the turn that answers it.
use super::contexts::{is_seen, lemma_answered_call_seen, lemma_said_in_order};
use super::{holds, is_answer, is_call, is_saying, lacks, list_in, says};
use crate::agent::{
    after_dream, current_event, dream_reason, injected, is_answered, is_signal, job_text,
    may_dream_after, option_json, question_json, question_result, result_text,
    route_of, shows_activity, starts_over_after, stopped_agents, Route, SessionEvent, Waited,
};
use crate::ask_user::{
    given_result, recommended_count, recommended_label, AskOption, AskUserRequest,
};
use crate::context::{context_messages, PinnedBlocks};
use crate::dream_trigger::{due, due_when_asked, DreamTrigger, TriggerReason};
use crate::files::{attachments, AttachmentView};
use crate::history::EventView;
use crate::jobs::{JobKind, JobView};
use crate::json::JsonView;
use crate::llm::LoadedView;
use crate::text::trim;
use vstd::prelude::*;

verus! {

/// The names of members of events differ.
proof fn lemma_keys()
    ensures
        "text"@ != "attachments"@,
        "text"@ != "source"@,
        "text"@ != "prefix"@,
        "attachments"@ != "source"@,
        "attachments"@ != "prefix"@,
        "source"@ != "prefix"@,
        "what"@ != "path"@,
        "what"@ != "prefix"@,
        "path"@ != "prefix"@,
        "agent_id"@ != "summary"@,
        "agent_id"@ != "ref"@,
        "agent_id"@ != "ok"@,
        "agent_id"@ != "prefix"@,
        "summary"@ != "ref"@,
        "summary"@ != "ok"@,
        "summary"@ != "prefix"@,
        "ref"@ != "ok"@,
        "ref"@ != "prefix"@,
        "ok"@ != "prefix"@,
        "marker"@ != "until_seq"@,
        "name"@ != "result"@,
        "name"@ != "call_id"@,
        "result"@ != "call_id"@,
        "staged_path"@ != "kind"@,
        "user"@ != "external"@,
        "user"@ != "subagent_result"@,
        "user"@ != "marker"@,
        "user"@ != "tool_result"@,
        "external"@ != "subagent_result"@,
        "external"@ != "marker"@,
        "external"@ != "tool_result"@,
        "subagent_result"@ != "marker"@,
        "subagent_result"@ != "tool_result"@,
        "marker"@ != "tool_result"@,
{
    reveal_strlit("text");
    reveal_strlit("attachments");
    reveal_strlit("source");
    reveal_strlit("prefix");
    reveal_strlit("what");
    reveal_strlit("path");
    reveal_strlit("agent_id");
    reveal_strlit("summary");
    reveal_strlit("ref");
    reveal_strlit("ok");
    reveal_strlit("marker");
    reveal_strlit("until_seq");
    reveal_strlit("name");
    reveal_strlit("result");
    reveal_strlit("call_id");
    reveal_strlit("staged_path");
    reveal_strlit("kind");
    reveal_strlit("user");
    reveal_strlit("external");
    reveal_strlit("subagent_result");
    reveal_strlit("tool_result");
    assert("text"@.len() == 4 && "attachments"@.len() == 11 && "source"@.len() == 6);
    assert("prefix"@.len() == 6 && "what"@.len() == 4 && "path"@.len() == 4);
    assert("source"@[0] == 's' && "prefix"@[0] == 'p' && "what"@[0] == 'w' && "path"@[0] == 'p');
    assert("agent_id"@.len() == 8 && "summary"@.len() == 7 && "ref"@.len() == 3);
    assert("ok"@.len() == 2 && "marker"@.len() == 6 && "until_seq"@.len() == 9);
    assert("name"@.len() == 4 && "result"@.len() == 6 && "call_id"@.len() == 7);
    assert("staged_path"@.len() == 11 && "kind"@.len() == 4 && "user"@.len() == 4);
    assert("external"@.len() == 8 && "subagent_result"@.len() == 15);
    assert("tool_result"@.len() == 11);
}

/// The object that keeps an attachment.
pub open spec fn keeps_attachment(x: JsonView, a: AttachmentView) -> bool {
    says(x, "staged_path"@, a.staged_path) && says(x, "kind"@, a.kind)
}

/// A list that keeps attachments, each in its place.
pub open spec fn keeps_attachments(v: Seq<JsonView>, atts: Seq<AttachmentView>) -> bool {
    v.len() == atts.len() && forall|i: int|
        0 <= i < atts.len() ==> keeps_attachment(#[trigger] v[i], atts[i])
}

/// The prefix is kept with an event exactly when the settings ask for one that is not
/// blank.
pub open spec fn keeps_prefix(e: EventView, enabled: bool, prefix: Seq<char>) -> bool {
    if enabled && trim(prefix).len() > 0 {
        says(JsonView::Obj(e.data), "prefix"@, prefix)
    } else {
        lacks(JsonView::Obj(e.data), "prefix"@)
    }
}

/// Every event is kept under the next number, at its time, in the main conversation.
pub proof fn lemma_kept_next(
    e: SessionEvent,
    now: u64,
    next_seq: u64,
    enabled: bool,
    prefix: Seq<char>,
)
    requires
        !is_signal(e),
    ensures
        ({
            let k = current_event(e, now, next_seq, enabled, prefix);
            k.seq == next_seq && k.ts == now && k.thread == "main"@
        }),
{
}

/// What the user says is kept as it was said, with what was attached and where it came
/// from.
pub proof fn lemma_user_kept(
    e: SessionEvent,
    now: u64,
    next_seq: u64,
    enabled: bool,
    prefix: Seq<char>,
)
    ensures
        ({
            let k = current_event(e, now, next_seq, enabled, prefix);
            let d = JsonView::Obj(k.data);
            &&& e matches SessionEvent::UserMessage { text, attachments: atts, source } ==> {
                &&& k.kind == "user"@
                &&& says(d, "text"@, text@)
                &&& says(d, "source"@, source@)
                &&& keeps_attachments(list_in(d, "attachments"@), attachments(atts@))
                &&& keeps_prefix(k, enabled, prefix)
            }
            &&& e matches SessionEvent::InjectAttachment { attachments: atts, caption } ==> {
                &&& k.kind == "user"@
                &&& keeps_attachments(list_in(d, "attachments"@), attachments(atts@))
                &&& keeps_prefix(k, enabled, prefix)
                &&& trim(caption@).len() > 0 ==> says(
                    d,
                    "text"@,
                    "[系统：助手通过 attach 请求纳入以下图片："@ + caption@ + "]"@,
                )
                &&& trim(caption@).len() == 0 ==> says(
                    d,
                    "text"@,
                    "[系统：助手通过 attach 请求纳入以下图片]"@,
                )
            }
            &&& e matches SessionEvent::ContextNote { text } ==> {
                &&& k.kind == "external"@
                &&& says(d, "what"@, text@)
                &&& keeps_prefix(k, enabled, prefix)
            }
        }),
{
    lemma_keys();
}

/// What a job came to is kept: of a process what is told of it, of a subagent its id,
/// its whole answer, where its conversation is, and whether it went well.
pub proof fn lemma_job_kept(
    e: SessionEvent,
    now: u64,
    next_seq: u64,
    enabled: bool,
    prefix: Seq<char>,
)
    ensures
        ({
            let k = current_event(e, now, next_seq, enabled, prefix);
            let d = JsonView::Obj(k.data);
            e matches SessionEvent::JobDone(o) ==> {
                &&& keeps_prefix(k, enabled, prefix)
                &&& o.kind == JobKind::Process ==> k.kind == "external"@ && says(
                    d,
                    "what"@,
                    job_text(o@),
                )
                &&& o.kind == JobKind::Agent ==> {
                    &&& k.kind == "subagent_result"@
                    &&& says(d, "agent_id"@, o.job_id@)
                    &&& o.answer is Some ==> says(d, "summary"@, o.answer->0@)
                    &&& o.answer is None ==> says(d, "summary"@, Seq::empty())
                    &&& says(d, "ref"@, "thread=agent:"@ + o.job_id@)
                    &&& holds(d, "ok"@, JsonView::Bool(o.ok))
                }
            }
        }),
{
    lemma_keys();
}

/// Starting over is kept as a marker that cuts off everything up to itself; an answer to
/// a question is kept as the result of the call that asked it.
pub proof fn lemma_reset_and_answer_kept(
    e: SessionEvent,
    now: u64,
    next_seq: u64,
    enabled: bool,
    prefix: Seq<char>,
)
    ensures
        ({
            let k = current_event(e, now, next_seq, enabled, prefix);
            let d = JsonView::Obj(k.data);
            &&& e is Reset ==> {
                &&& k.kind == "marker"@
                &&& says(d, "marker"@, "reset"@)
                &&& holds(d, "until_seq"@, JsonView::Uint(next_seq))
            }
            &&& e matches SessionEvent::AwaitUserAnswer {
                question_id,
                call_id,
                answer,
                skipped,
                timed_out,
                cancelled,
                auto_submitted,
                fallback_no_recommended,
            } ==> {
                &&& k.kind == "tool_result"@
                &&& says(d, "name"@, "ask_user"@)
                &&& says(d, "call_id"@, call_id@)
                &&& !skipped && !timed_out && !cancelled && !auto_submitted && answer is Some
                    ==> says(d, "result"@, answer->0@)
            }
        }),
{
    lemma_keys();
}

/// What the user says is in the context of the turn that answers it, word for word, with
/// the prefix that the settings ask for in tags before it.
pub proof fn lemma_user_heard(
    e: SessionEvent,
    text: Seq<char>,
    evs: Seq<EventView>,
    now: u64,
    next_seq: u64,
    enabled: bool,
    prefix: Seq<char>,
    pinned: PinnedBlocks,
    files: Seq<LoadedView>,
    windows: bool,
)
    requires
        e matches SessionEvent::UserMessage { text: t, attachments: atts, source } && t@ == text
            && atts@.len() == 0,
        forall|k: int, n: u64|
            0 <= k < evs.len() && (#[trigger] evs[k]).kind == "marker"@ && #[trigger] holds(
                JsonView::Obj(evs[k].data),
                "until_seq"@,
                JsonView::Uint(n),
            ) ==> n < next_seq,
    ensures
        ({
            let current = current_event(e, now, next_seq, enabled, prefix);
            let c = context_messages(evs.push(current), pinned, files, windows);
            let whole = if enabled && trim(prefix).len() > 0 {
                "<prefix>"@ + prefix + "</prefix>"@ + text
            } else {
                text
            };
            exists|p: int| 0 < p < c.len() && is_saying(#[trigger] c[p], "user"@, whole)
        }),
{
    lemma_keys();
    let current = current_event(e, now, next_seq, enabled, prefix);
    let all = evs.push(current);
    let n = evs.len() as int;
    let whole = if enabled && trim(prefix).len() > 0 {
        "<prefix>"@ + prefix + "</prefix>"@ + text
    } else {
        text
    };
    lemma_user_kept(e, now, next_seq, enabled, prefix);
    lemma_kept_next(e, now, next_seq, enabled, prefix);
    assert(all[n] == current);
    assert forall|k: int, m: u64|
        0 <= k < all.len() && (#[trigger] all[k]).kind == "marker"@ && #[trigger] holds(
            JsonView::Obj(all[k].data),
            "until_seq"@,
            JsonView::Uint(m),
        ) implies m < current.seq by {
        if k < n {
            assert(all[k] == evs[k]);
            assert(holds(JsonView::Obj(evs[k].data), "until_seq"@, JsonView::Uint(m)));
        }
    }
    assert(is_seen(all, all[n]));
    lemma_said_in_order(
        all,
        pinned,
        files,
        windows,
        n,
        n,
        "user"@,
        whole,
        "user"@,
        whole,
    );
}

/// What the user answers to a question reaches the model as the result of the call that
/// asked it, word for word.
pub proof fn lemma_answer_heard(
    e: SessionEvent,
    answer: Seq<char>,
    id: Seq<char>,
    args: Seq<char>,
    call: JsonView,
    evs: Seq<EventView>,
    i: int,
    now: u64,
    next_seq: u64,
    enabled: bool,
    prefix: Seq<char>,
    pinned: PinnedBlocks,
    files: Seq<LoadedView>,
    windows: bool,
)
    requires
        e matches SessionEvent::AwaitUserAnswer {
            question_id,
            call_id,
            answer: a,
            skipped,
            timed_out,
            cancelled,
            auto_submitted,
            fallback_no_recommended,
        } && call_id@ == id && a is Some && a->0@ == answer && !skipped && !timed_out && !cancelled
            && !auto_submitted,
        0 <= i < evs.len(),
        is_seen(evs, evs[i]),
        evs[i].seq < next_seq,
        evs[i].kind == "assistant"@,
        list_in(JsonView::Obj(evs[i].data), "tool_calls"@).contains(call),
        is_call(call, id, "ask_user"@, args),
        id.len() > 0,
    ensures
        ({
            let current = current_event(e, now, next_seq, enabled, prefix);
            let c = context_messages(evs.push(current), pinned, files, windows);
            exists|p: int| 0 < p < c.len() && is_answer(#[trigger] c[p], id, answer)
        }),
{
    lemma_keys();
    let current = current_event(e, now, next_seq, enabled, prefix);
    let all = evs.push(current);
    let n = evs.len() as int;
    lemma_reset_and_answer_kept(e, now, next_seq, enabled, prefix);
    lemma_kept_next(e, now, next_seq, enabled, prefix);
    reveal_strlit("ask_user");
    assert("ask_user"@.len() > 0);
    assert(all[n] == current && all[i] == evs[i]);
    assert forall|k: int, m: u64|
        0 <= k < all.len() && (#[trigger] all[k]).kind == "marker"@ && #[trigger] holds(
            JsonView::Obj(all[k].data),
            "until_seq"@,
            JsonView::Uint(m),
        ) implies m < evs[i].seq by {
        if k < n {
            assert(all[k] == evs[k]);
            assert(holds(JsonView::Obj(evs[k].data), "until_seq"@, JsonView::Uint(m)));
        }
    }
    assert(is_seen(all, all[i]));
    assert(is_seen(all, all[n]));
    lemma_answered_call_seen(
        all,
        pinned,
        files,
        windows,
        i,
        n,
        call,
        id,
        "ask_user"@,
        args,
        answer,
    );
    let c = context_messages(all, pinned, files, windows);
    let (p, q): (int, int) = choose|p: int, q: int|
        0 < p < q < c.len() && says(#[trigger] c[p], "role"@, "assistant"@) && list_in(
            c[p],
            "tool_calls"@,
        ).contains(call) && is_answer(#[trigger] c[q], id, answer);
    assert(is_answer(c[q], id, answer));
}

/// Where events go: signals to make memories go there, by hand only when asked for; a
/// question stays; everything else is kept. The user's messages and answers, the ends of
/// jobs and pictures are answered, and nothing else is.
pub proof fn lemma_routes(e: SessionEvent)
    ensures
        e is DreamCheck <==> route_of(e) == (Route::Dream { force: false }),
        e is DreamRequest <==> route_of(e) == (Route::Dream { force: true }),
        e is AwaitUserRequest <==> route_of(e) == Route::Drop,
        e is UserMessage || e is JobDone || e is InjectAttachment || e is AwaitUserAnswer
            || e is ContextNote || e is Reset ==> route_of(e) == Route::History,
        e is UserMessage ==> is_answered(e) && shows_activity(e) && may_dream_after(e),
        e is JobDone ==> is_answered(e) && !shows_activity(e) && may_dream_after(e),
        e is InjectAttachment ==> is_answered(e) && !shows_activity(e) && !may_dream_after(e),
        e is AwaitUserAnswer ==> is_answered(e) && shows_activity(e) && !may_dream_after(e),
        e is ContextNote ==> !is_answered(e) && shows_activity(e) && !may_dream_after(e),
        e is Reset ==> !is_answered(e) && !shows_activity(e) && !may_dream_after(e),
        is_answered(e) ==> route_of(e) == Route::History,
{
}

/// When the conversation starts over, exactly the subagents that can be asked to stop
/// are.
pub proof fn lemma_agents_stopped(v: Seq<JobView>, id: Seq<char>)
    ensures
        stopped_agents(v).contains(id) <==> exists|i: int|
            0 <= i < v.len() && (#[trigger] v[i]).id == id && v[i].kind == JobKind::Agent
                && v[i].cancel,
    decreases v.len(),
{
    let all = stopped_agents(v);
    if v.len() > 0 {
        let t = v.drop_last();
        let head = stopped_agents(t);
        lemma_agents_stopped(t, id);
        if all.contains(id) {
            let k: int = choose|k: int| 0 <= k < all.len() && all[k] == id;
            if k < head.len() {
                assert(head[k] == id);
                let i: int = choose|i: int|
                    0 <= i < t.len() && (#[trigger] t[i]).id == id && t[i].kind == JobKind::Agent
                        && t[i].cancel;
                assert(v[i] == t[i]);
            } else {
                assert(v[v.len() - 1].id == id);
            }
        }
        if exists|i: int|
            0 <= i < v.len() && (#[trigger] v[i]).id == id && v[i].kind == JobKind::Agent
                && v[i].cancel {
            let i: int = choose|i: int|
                0 <= i < v.len() && (#[trigger] v[i]).id == id && v[i].kind == JobKind::Agent
                    && v[i].cancel;
            if i < t.len() {
                assert(t[i] == v[i]);
                let k: int = choose|k: int| 0 <= k < head.len() && head[k] == id;
                assert(all[k] == id);
            } else {
                assert(all[all.len() - 1] == id);
            }
        }
    }
}

// ---------------------------------------------------------------------------
// Questions
// ---------------------------------------------------------------------------

/// An answer that is given reads as it was given; one that is skipped reads so.
pub proof fn lemma_given(id: Seq<char>, answer: Seq<char>, skipped: bool)
    ensures
        ({
            let r = given_result(id, Some(answer), skipped, false, false);
            &&& r.question_id == id && !r.timed_out && !r.cancelled && !r.auto_submitted
                && !r.fallback_no_recommended
            &&& !skipped && answer.len() > 0 ==> r.answer == Some(answer) && !r.skipped
                && result_text(r) == answer
            &&& skipped || answer.len() == 0 ==> r.answer is None && r.skipped && result_text(r)
                == "[用户主动跳过本次询问]"@
        }),
        ({
            let r = given_result(id, Some(answer), false, true, false);
            &&& r.question_id == id && r.answer == Some(answer) && r.timed_out && r.auto_submitted
            &&& result_text(r) == "[用户超时未答,已自动提交推荐项] "@ + answer
        }),
        ({
            let r = given_result(id, None, false, false, true);
            &&& r.answer is None && r.timed_out && !r.skipped
            &&& result_text(r) == "[用户超时未答且无推荐项,请自行决策]"@
        }),
        ({
            let r = given_result(id, None, false, false, false);
            &&& r.answer is None && r.skipped && !r.timed_out
            &&& result_text(r) == "[用户主动跳过本次询问]"@
        }),
{
}

/// Of options the first that is recommended is picked, and none when none is.
pub proof fn lemma_recommended(v: Seq<AskOption>, i: int)
    ensures
        0 <= i < v.len() && v[i].recommended && (forall|k: int|
            0 <= k < i ==> !(#[trigger] v[k]).recommended) ==> recommended_label(v) == Some(
            v[i].label@,
        ),
        (forall|k: int| 0 <= k < v.len() ==> !(#[trigger] v[k]).recommended) ==> recommended_label(
            v,
        ) is None,
    decreases v.len(),
{
    if v.len() > 0 && !v[0].recommended {
        let t = v.skip(1);
        lemma_recommended(t, i - 1);
        assert(forall|k: int| 0 <= k < t.len() ==> #[trigger] t[k] == v[k + 1]);
    }
}

/// Options are accepted when no two of them are recommended, and refused when two are.
pub proof fn lemma_accepted(v: Seq<AskOption>, i: int, j: int)
    ensures
        0 <= i < j < v.len() && v[i].recommended && v[j].recommended ==> recommended_count(v) > 1,
        (forall|a: int, b: int|
            0 <= a < b < v.len() ==> !((#[trigger] v[a]).recommended && (
            #[trigger] v[b]).recommended)) ==> recommended_count(v) <= 1,
    decreases v.len(),
{
    if v.len() > 0 {
        let t = v.drop_last();
        let last = v.len() - 1;
        if 0 <= i < j < v.len() && v[i].recommended && v[j].recommended {
            assert(t[i] == v[i]);
            lemma_some_recommended(t, i);
            if j < last {
                assert(t[j] == v[j]);
                lemma_accepted(t, i, j);
            }
        }
        if forall|a: int, b: int|
            0 <= a < b < v.len() ==> !((#[trigger] v[a]).recommended && (
            #[trigger] v[b]).recommended) {
            assert forall|a: int, b: int| 0 <= a < b < t.len() implies !((
            #[trigger] t[a]).recommended && (#[trigger] t[b]).recommended) by {
                assert(t[a] == v[a] && t[b] == v[b]);
            }
            lemma_accepted(t, 0, 0);
            if v[last].recommended {
                assert forall|a: int| 0 <= a < t.len() implies !(#[trigger] t[a]).recommended by {
                    assert(t[a] == v[a]);
                }
                lemma_none_recommended(t);
            }
        }
    }
}

proof fn lemma_some_recommended(v: Seq<AskOption>, i: int)
    requires
        0 <= i < v.len(),
        v[i].recommended,
    ensures
        recommended_count(v) >= 1,
    decreases v.len(),
{
    if i < v.len() - 1 {
        assert(v.drop_last()[i] == v[i]);
        lemma_some_recommended(v.drop_last(), i);
    }
}

proof fn lemma_none_recommended(v: Seq<AskOption>)
    requires
        forall|a: int| 0 <= a < v.len() ==> !(#[trigger] v[a]).recommended,
    ensures
        recommended_count(v) == 0,
    decreases v.len(),
{
    if v.len() > 0 {
        let t = v.drop_last();
        assert(!v[v.len() - 1].recommended);
        assert forall|a: int| 0 <= a < t.len() implies !(#[trigger] t[a]).recommended by {
            assert(t[a] == v[a]);
        }
        lemma_none_recommended(t);
    }
}

/// How a question ends: an answer counts as it came, an interruption cancels it, and
/// when the time is over the recommended answer is taken, or none where none is.
pub proof fn lemma_question_ends(id: Seq<char>, options: Seq<AskOption>, w: Waited)
    ensures
        ({
            let r = question_result(id, options, w);
            &&& w matches Waited::Answered(a) ==> r == a@
            &&& w is Interrupted ==> r.question_id == id && r.cancelled && r.answer is None
                && !r.timed_out && !r.skipped && result_text(r) == "[询问被外部事件打断（全局中断）]"@
            &&& w is TimedOut ==> r.question_id == id && r.timed_out && !r.cancelled && !r.skipped
                && r.answer == recommended_label(options) && (r.auto_submitted
                <==> recommended_label(options) is Some) && (r.fallback_no_recommended
                <==> recommended_label(options) is None)
            &&& w is Abandoned ==> r.question_id == id && r.timed_out && r.answer is None
                && !r.auto_submitted && (r.fallback_no_recommended <==> recommended_label(
                options,
            ) is None)
        }),
{
}

/// What is shown of a question is what is asked: every part of it, and every option in
/// its place.
pub proof fn lemma_question_shown(q: AskUserRequest, i: int)
    ensures
        ({
            let j = question_json(q);
            let options = list_in(j, "options"@);
            &&& says(j, "question_id"@, q.question_id@)
            &&& says(j, "question"@, q.question@)
            &&& q.context is Some ==> says(j, "context"@, q.context->0@)
            &&& q.context is None ==> holds(j, "context"@, JsonView::Null)
            &&& holds(j, "allow_custom"@, JsonView::Bool(q.allow_custom))
            &&& holds(j, "require_confirm"@, JsonView::Bool(q.require_confirm))
            &&& holds(j, "timeout_secs"@, JsonView::Uint(q.timeout_secs))
            &&& holds(j, "pause_on_activity"@, JsonView::Bool(q.pause_on_activity))
            &&& holds(j, "resume_after_idle_secs"@, JsonView::Uint(q.resume_after_idle_secs))
            &&& options.len() == q.options@.len()
            &&& 0 <= i < options.len() ==> says(options[i], "label"@, q.options@[i].label@)
                && holds(options[i], "recommended"@, JsonView::Bool(q.options@[i].recommended))
                && holds(options[i], "is_custom"@, JsonView::Bool(q.options@[i].is_custom)) && (
            q.options@[i].description is Some ==> says(
                options[i],
                "description"@,
                q.options@[i].description->0@,
            )) && (q.options@[i].description is None ==> lacks(options[i], "description"@))
        }),
{
    reveal_strlit("question_id");
    reveal_strlit("question");
    reveal_strlit("context");
    reveal_strlit("options");
    reveal_strlit("allow_custom");
    reveal_strlit("require_confirm");
    reveal_strlit("timeout_secs");
    reveal_strlit("pause_on_activity");
    reveal_strlit("resume_after_idle_secs");
    reveal_strlit("label");
    reveal_strlit("recommended");
    reveal_strlit("is_custom");
    reveal_strlit("description");
    assert("question_id"@.len() == 11 && "question"@.len() == 8 && "context"@.len() == 7);
    assert("options"@.len() == 7 && "allow_custom"@.len() == 12 && "require_confirm"@.len() == 15);
    assert("timeout_secs"@.len() == 12 && "pause_on_activity"@.len() == 17);
    assert("resume_after_idle_secs"@.len() == 22);
    assert("context"@[0] == 'c' && "options"@[0] == 'o');
    assert("allow_custom"@[0] == 'a' && "timeout_secs"@[0] == 't');
    assert("label"@.len() == 5 && "recommended"@.len() == 11 && "is_custom"@.len() == 9);
    assert("description"@.len() == 11 && "recommended"@[0] == 'r' && "description"@[0] == 'd');
    if 0 <= i < q.options@.len() {
        assert(list_in(question_json(q), "options"@)[i] == option_json(q.options@[i]));
    }
}

/// What is shown of pictures is the first of them with its caption.
pub proof fn lemma_picture_shown(atts: Seq<AttachmentView>, caption: Seq<char>)
    ensures
        atts.len() == 0 ==> injected(atts, caption) is None,
        atts.len() > 0 ==> (injected(atts, caption) matches Some(x) && keeps_attachment(x, atts[0])
            && says(x, "caption"@, caption)),
{
    lemma_keys();
    reveal_strlit("caption");
    reveal_strlit("kind");
    reveal_strlit("staged_path");
    assert("caption"@.len() == 7);
}

// ---------------------------------------------------------------------------
// Memories
// ---------------------------------------------------------------------------

/// Memories are made by hand as soon as they can be, and otherwise when they are due.
/// When their making is over none are being made; when it failed everything counts
/// again; and the conversation starts over only where the user was away and all went
/// well.
pub proof fn lemma_dream_ends(
    t: DreamTrigger,
    evs: Seq<EventView>,
    now: u64,
    idle_secs: u64,
    trigger_tokens: u64,
    ok: bool,
)
    ensures
        dream_reason(t, evs, now, idle_secs, trigger_tokens, true) == due_when_asked(t, evs),
        dream_reason(t, evs, now, idle_secs, trigger_tokens, false) == due(
            t,
            evs,
            now,
            idle_secs,
            trigger_tokens,
        ),
        !after_dream(t, ok, evs).in_flight,
        after_dream(t, false, evs) == (DreamTrigger { in_flight: false, ..t }),
        after_dream(t, true, evs) == (DreamTrigger {
            in_flight: false,
            ..crate::dream_trigger::seeded(t, evs)
        }),
        starts_over_after(TriggerReason::Idle, true),
        !starts_over_after(TriggerReason::ContextLen, ok),
        !starts_over_after(TriggerReason::Idle, false),
{
}

} // verus!
