//! What a turn is for: the model sees what its tools gave, every call runs once and in
//! its turn, and the user hears what the model says.
use super::{
    answers, holds, is_answer, is_call, is_saying, lacks, lemma_answered_by, lemma_members, says,
};
use crate::json::JsonView;
use crate::pairing::{answered_ids, call_id};
use crate::sse::{FinishReason, RoundView};
use crate::text::trim;
use crate::turn::{
    advanced, after_asking, after_running, answer_effects, answered, begun, closed, started,
    unanswered, ActionView, AskedView, EffectView, RanView, StepView, TurnView, Why,
};
use crate::wire::{json_read, Reading};
use vstd::prelude::*;

verus! {

/// An event that keeps a tool's result.
pub open spec fn keeps_result(
    e: EffectView,
    now: u64,
    thread: Seq<char>,
    id: Seq<char>,
    name: Seq<char>,
    result: Seq<char>,
) -> bool {
    e matches EffectView::Append(ev) && ev.ts == now && ev.thread == thread && ev.kind
        == "tool_result"@ && says(JsonView::Obj(ev.data), "result"@, result) && says(
        JsonView::Obj(ev.data),
        "call_id"@,
        id,
    ) && says(JsonView::Obj(ev.data), "name"@, name)
}

/// An event that keeps what the assistant said and called.
pub open spec fn keeps_answer(
    e: EffectView,
    now: u64,
    thread: Seq<char>,
    content: Seq<char>,
    calls: Seq<JsonView>,
) -> bool {
    e matches EffectView::Append(ev) && ev.ts == now && ev.thread == thread && ev.kind
        == "assistant"@ && says(JsonView::Obj(ev.data), "content"@, content) && holds(
        JsonView::Obj(ev.data),
        "tool_calls"@,
        JsonView::Arr(calls),
    )
}

/// The event also keeps the thoughts, and the usage when there is one.
pub open spec fn keeps_thoughts(
    e: EffectView,
    thoughts: Seq<char>,
    usage: Option<JsonView>,
) -> bool {
    e matches EffectView::Append(ev) && says(JsonView::Obj(ev.data), "thinking"@, thoughts) && (
    usage matches Some(u) ==> u is Null || holds(JsonView::Obj(ev.data), "usage"@, u)) && (
    usage is None ==> lacks(JsonView::Obj(ev.data), "usage"@))
}

/// From `n` on the effects are the end of a turn: its usage when there is one, and that
/// it is over.
pub open spec fn ends(fx: Seq<EffectView>, n: int, usage: Option<JsonView>) -> bool {
    match usage {
        Some(u) => fx.len() == n + 2 && fx[n] == EffectView::Usage(u) && fx[n + 1]
            == EffectView::TurnEnd,
        None => fx.len() == n + 1 && fx[n] == EffectView::TurnEnd,
    }
}

/// From `n` on the effects close a turn without an answer: what it says is kept, and
/// what is new of it is shown, so that the user sees all of it and nothing twice.
pub open spec fn closes(t: TurnView, s: StepView, n: int, now: u64) -> bool {
    &&& s.action matches ActionView::Reply(x) && x.error is None && x.awaiting is None && x.usage
        == t.last_usage && s.effects.len() > n + 2 && keeps_answer(
        s.effects[n],
        now,
        t.thread,
        x.content,
        Seq::empty(),
    ) && (s.effects[n + 1] matches EffectView::Content(shown) && shown.len() > 0 && x.content
        == if trim(t.last_content).len() > 0 {
        t.last_content + shown
    } else {
        shown
    })
    &&& ends(s.effects, n + 2, t.last_usage)
}

/// A step from one turn to another only adds: the messages that the model sees, and the
/// same ones to what the turn adds to the conversation. A turn that is over has one
/// more of these, with what it says to the user.
pub open spec fn adds_alike(t: TurnView, s: StepView) -> bool {
    let n = s.turn.messages.len() - t.messages.len();
    &&& n >= 0
    &&& s.turn.messages.take(t.messages.len() as int) == t.messages
    &&& s.turn.history.take(t.history.len() as int) == t.history
    &&& match s.action {
        ActionView::Reply(r) => {
            &&& s.turn.history.len() == t.history.len() + n + 1
            &&& is_saying(s.turn.history.last(), "assistant"@, r.content)
            &&& r.history == s.turn.history
        },
        _ => s.turn.history.len() == t.history.len() + n,
    }
    &&& s.turn.messages.skip(t.messages.len() as int) == s.turn.history.subrange(
        t.history.len() as int,
        t.history.len() + n,
    )
}

/// What holds of a turn that has gone on with its calls, from the one at `from` on:
/// it only added, an answer for each call that it is past.
pub open spec fn went_through(t: TurnView, s: StepView, from: int) -> bool {
    &&& adds_alike(t, s)
    &&& s.turn.calls == t.calls
    &&& s.turn.thread == t.thread
    &&& from <= s.turn.done <= t.calls.len()
    &&& s.turn.messages.len() == t.messages.len() + (s.turn.done - from)
    &&& s.action is Run <==> s.turn.done < t.calls.len()
}

/// What holds of the call at `k`: the turn is past it only where its arguments cannot be
/// read, which its answer then tells; where the turn stands at it, it runs, as it was
/// called.
pub open spec fn call_taken(
    t: TurnView,
    s: StepView,
    from: int,
    k: int,
    id: Seq<char>,
    name: Seq<char>,
    args: Seq<char>,
) -> bool {
    match json_read(args) {
        Reading::Value(v) => s.turn.done <= k && (k == s.turn.done ==> s.action
            == (ActionView::Run { name, args: v }) && s.effects.len() > 0 && s.effects.last() == (
        EffectView::ToolCall { name, args })),
        Reading::Failure(e) => s.turn.done != k && (k < s.turn.done ==> is_answer(
            s.turn.messages[t.messages.len() + (k - from)],
            id,
            "参数解析失败: "@ + e,
        )),
    }
}

proof fn lemma_answered(t: TurnView, result: Seq<char>, id: Seq<char>)
    requires
        t.done < t.calls.len(),
        says(t.calls[t.done as int], "id"@, id),
    ensures
        ({
            let u = answered(t, result);
            &&& u.messages.len() == t.messages.len() + 1
            &&& u.messages.take(t.messages.len() as int) == t.messages
            &&& is_answer(u.messages.last(), id, result)
            &&& u.history == t.history.push(u.messages.last())
        }),
{
    lemma_members();
    assert(t.messages.push(answered(t, result).messages.last()).take(t.messages.len() as int)
        =~= t.messages);
}

proof fn lemma_closed(t: TurnView, fx: Seq<EffectView>, why: Why, now: u64)
    ensures
        adds_alike(t, closed(t, fx, why, now)),
        closed(t, fx, why, now).turn.messages == t.messages,
        closed(t, fx, why, now).turn.calls == t.calls,
        closed(t, fx, why, now).turn.done == t.done,
        closed(t, fx, why, now).turn.thread == t.thread,
        closed(t, fx, why, now).action is Reply,
{
    lemma_members();
    let s = closed(t, fx, why, now);
    assert(s.turn.messages.take(t.messages.len() as int) =~= t.messages);
    assert(s.turn.history.take(t.history.len() as int) =~= t.history);
    assert(s.turn.messages.skip(t.messages.len() as int) =~= s.turn.history.subrange(
        t.history.len() as int,
        t.history.len() as int,
    ));
}

proof fn lemma_closes(t: TurnView, fx: Seq<EffectView>, why: Why, now: u64)
    ensures
        closes(t, closed(t, fx, why, now), fx.len() as int, now),
{
    lemma_members();
    reveal_strlit("（用户中断了本轮任务。以上是中断前的工具调用与进展；请结合这些 + 我的新指令决定继续还是重做。）");
    reveal_strlit("（检测到工具调用螺旋：连续多次以相同方式调用同一工具且无文本产出，已强制停止以防死循环。可重试或换种方式。）");
    reveal_strlit("（已达工具调用上限，未产生最终答复）");
    reveal_strlit("\n\n_（用户中断了本轮任务）_");
    reveal_strlit("\n\n_（检测到工具调用螺旋，已强制停止）_");
    reveal_strlit("\n\n_（已达工具调用上限）_");
    assert(crate::turn::whole_notice(why).len() > 0);
    assert(crate::turn::short_notice(why).len() > 0);
}

/// One more answer in front of what was added does not change that it was only added.
proof fn lemma_adds_more(t: TurnView, u: TurnView, s: StepView, m: JsonView)
    requires
        u.messages == t.messages.push(m),
        u.history == t.history.push(m),
        adds_alike(u, s),
    ensures
        adds_alike(t, s),
        s.turn.messages[t.messages.len() as int] == m,
{
    let n = t.messages.len() as int;
    let h = t.history.len() as int;
    assert(s.turn.messages.take(n + 1) == u.messages);
    assert(s.turn.history.take(h + 1) == u.history);
    assert(s.turn.messages.take(n) =~= t.messages) by {
        assert forall|i: int| 0 <= i < n implies s.turn.messages[i] == t.messages[i] by {
            assert(s.turn.messages.take(n + 1)[i] == u.messages[i]);
        }
    }
    assert(s.turn.history.take(h) =~= t.history) by {
        assert forall|i: int| 0 <= i < h implies s.turn.history[i] == t.history[i] by {
            assert(s.turn.history.take(h + 1)[i] == u.history[i]);
        }
    }
    assert(s.turn.messages[n] == s.turn.messages.take(n + 1)[n]);
    assert(s.turn.history[h] == s.turn.history.take(h + 1)[h]);
    let a = s.turn.messages.skip(n);
    let k = s.turn.messages.len() - n;
    let b = s.turn.history.subrange(h, h + k);
    assert forall|i: int| 0 <= i < k implies a[i] == b[i] by {
        if i > 0 {
            assert(s.turn.messages.skip(n + 1)[i - 1] == s.turn.history.subrange(
                h + 1,
                h + k,
            )[i - 1]);
        }
    }
    assert(a =~= b);
}

proof fn lemma_advanced(t: TurnView, fx: Seq<EffectView>, now: u64)
    requires
        t.done <= t.calls.len(),
    ensures
        went_through(t, advanced(t, fx, now), t.done as int),
        fx.is_prefix_of(advanced(t, fx, now).effects),
    decreases t.calls.len() - t.done,
{
    let s = advanced(t, fx, now);
    if t.done < t.calls.len() {
        let c = t.calls[t.done as int];
        let shown = fx.push(
            EffectView::ToolCall {
                name: crate::pairing::call_name(c),
                args: crate::turn::args_text(c),
            },
        );
        match json_read(crate::turn::args_text(c)) {
            Reading::Value(v) => {
                assert(s.turn.messages.take(t.messages.len() as int) =~= t.messages);
                assert(s.turn.history.take(t.history.len() as int) =~= t.history);
                assert(s.turn.messages.skip(t.messages.len() as int) =~= s.turn.history.subrange(
                    t.history.len() as int,
                    t.history.len() as int,
                ));
                assert(fx =~= s.effects.take(fx.len() as int));
            },
            Reading::Failure(e) => {
                let result = "参数解析失败: "@ + e;
                let u = answered(t, result);
                let more = shown + answer_effects(t, result, now);
                lemma_advanced(u, more, now);
                lemma_adds_more(t, u, s, u.messages.last());
                assert(fx =~= s.effects.take(fx.len() as int)) by {
                    assert(more =~= s.effects.take(more.len() as int));
                    assert forall|i: int| 0 <= i < fx.len() implies fx[i] == s.effects[i] by {
                        assert(more[i] == fx[i]);
                    }
                }
            },
        }
    } else {
        let u = TurnView { rounds: t.rounds + 1, ..t };
        lemma_closed(u, fx, Why::Spiral, now);
        lemma_closed(u, fx, Why::TooManyRounds, now);
        assert(s.turn.messages.take(t.messages.len() as int) =~= t.messages);
        assert(s.turn.history.take(t.history.len() as int) =~= t.history);
        assert(s.turn.messages.skip(t.messages.len() as int) =~= s.turn.history.subrange(
            t.history.len() as int,
            t.history.len() as int,
        ));
        assert(fx =~= s.effects.take(fx.len() as int));
    }
}

proof fn lemma_call_taken(
    t: TurnView,
    fx: Seq<EffectView>,
    now: u64,
    k: int,
    id: Seq<char>,
    name: Seq<char>,
    args: Seq<char>,
)
    requires
        t.done <= k < t.calls.len(),
        is_call(t.calls[k], id, name, args),
    ensures
        call_taken(t, advanced(t, fx, now), t.done as int, k, id, name, args),
    decreases t.calls.len() - t.done,
{
    lemma_members();
    let s = advanced(t, fx, now);
    lemma_advanced(t, fx, now);
    let c = t.calls[t.done as int];
    if let Reading::Failure(e) = json_read(crate::turn::args_text(c)) {
        let shown = fx.push(
            EffectView::ToolCall {
                name: crate::pairing::call_name(c),
                args: crate::turn::args_text(c),
            },
        );
        let result = "参数解析失败: "@ + e;
        let u = answered(t, result);
        let more = shown + answer_effects(t, result, now);
        lemma_advanced(u, more, now);
        lemma_adds_more(t, u, s, u.messages.last());
        if k == t.done {
            lemma_answered(t, result, id);
        } else {
            lemma_call_taken(u, more, now, k, id, name, args);
        }
    }
}

/// When a tool has given its result, the model sees it: the next message is the tool's,
/// for that call and with that result. The conversation gets the same messages as the
/// model, the result is shown, and it is kept for the history.
pub proof fn lemma_result_reaches_model(
    t: TurnView,
    result: Seq<char>,
    now: u64,
    id: Seq<char>,
    name: Seq<char>,
    args: Seq<char>,
)
    requires
        t.done < t.calls.len(),
        is_call(t.calls[t.done as int], id, name, args),
    ensures
        ({
            let s = after_running(t, RanView::Result(result), now);
            &&& went_through(t, s, t.done as int)
            &&& s.turn.done > t.done
            &&& is_answer(s.turn.messages[t.messages.len() as int], id, result)
            &&& s.effects.len() >= 2
            &&& s.effects[0] == (EffectView::ToolResult { name, result })
            &&& keeps_result(s.effects[1], now, t.thread, id, name, result)
        }),
{
    lemma_members();
    let u = answered(t, result);
    let fx = answer_effects(t, result, now);
    let s = after_running(t, RanView::Result(result), now);
    lemma_answered(t, result, id);
    lemma_advanced(u, fx, now);
    lemma_adds_more(t, u, s, u.messages.last());
    assert(fx == s.effects.take(fx.len() as int));
    assert(s.effects[0] == fx[0] && s.effects[1] == fx[1]);
}

/// After a tool's result the calls behind it are taken in their order: each runs as it
/// was called, with the arguments that its text says, or is answered with why they
/// cannot be read.
pub proof fn lemma_next_call_runs(
    t: TurnView,
    result: Seq<char>,
    now: u64,
    k: int,
    id: Seq<char>,
    name: Seq<char>,
    args: Seq<char>,
)
    requires
        t.done < k < t.calls.len(),
        is_call(t.calls[k], id, name, args),
    ensures
        call_taken(
            t,
            after_running(t, RanView::Result(result), now),
            t.done as int,
            k,
            id,
            name,
            args,
        ),
{
    let u = answered(t, result);
    let fx = answer_effects(t, result, now);
    lemma_call_taken(u, fx, now, k, id, name, args);
    lemma_advanced(u, fx, now);
}

/// A reply that calls tools goes to the model's messages and to the conversation as it
/// is, and is kept with what it says and calls; its calls are taken from the first on.
pub proof fn lemma_calls_begin(
    t: TurnView,
    r: RoundView,
    now: u64,
    k: int,
    id: Seq<char>,
    name: Seq<char>,
    args: Seq<char>,
)
    requires
        r.finish == FinishReason::ToolCalls,
    ensures
        ({
            let s = after_asking(t, AskedView::Heard(r), now);
            let u = TurnView {
                messages: t.messages.push(r.assistant_message),
                history: t.history.push(r.assistant_message),
                calls: r.tool_calls,
                ..t
            };
            &&& went_through(u, s, 0)
            &&& s.turn.messages[t.messages.len() as int] == r.assistant_message
            &&& s.effects.len() >= 1
            &&& keeps_answer(s.effects[0], now, t.thread, r.content, r.tool_calls)
            &&& keeps_thoughts(s.effects[0], r.reasoning, r.usage)
            &&& s.turn.last_content == r.content
            &&& s.turn.last_usage == (if r.usage is Some {
                r.usage
            } else {
                t.last_usage
            })
            &&& 0 <= k < r.tool_calls.len() && is_call(r.tool_calls[k], id, name, args)
                ==> call_taken(u, s, 0, k, id, name, args)
        }),
{
    lemma_members();
    let s = after_asking(t, AskedView::Heard(r), now);
    let usage = if r.usage is Some {
        r.usage
    } else {
        t.last_usage
    };
    let v = TurnView {
        last_usage: usage,
        last_content: r.content,
        messages: t.messages.push(r.assistant_message),
        history: t.history.push(r.assistant_message),
        spiral_count: crate::turn::spiral_after(t, r),
        prev_sig: Some(crate::thinking::signature(r.tool_calls)),
        calls: r.tool_calls,
        done: 0,
        ..t
    };
    let fx = seq![
        EffectView::Append(
            crate::history::assistant_usage_event(
                now,
                t.thread,
                r.content,
                r.reasoning,
                r.tool_calls,
                r.usage,
            ),
        ),
    ];
    assert(s == advanced(v, fx, now));
    lemma_advanced(v, fx, now);
    lemma_last_content(v, fx, now);
    let n = t.messages.len() as int;
    assert(s.turn.messages.take(n + 1)[n] == r.assistant_message);
    assert(fx == s.effects.take(1));
    assert(s.effects[0] == fx[0]);
    if 0 <= k < r.tool_calls.len() && is_call(r.tool_calls[k], id, name, args) {
        lemma_call_taken(v, fx, now, k, id, name, args);
    }
}

proof fn lemma_last_content(t: TurnView, fx: Seq<EffectView>, now: u64)
    ensures
        advanced(t, fx, now).turn.last_content == t.last_content,
        advanced(t, fx, now).turn.last_usage == t.last_usage,
        advanced(t, fx, now).turn.spiral_count == t.spiral_count,
        advanced(t, fx, now).turn.prev_sig == t.prev_sig,
    decreases t.calls.len() - t.done,
{
    if t.done < t.calls.len() {
        let c = t.calls[t.done as int];
        if let Reading::Failure(e) = json_read(crate::turn::args_text(c)) {
            let shown = fx.push(
                EffectView::ToolCall {
                    name: crate::pairing::call_name(c),
                    args: crate::turn::args_text(c),
                },
            );
            let result = "参数解析失败: "@ + e;
            lemma_last_content(
                answered(t, result),
                shown + answer_effects(t, result, now),
                now,
            );
        }
    }
}

/// A reply that calls nothing ends the turn with what it says: the user gets it, the
/// conversation gets its message, it is kept with its usage, and nothing is asked or
/// run any more.
pub proof fn lemma_answer_ends_turn(t: TurnView, r: RoundView, now: u64)
    requires
        r.finish == FinishReason::Stop,
    ensures
        ({
            let s = after_asking(t, AskedView::Heard(r), now);
            &&& s.action matches ActionView::Reply(x) && x.content == r.content && x.error is None
                && x.awaiting is None && x.history == t.history.push(r.assistant_message)
                && (r.usage is Some ==> x.usage == r.usage) && (r.usage is None ==> x.usage
                == t.last_usage)
            &&& s.turn.history == t.history.push(r.assistant_message)
            &&& s.effects.len() >= 2
            &&& keeps_answer(s.effects[0], now, t.thread, r.content, Seq::empty())
            &&& keeps_thoughts(s.effects[0], ""@, s.turn.last_usage)
            &&& ends(s.effects, 1, s.turn.last_usage)
            &&& r.usage is Some ==> s.turn.last_usage == r.usage
            &&& r.usage is None ==> s.turn.last_usage == t.last_usage
            &&& s.turn.messages == t.messages
        }),
{
    lemma_members();
}

/// When the model cannot be asked, the turn is over with the error, which is shown, and
/// with all that it had added; an interruption ends it with what was said last.
pub proof fn lemma_asking_fails(t: TurnView, e: Seq<char>, now: u64)
    ensures
        ({
            let s = after_asking(t, AskedView::Failed(e), now);
            &&& s.action matches ActionView::Reply(x) && x.error == Some(e) && x.history
                == t.history && x.awaiting is None
            &&& s.effects == seq![EffectView::Error(e)]
            &&& s.turn.messages == t.messages && s.turn.history == t.history
        }),
        ({
            let s = after_asking(t, AskedView::Interrupted, now);
            &&& adds_alike(t, s)
            &&& closes(t, s, 0, now)
            &&& s.turn.messages == t.messages
            &&& s.action matches ActionView::Reply(x) && x.error is None && (trim(
                t.last_content,
            ).len() > 0 ==> t.last_content.is_prefix_of(x.content))
        }),
{
    lemma_closed(t, Seq::empty(), Why::Interrupted, now);
    lemma_closes(t, Seq::empty(), Why::Interrupted, now);
    let s = after_asking(t, AskedView::Interrupted, now);
    if trim(t.last_content).len() > 0 {
        let c = crate::turn::closing_text(t.last_content, Why::Interrupted);
        assert(t.last_content =~= c.take(t.last_content.len() as int));
    }
}

/// The model is asked again exactly when all calls of a round are answered, the turn has
/// not repeated itself too often and may ask once more: an answer to the last call never
/// ends a turn that may go on, nor lets one go on that may not.
pub proof fn lemma_goes_on(t: TurnView, result: Seq<char>, now: u64)
    requires
        t.done + 1 == t.calls.len(),
    ensures
        ({
            let s = after_running(t, RanView::Result(result), now);
            &&& s.action is Ask <==> t.spiral_count < 6 && t.rounds + 1 < t.max_iters
            &&& s.action is Ask || s.action is Reply
            &&& s.turn.rounds == t.rounds + 1
            &&& s.action is Reply ==> closes(t, s, 2, now)
            &&& s.action is Ask ==> s.effects.len() == 2
        }),
{
    let u = answered(t, result);
    let fx = answer_effects(t, result, now);
    let v = TurnView { rounds: u.rounds + 1, ..u };
    lemma_closes(v, fx, Why::Spiral, now);
    lemma_closes(v, fx, Why::TooManyRounds, now);
    assert(u.done == u.calls.len());
}

/// A question to the user stops the turn with nothing added: it waits for the answer to
/// that call. A call of any other tool that wants to wait is answered at once.
pub proof fn lemma_question_waits(
    t: TurnView,
    h: crate::ask_user::HandleView,
    now: u64,
    id: Seq<char>,
    name: Seq<char>,
    args: Seq<char>,
)
    requires
        t.done < t.calls.len(),
        is_call(t.calls[t.done as int], id, name, args),
    ensures
        ({
            let s = after_running(t, RanView::Suspended(h), now);
            if name == "ask_user"@ {
                &&& s.action matches ActionView::Reply(x) && x.error is None && x.history
                    == t.history && x.content == t.last_content && x.usage == t.last_usage && (
                x.awaiting matches Some(w) && w.call_id == id
                    && w.question_id == h.question_id && w.request == h.request)
                &&& s.turn.messages == t.messages && s.turn.history == t.history
                &&& s.effects.len() == 0
            } else {
                &&& went_through(t, s, t.done as int)
                &&& s.turn.done > t.done
                &&& says(s.turn.messages[t.messages.len() as int], "tool_call_id"@, id)
            }
        }),
{
    lemma_members();
    let text = crate::turn::no_suspension(name, h.question_id);
    let u = answered(t, text);
    let fx = answer_effects(t, text, now);
    if name != "ask_user"@ {
        let s = after_running(t, RanView::Suspended(h), now);
        lemma_answered(t, text, id);
        lemma_advanced(u, fx, now);
        lemma_adds_more(t, u, s, u.messages.last());
    }
}

/// How often a turn repeats itself: a round that says something counts from nothing, a
/// silent one that calls the same as the round before it counts one more, and any
/// other silent one is the first.
pub proof fn lemma_repeats_counted(t: TurnView, r: RoundView, now: u64)
    requires
        r.finish == FinishReason::ToolCalls,
    ensures
        ({
            let s = after_asking(t, AskedView::Heard(r), now);
            &&& s.turn.prev_sig == Some(crate::thinking::signature(r.tool_calls))
            &&& trim(r.content).len() > 0 ==> s.turn.spiral_count == 0
            &&& trim(r.content).len() == 0 && t.prev_sig == s.turn.prev_sig
                ==> s.turn.spiral_count == t.spiral_count + 1
            &&& trim(r.content).len() == 0 && t.prev_sig != s.turn.prev_sig
                ==> s.turn.spiral_count == 1
        }),
{
    let usage = if r.usage is Some {
        r.usage
    } else {
        t.last_usage
    };
    let v = TurnView {
        last_usage: usage,
        last_content: r.content,
        messages: t.messages.push(r.assistant_message),
        history: t.history.push(r.assistant_message),
        spiral_count: crate::turn::spiral_after(t, r),
        prev_sig: Some(crate::thinking::signature(r.tool_calls)),
        calls: r.tool_calls,
        done: 0,
        ..t
    };
    let fx = seq![
        EffectView::Append(
            crate::history::assistant_usage_event(
                now,
                t.thread,
                r.content,
                r.reasoning,
                r.tool_calls,
                r.usage,
            ),
        ),
    ];
    assert(after_asking(t, AskedView::Heard(r), now) == advanced(v, fx, now));
    lemma_last_content(v, fx, now);
}

/// A turn begins with the messages that it is given and has added nothing; it asks the
/// model unless it may not ask at all.
pub proof fn lemma_turn_starts(
    thread: Seq<char>,
    messages: Seq<JsonView>,
    max_iters: nat,
    now: u64,
)
    ensures
        ({
            let t = begun(thread, messages, max_iters);
            let s = started(t, now);
            &&& t.messages == messages && t.history.len() == 0 && t.thread == thread && t.rounds
                == 0 && t.spiral_count == 0 && t.last_usage is None && t.prev_sig is None
            &&& s.effects.len() >= 1 && s.effects[0] == EffectView::TurnStart
            &&& s.turn.messages == messages
            &&& max_iters > 0 ==> s.action is Ask && s.effects.len() == 1 && s.turn == t
            &&& max_iters == 0 ==> closes(t, s, 1, now)
        }),
{
    lemma_closes(begun(thread, messages, max_iters), seq![EffectView::TurnStart], Why::TooManyRounds, now);
}

proof fn lemma_left_out(done: Seq<Seq<char>>, calls: Seq<JsonView>, k: int) -> (j: int)
    requires
        0 <= k < calls.len(),
        call_id(calls[k]).len() > 0,
        !done.contains(call_id(calls[k])),
    ensures
        0 <= j < unanswered(done, calls).len(),
        unanswered(done, calls)[j] == calls[k],
    decreases calls.len(),
{
    let all = unanswered(done, calls);
    if k == calls.len() - 1 {
        all.len() - 1
    } else {
        let j = lemma_left_out(done, calls.drop_last(), k);
        assert(all[j] == unanswered(done, calls.drop_last())[j]);
        j
    }
}

/// An interruption answers the calls that nothing has answered: that they did not run.
/// The messages, the conversation and the history get those answers, the rest stays as
/// it was, and the turn is over with what was said last.
pub proof fn lemma_interruption_answers(
    t: TurnView,
    now: u64,
    k: int,
    id: Seq<char>,
    name: Seq<char>,
    args: Seq<char>,
)
    requires
        0 <= k < t.calls.len(),
        is_call(t.calls[k], id, name, args),
        id.len() > 0,
        forall|i: int| 0 <= i < t.messages.len() ==> !answers(#[trigger] t.messages[i], id),
    ensures
        ({
            let s = after_running(t, RanView::Interrupted, now);
            &&& adds_alike(t, s)
            &&& s.action matches ActionView::Reply(x) && x.error is None && x.awaiting is None
            &&& exists|p: int|
                t.messages.len() <= p < s.turn.messages.len() && is_answer(
                    #[trigger] s.turn.messages[p],
                    id,
                    "用户中断，未执行"@,
                )
            &&& exists|q: int|
                0 <= q < s.effects.len() && keeps_result(
                    #[trigger] s.effects[q],
                    now,
                    t.thread,
                    id,
                    name,
                    "用户中断，未执行"@,
                )
        }),
{
    lemma_members();
    let s = after_running(t, RanView::Interrupted, now);
    let ids = answered_ids(t.messages);
    if ids.contains(id) {
        lemma_answered_by(t.messages, id);
    }
    let left = unanswered(ids, t.calls);
    let j = lemma_left_out(ids, t.calls, k);
    let more = crate::turn::not_run_messages(left);
    let fx = crate::turn::backfill_effects(t, now);
    let u = crate::turn::backfilled(t);
    assert(more[j] == crate::context::tool_message(id, crate::turn::NOT_RUN@));
    assert(s.turn.messages =~= t.messages + more);
    let p = t.messages.len() + j;
    assert(is_answer(s.turn.messages[p], id, "用户中断，未执行"@));
    assert(s.effects[j] == fx[j]);
    assert(keeps_result(s.effects[j], now, t.thread, id, name, "用户中断，未执行"@));
    let n = t.messages.len() as int;
    let h = t.history.len() as int;
    assert(s.turn.messages.take(n) =~= t.messages);
    assert(s.turn.history =~= (t.history + more).push(s.turn.history.last()));
    assert(s.turn.history.take(h) =~= t.history);
    assert(s.turn.messages.skip(n) =~= s.turn.history.subrange(h, h + more.len()));
}

/// A call without arguments runs with those of an empty object.
pub proof fn lemma_no_arguments(t: TurnView, r: RoundView, now: u64, f: JsonView, v: JsonView)
    requires
        r.finish == FinishReason::ToolCalls,
        r.tool_calls.len() > 0,
        holds(r.tool_calls[0], "function"@, f),
        lacks(f, "arguments"@),
        json_read("{}"@) == Reading::Value(v),
    ensures
        after_asking(t, AskedView::Heard(r), now).action matches ActionView::Run { args, .. }
            && args == v,
{
    assert(crate::turn::args_text(r.tool_calls[0]) == "{}"@);
}

} // verus!
