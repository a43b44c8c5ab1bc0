//! A turn: asking the model, running the tools that it calls, and asking again
//! until it answers, repeats itself, is interrupted or has asked often enough.
use crate::ask_user::{AskUserHandle, HandleView};
use crate::context::{make_tool_message, tool_message};
use crate::history::{
    assistant_event, assistant_usage_event, tool_result_event, EventView, HistoryEvent,
};
use crate::json::{
    clone_jsons, clone_opt_json, jsons, lemma_jsons_at, lemma_jsons_len, lemma_jsons_push,
    make_message, message, opt_json, Json, JsonView,
};
use crate::pairing::{
    answered_ids, call_id, call_name, collect_answered, id_of_call, lemma_answered_add,
    name_of_call,
};
use crate::purify::{args_of_call, call_args};
use crate::sse::{FinishReason, RoundResult, RoundView};
use crate::text::{
    clone_opt, list_has, opt_text, str_eq, texts, trim, trimmed,
};
use crate::thinking::{iter_signature, signature};
use crate::wire::{json_read, parse_json, Reading};
use vstd::prelude::*;

verus! {

/// How often the model is asked in a turn, unless the settings say otherwise.
pub const MAX_ITERS: usize = 12;

/// How many rounds in a row may call the same tools in the same way and say
/// nothing.
pub const SPIRAL_LIMIT: usize = 6;

/// What is answered to a call that an interruption kept from running.
pub const NOT_RUN: &'static str = "用户中断，未执行";

// ---------------------------------------------------------------------------
// State
// ---------------------------------------------------------------------------

/// Where a turn stands: the model is asked, a tool runs, or it is over.
#[derive(Debug, Clone, Copy, PartialEq, Eq, Structural)]
pub enum Phase {
    Asking,
    Running,
    Over,
}

/// A turn. `messages` is what the model sees, `history` what the turn has added,
/// `calls` the calls of the present round, of which `done` have been answered.
#[derive(Debug)]
pub struct Turn {
    pub thread: String,
    pub max_iters: usize,
    pub phase: Phase,
    pub messages: Vec<Json>,
    pub history: Vec<Json>,
    pub last_content: String,
    pub last_usage: Option<Json>,
    pub spiral_count: usize,
    pub prev_sig: Option<String>,
    pub rounds: usize,
    pub calls: Vec<Json>,
    pub done: usize,
}

/// What a turn holds.
pub struct TurnView {
    pub thread: Seq<char>,
    pub max_iters: nat,
    pub phase: Phase,
    pub messages: Seq<JsonView>,
    pub history: Seq<JsonView>,
    pub last_content: Seq<char>,
    pub last_usage: Option<JsonView>,
    pub spiral_count: nat,
    pub prev_sig: Option<Seq<char>>,
    pub rounds: nat,
    pub calls: Seq<JsonView>,
    pub done: nat,
}

impl View for Turn {
    type V = TurnView;

    open spec fn view(&self) -> TurnView {
        TurnView {
            thread: self.thread@,
            max_iters: self.max_iters as nat,
            phase: self.phase,
            messages: jsons(self.messages@),
            history: jsons(self.history@),
            last_content: self.last_content@,
            last_usage: opt_json(self.last_usage),
            spiral_count: self.spiral_count as nat,
            prev_sig: opt_text(self.prev_sig),
            rounds: self.rounds as nat,
            calls: jsons(self.calls@),
            done: self.done as nat,
        }
    }
}

/// What a turn shows or keeps on its way.
#[derive(Debug)]
pub enum Effect {
    TurnStart,
    TurnEnd,
    Error(String),
    Content(String),
    ToolCall { name: String, args: String },
    ToolResult { name: String, result: String },
    Usage(Json),
    /// An event for the history.
    Append(HistoryEvent),
}

/// What an effect holds.
pub enum EffectView {
    TurnStart,
    TurnEnd,
    Error(Seq<char>),
    Content(Seq<char>),
    ToolCall { name: Seq<char>, args: Seq<char> },
    ToolResult { name: Seq<char>, result: Seq<char> },
    Usage(JsonView),
    Append(EventView),
}

impl View for Effect {
    type V = EffectView;

    open spec fn view(&self) -> EffectView {
        match self {
            Effect::TurnStart => EffectView::TurnStart,
            Effect::TurnEnd => EffectView::TurnEnd,
            Effect::Error(e) => EffectView::Error(e@),
            Effect::Content(s) => EffectView::Content(s@),
            Effect::ToolCall { name, args } => EffectView::ToolCall { name: name@, args: args@ },
            Effect::ToolResult { name, result } => EffectView::ToolResult {
                name: name@,
                result: result@,
            },
            Effect::Usage(u) => EffectView::Usage(u@),
            Effect::Append(e) => EffectView::Append(e@),
        }
    }
}

/// What effects hold.
pub open spec fn effect_views(v: Seq<Effect>) -> Seq<EffectView> {
    v.map_values(|e: Effect| e@)
}

/// What a turn comes to. It never fails outright: what it added so far comes back
/// with the error.
#[derive(Debug)]
pub struct ChatResponse {
    pub content: String,
    pub history: Vec<Json>,
    pub error: Option<String>,
    pub usage: Option<Json>,
    /// The question that the turn waits for.
    pub awaiting: Option<AskUserHandle>,
}

/// What the end of a turn holds.
pub struct ResponseView {
    pub content: Seq<char>,
    pub history: Seq<JsonView>,
    pub error: Option<Seq<char>>,
    pub usage: Option<JsonView>,
    pub awaiting: Option<HandleView>,
}

/// What a question that may be there holds.
pub open spec fn opt_handle(o: Option<AskUserHandle>) -> Option<HandleView> {
    match o {
        Some(h) => Some(h@),
        None => None,
    }
}

impl View for ChatResponse {
    type V = ResponseView;

    open spec fn view(&self) -> ResponseView {
        ResponseView {
            content: self.content@,
            history: jsons(self.history@),
            error: opt_text(self.error),
            usage: opt_json(self.usage),
            awaiting: opt_handle(self.awaiting),
        }
    }
}

impl Default for ChatResponse {
    fn default() -> (r: ChatResponse)
        ensures
            r@ == (ResponseView {
                content: Seq::empty(),
                history: Seq::empty(),
                error: None,
                usage: None,
                awaiting: None,
            }),
    {
        ChatResponse {
            content: String::new(),
            history: Vec::new(),
            error: None,
            usage: None,
            awaiting: None,
        }
    }
}

impl Clone for ChatResponse {
    /// A copy without the question: it is waited for only once.
    fn clone(&self) -> (r: ChatResponse)
        ensures
            r@ == (ResponseView { awaiting: None, ..self@ }),
    {
        ChatResponse {
            content: self.content.clone(),
            history: clone_jsons(&self.history),
            error: clone_opt(&self.error),
            usage: clone_opt_json(&self.usage),
            awaiting: None,
        }
    }
}

/// What to do next in a turn.
#[derive(Debug)]
pub enum Action {
    /// Ask the model.
    Ask,
    /// Run a tool.
    Run { name: String, args: Json },
    /// The turn is over.
    Reply(ChatResponse),
}

/// What the next thing to do holds.
pub enum ActionView {
    Ask,
    Run { name: Seq<char>, args: JsonView },
    Reply(ResponseView),
}

impl View for Action {
    type V = ActionView;

    open spec fn view(&self) -> ActionView {
        match self {
            Action::Ask => ActionView::Ask,
            Action::Run { name, args } => ActionView::Run { name: name@, args: args@ },
            Action::Reply(r) => ActionView::Reply(r@),
        }
    }
}

/// A turn after a step, what the step shows and keeps, and what to do next.
pub struct StepView {
    pub turn: TurnView,
    pub effects: Seq<EffectView>,
    pub action: ActionView,
}

/// What a step shows and keeps, and what to do next.
#[derive(Debug)]
pub struct Step {
    pub effects: Vec<Effect>,
    pub action: Action,
}

// ---------------------------------------------------------------------------
// Ends
// ---------------------------------------------------------------------------

/// Why a turn ends without an answer.
#[derive(Debug, Clone, Copy, PartialEq, Eq, Structural)]
pub enum Why {
    Interrupted,
    Spiral,
    TooManyRounds,
}

/// What is said when the last round said nothing.
pub open spec fn whole_notice(why: Why) -> Seq<char> {
    match why {
        Why::Interrupted => "（用户中断了本轮任务。以上是中断前的工具调用与进展；请结合这些 + 我的新指令决定继续还是重做。）"@,
        Why::Spiral => "（检测到工具调用螺旋：连续多次以相同方式调用同一工具且无文本产出，已强制停止以防死循环。可重试或换种方式。）"@,
        Why::TooManyRounds => "（已达工具调用上限，未产生最终答复）"@,
    }
}

/// What is said behind what the last round said.
pub open spec fn short_notice(why: Why) -> Seq<char> {
    match why {
        Why::Interrupted => "\n\n_（用户中断了本轮任务）_"@,
        Why::Spiral => "\n\n_（检测到工具调用螺旋，已强制停止）_"@,
        Why::TooManyRounds => "\n\n_（已达工具调用上限）_"@,
    }
}

/// What a turn that ends without an answer says.
pub open spec fn closing_text(last: Seq<char>, why: Why) -> Seq<char> {
    if trim(last).len() == 0 {
        whole_notice(why)
    } else {
        last + short_notice(why)
    }
}

/// The usage, when there is any, and the end of the turn.
pub open spec fn ending(usage: Option<JsonView>) -> Seq<EffectView> {
    match usage {
        Some(u) => seq![EffectView::Usage(u), EffectView::TurnEnd],
        None => seq![EffectView::TurnEnd],
    }
}

/// A turn that ends without an answer.
pub open spec fn closed(t: TurnView, fx: Seq<EffectView>, why: Why, now: u64) -> StepView {
    let content = closing_text(t.last_content, why);
    let history = t.history.push(message("assistant"@, JsonView::Str(content)));
    let none = Seq::<JsonView>::empty();
    let shown = if trim(t.last_content).len() == 0 {
        content
    } else {
        short_notice(why)
    };
    StepView {
        turn: TurnView { history, phase: Phase::Over, ..t },
        effects: fx + seq![
            EffectView::Append(assistant_event(now, t.thread, content, ""@, none)),
            EffectView::Content(shown),
        ] + ending(t.last_usage),
        action: ActionView::Reply(
            ResponseView { content, history, error: None, usage: t.last_usage, awaiting: None },
        ),
    }
}

// ---------------------------------------------------------------------------
// Rounds
// ---------------------------------------------------------------------------

/// The arguments of a call as they are read: an empty object when there are none.
pub open spec fn args_text(c: JsonView) -> Seq<char> {
    match call_args(c) {
        Some(s) => s,
        None => "{}"@,
    }
}

/// A turn with the next call answered.
pub open spec fn answered(t: TurnView, result: Seq<char>) -> TurnView {
    let m = tool_message(call_id(t.calls[t.done as int]), result);
    TurnView { messages: t.messages.push(m), history: t.history.push(m), done: t.done + 1, ..t }
}

/// What answering the next call shows and keeps.
pub open spec fn answer_effects(t: TurnView, result: Seq<char>, now: u64) -> Seq<EffectView> {
    let c = t.calls[t.done as int];
    seq![
        EffectView::ToolResult { name: call_name(c), result },
        EffectView::Append(tool_result_event(now, t.thread, call_name(c), result, call_id(c))),
    ]
}

/// The calls that an interruption leaves without an answer.
pub open spec fn unanswered(done: Seq<Seq<char>>, calls: Seq<JsonView>) -> Seq<JsonView>
    decreases calls.len(),
{
    if calls.len() == 0 {
        Seq::empty()
    } else {
        let head = unanswered(done, calls.drop_last());
        let id = call_id(calls.last());
        if id.len() > 0 && !done.contains(id) {
            head.push(calls.last())
        } else {
            head
        }
    }
}

/// The answers to calls that did not run.
pub open spec fn not_run_messages(calls: Seq<JsonView>) -> Seq<JsonView> {
    calls.map_values(|c: JsonView| tool_message(call_id(c), NOT_RUN@))
}

/// The events of calls that did not run.
pub open spec fn not_run_effects(
    calls: Seq<JsonView>,
    thread: Seq<char>,
    now: u64,
) -> Seq<EffectView> {
    calls.map_values(
        |c: JsonView|
            EffectView::Append(
                tool_result_event(now, thread, call_name(c), NOT_RUN@, call_id(c)),
            ),
    )
}

/// A turn whose round was interrupted: every call that has an id is answered.
pub open spec fn backfilled(t: TurnView) -> TurnView {
    let left = not_run_messages(unanswered(answered_ids(t.messages), t.calls));
    TurnView { messages: t.messages + left, history: t.history + left, ..t }
}

/// What answering the calls of an interrupted round keeps.
pub open spec fn backfill_effects(t: TurnView, now: u64) -> Seq<EffectView> {
    not_run_effects(unanswered(answered_ids(t.messages), t.calls), t.thread, now)
}

/// A turn after an interruption while a tool ran.
pub open spec fn interrupted(t: TurnView, fx: Seq<EffectView>, now: u64) -> StepView {
    closed(backfilled(t), fx + backfill_effects(t, now), Why::Interrupted, now)
}

/// A turn after a round whose calls are all answered.
pub open spec fn round_over(t: TurnView, fx: Seq<EffectView>, now: u64) -> StepView {
    let u = TurnView { rounds: t.rounds + 1, ..t };
    if t.spiral_count >= SPIRAL_LIMIT {
        closed(u, fx, Why::Spiral, now)
    } else if u.rounds >= t.max_iters {
        closed(u, fx, Why::TooManyRounds, now)
    } else {
        StepView {
            turn: TurnView { phase: Phase::Asking, ..u },
            effects: fx,
            action: ActionView::Ask,
        }
    }
}

/// A turn that goes on with its calls: one whose arguments are no JSON is
/// answered at once, any other runs.
pub open spec fn advanced(t: TurnView, fx: Seq<EffectView>, now: u64) -> StepView
    decreases t.calls.len() - t.done,
{
    if t.done >= t.calls.len() {
        round_over(t, fx, now)
    } else {
        let c = t.calls[t.done as int];
        let shown = fx.push(EffectView::ToolCall { name: call_name(c), args: args_text(c) });
        match json_read(args_text(c)) {
            Reading::Value(v) => StepView {
                turn: TurnView { phase: Phase::Running, ..t },
                effects: shown,
                action: ActionView::Run { name: call_name(c), args: v },
            },
            Reading::Failure(e) => {
                let result = "参数解析失败: "@ + e;
                advanced(answered(t, result), shown + answer_effects(t, result, now), now)
            },
        }
    }
}

/// How often the calls of a round repeat those before it: not at all when the
/// round says something.
pub open spec fn spiral_after(t: TurnView, r: RoundView) -> nat {
    if trim(r.content).len() > 0 {
        0
    } else if t.prev_sig == Some(signature(r.tool_calls)) {
        t.spiral_count + 1
    } else {
        1
    }
}

/// What came of asking the model.
pub enum AskedView {
    Interrupted,
    Failed(Seq<char>),
    Heard(RoundView),
}

/// A turn that has heard what the model says.
pub open spec fn heard(t: TurnView, r: RoundView, now: u64) -> StepView {
    let usage = if r.usage is Some {
        r.usage
    } else {
        t.last_usage
    };
    let u = TurnView { last_usage: usage, last_content: r.content, ..t };
    let none = Seq::<JsonView>::empty();
    match r.finish {
        FinishReason::Stop => {
            let history = u.history.push(r.assistant_message);
            StepView {
                turn: TurnView { history, phase: Phase::Over, ..u },
                effects: seq![
                    EffectView::Append(
                        assistant_usage_event(now, t.thread, r.content, ""@, none, usage),
                    ),
                ] + ending(usage),
                action: ActionView::Reply(
                    ResponseView { content: r.content, history, error: None, usage, awaiting: None },
                ),
            }
        },
        FinishReason::ToolCalls => {
            advanced(
                TurnView {
                    messages: u.messages.push(r.assistant_message),
                    history: u.history.push(r.assistant_message),
                    spiral_count: spiral_after(t, r),
                    prev_sig: Some(signature(r.tool_calls)),
                    calls: r.tool_calls,
                    done: 0,
                    ..u
                },
                seq![
                    EffectView::Append(
                        assistant_usage_event(
                            now,
                            t.thread,
                            r.content,
                            r.reasoning,
                            r.tool_calls,
                            r.usage,
                        ),
                    ),
                ],
                now,
            )
        },
    }
}

/// A turn after the model was asked.
pub open spec fn after_asking(t: TurnView, a: AskedView, now: u64) -> StepView {
    match a {
        AskedView::Interrupted => closed(t, Seq::empty(), Why::Interrupted, now),
        AskedView::Failed(e) => StepView {
            turn: TurnView { phase: Phase::Over, ..t },
            effects: seq![EffectView::Error(e)],
            action: ActionView::Reply(
                ResponseView {
                    content: Seq::empty(),
                    history: t.history,
                    error: Some(e),
                    usage: None,
                    awaiting: None,
                },
            ),
        },
        AskedView::Heard(r) => heard(t, r, now),
    }
}

/// What came of running a tool.
pub enum RanView {
    Interrupted,
    Result(Seq<char>),
    Suspended(HandleView),
}

/// What is answered to a call of a tool that suspends the turn and must not.
pub open spec fn no_suspension(name: Seq<char>, question_id: Seq<char>) -> Seq<char> {
    "工具 "@ + name + " 触发挂起但 run_turn 未实现该路径（question_id="@ + question_id + "）。"@
}

/// A turn whose next call is answered.
pub open spec fn went_on(t: TurnView, result: Seq<char>, now: u64) -> StepView {
    advanced(answered(t, result), answer_effects(t, result, now), now)
}

/// A turn after a tool ran.
pub open spec fn after_running(t: TurnView, a: RanView, now: u64) -> StepView {
    let c = t.calls[t.done as int];
    match a {
        RanView::Interrupted => interrupted(t, Seq::empty(), now),
        RanView::Result(s) => went_on(t, s, now),
        RanView::Suspended(h) => if call_name(c) == "ask_user"@ {
            StepView {
                turn: TurnView { phase: Phase::Over, ..t },
                effects: Seq::empty(),
                action: ActionView::Reply(
                    ResponseView {
                        content: t.last_content,
                        history: t.history,
                        error: None,
                        usage: t.last_usage,
                        awaiting: Some(HandleView { call_id: call_id(c), ..h }),
                    },
                ),
            }
        } else {
            went_on(t, no_suspension(call_name(c), h.question_id), now)
        },
    }
}

/// A turn before the model is asked.
pub open spec fn begun(thread: Seq<char>, messages: Seq<JsonView>, max_iters: nat) -> TurnView {
    TurnView {
        thread,
        max_iters,
        phase: Phase::Asking,
        messages,
        history: Seq::empty(),
        last_content: Seq::empty(),
        last_usage: None,
        spiral_count: 0,
        prev_sig: None,
        rounds: 0,
        calls: Seq::empty(),
        done: 0,
    }
}

/// The first step of a turn.
pub open spec fn started(t: TurnView, now: u64) -> StepView {
    if t.max_iters == 0 {
        closed(t, seq![EffectView::TurnStart], Why::TooManyRounds, now)
    } else {
        StepView { turn: t, effects: seq![EffectView::TurnStart], action: ActionView::Ask }
    }
}

// ---------------------------------------------------------------------------
// Execution
// ---------------------------------------------------------------------------

/// A turn stands within its bounds: it has asked less often than it may while it
/// goes on, and has not repeated itself too often when it asks.
pub open spec fn is_sound(t: TurnView) -> bool {
    &&& t.done <= t.calls.len()
    &&& t.spiral_count <= SPIRAL_LIMIT
    &&& t.phase == Phase::Asking ==> t.rounds < t.max_iters && t.spiral_count < SPIRAL_LIMIT
    &&& t.phase == Phase::Running ==> t.rounds < t.max_iters && t.done < t.calls.len()
}

/// A turn and a step together.
pub open spec fn step_of(t: TurnView, s: Step) -> StepView {
    StepView { turn: t, effects: effect_views(s.effects@), action: s.action@ }
}

/// What came of asking the model.
#[derive(Debug)]
pub enum Asked {
    /// The user interrupted.
    Interrupted,
    /// The model did not answer; why.
    Failed(String),
    Heard(RoundResult),
}

impl View for Asked {
    type V = AskedView;

    open spec fn view(&self) -> AskedView {
        match self {
            Asked::Interrupted => AskedView::Interrupted,
            Asked::Failed(e) => AskedView::Failed(e@),
            Asked::Heard(r) => AskedView::Heard(r@),
        }
    }
}

/// What came of running a tool.
#[derive(Debug)]
pub enum Ran {
    /// The user interrupted, before or after the tool was done.
    Interrupted,
    Result(String),
    /// The tool asks the user.
    Suspended(AskUserHandle),
}

impl View for Ran {
    type V = RanView;

    open spec fn view(&self) -> RanView {
        match self {
            Ran::Interrupted => RanView::Interrupted,
            Ran::Result(s) => RanView::Result(s@),
            Ran::Suspended(h) => RanView::Suspended(h@),
        }
    }
}

proof fn lemma_effects_push(v: Seq<Effect>, e: Effect)
    ensures
        effect_views(v.push(e)) == effect_views(v).push(e@),
{
    assert(effect_views(v.push(e)) =~= effect_views(v).push(e@));
}

fn show(fx: &mut Vec<Effect>, e: Effect)
    ensures
        effect_views(final(fx)@) == effect_views(old(fx)@).push(e@),
{
    proof {
        lemma_effects_push(fx@, e);
    }
    fx.push(e);
}

fn show_ending(fx: &mut Vec<Effect>, usage: &Option<Json>)
    ensures
        effect_views(final(fx)@) == effect_views(old(fx)@) + ending(opt_json(*usage)),
{
    let ghost before = effect_views(fx@);
    if let Some(u) = usage {
        show(fx, Effect::Usage(u.clone()));
    }
    show(fx, Effect::TurnEnd);
    assert(effect_views(fx@) =~= before + ending(opt_json(*usage)));
}

fn notice(why: Why) -> (r: &'static str)
    ensures
        r@ == whole_notice(why),
{
    match why {
        Why::Interrupted => "（用户中断了本轮任务。以上是中断前的工具调用与进展；请结合这些 + 我的新指令决定继续还是重做。）",
        Why::Spiral => "（检测到工具调用螺旋：连续多次以相同方式调用同一工具且无文本产出，已强制停止以防死循环。可重试或换种方式。）",
        Why::TooManyRounds => "（已达工具调用上限，未产生最终答复）",
    }
}

fn suffix(why: Why) -> (r: &'static str)
    ensures
        r@ == short_notice(why),
{
    match why {
        Why::Interrupted => "\n\n_（用户中断了本轮任务）_",
        Why::Spiral => "\n\n_（检测到工具调用螺旋，已强制停止）_",
        Why::TooManyRounds => "\n\n_（已达工具调用上限）_",
    }
}

fn push_json(v: &mut Vec<Json>, j: Json)
    ensures
        jsons(final(v)@) == jsons(old(v)@).push(j@),
{
    proof {
        lemma_jsons_push(v@, j);
    }
    v.push(j);
}

impl Turn {
    /// A turn on messages, before the model is asked.
    pub fn new(thread: &str, messages: &Vec<Json>, max_iters: usize) -> (r: Turn)
        ensures
            r@ == begun(thread@, jsons(messages@), max_iters as nat),
    {
        Turn {
            thread: thread.to_owned(),
            max_iters,
            phase: Phase::Asking,
            messages: clone_jsons(messages),
            history: Vec::new(),
            last_content: String::new(),
            last_usage: None,
            spiral_count: 0,
            prev_sig: None,
            rounds: 0,
            calls: Vec::new(),
            done: 0,
        }
    }

    fn close(&mut self, fx: Vec<Effect>, why: Why, now: u64) -> (r: Step)
        ensures
            step_of(final(self)@, r) == closed(old(self)@, effect_views(fx@), why, now),
    {
        let ghost t = self@;
        let ghost before = effect_views(fx@);
        let mut fx = fx;
        let silent = trimmed(self.last_content.as_str()).as_str().unicode_len() == 0;
        let content = if silent {
            notice(why).to_owned()
        } else {
            let mut s = self.last_content.clone();
            s.push_str(suffix(why));
            s
        };
        push_json(&mut self.history, make_message("assistant", Json::str(content.as_str())));
        let none: Vec<Json> = Vec::new();
        proof {
            assert(jsons(none@) =~= Seq::empty());
        }
        show(
            &mut fx,
            Effect::Append(
                HistoryEvent::assistant(now, self.thread.as_str(), content.as_str(), "", none),
            ),
        );
        show(
            &mut fx,
            Effect::Content(
                if silent {
                    content.clone()
                } else {
                    suffix(why).to_owned()
                },
            ),
        );
        show_ending(&mut fx, &self.last_usage);
        self.phase = Phase::Over;
        let response = ChatResponse {
            content,
            history: clone_jsons(&self.history),
            error: None,
            usage: clone_opt_json(&self.last_usage),
            awaiting: None,
        };
        proof {
            let want = closed(t, before, why, now);
            assert(effect_views(fx@) =~= want.effects);
        }
        Step { effects: fx, action: Action::Reply(response) }
    }

    fn answer(&mut self, fx: &mut Vec<Effect>, result: &str, now: u64)
        requires
            old(self).done < old(self).calls@.len(),
        ensures
            final(self)@ == answered(old(self)@, result@),
            final(self).calls@ == old(self).calls@,
            effect_views(final(fx)@) == effect_views(old(fx)@) + answer_effects(
                old(self)@,
                result@,
                now,
            ),
    {
        let ghost t = self@;
        let ghost before = effect_views(fx@);
        proof {
            lemma_jsons_at(self.calls@, self.done as int);
        }
        let n: usize = self.calls.len();
        let c = &self.calls[self.done];
        let name = name_of_call(c);
        let id = id_of_call(c);
        show(fx, Effect::ToolResult { name: name.to_owned(), result: result.to_owned() });
        show(
            fx,
            Effect::Append(HistoryEvent::tool_result(now, self.thread.as_str(), name, result, id)),
        );
        let m = make_tool_message(id, result);
        push_json(&mut self.messages, m.clone());
        push_json(&mut self.history, m);
        assert(self.done < n);
        self.done = self.done + 1;
        assert(effect_views(fx@) =~= before + answer_effects(t, result@, now));
    }

    fn end_round(&mut self, fx: Vec<Effect>, now: u64) -> (r: Step)
        requires
            old(self).rounds < old(self).max_iters,
            old(self).done == old(self).calls@.len(),
            old(self).spiral_count <= SPIRAL_LIMIT,
        ensures
            step_of(final(self)@, r) == round_over(old(self)@, effect_views(fx@), now),
            is_sound(final(self)@),
    {
        proof {
            lemma_jsons_len(self.calls@);
        }
        self.rounds = self.rounds + 1;
        if self.spiral_count >= SPIRAL_LIMIT {
            self.close(fx, Why::Spiral, now)
        } else if self.rounds >= self.max_iters {
            self.close(fx, Why::TooManyRounds, now)
        } else {
            self.phase = Phase::Asking;
            Step { effects: fx, action: Action::Ask }
        }
    }

    fn advance(&mut self, fx: Vec<Effect>, now: u64) -> (r: Step)
        requires
            old(self).rounds < old(self).max_iters,
            old(self).done <= old(self).calls@.len(),
            old(self).spiral_count <= SPIRAL_LIMIT,
        ensures
            step_of(final(self)@, r) == advanced(old(self)@, effect_views(fx@), now),
            is_sound(final(self)@),
    {
        let mut out = fx;
        let ghost want = advanced(self@, effect_views(out@), now);
        while self.done < self.calls.len()
            invariant
                self.rounds < self.max_iters,
                self.done <= self.calls@.len(),
                self.spiral_count <= SPIRAL_LIMIT,
                want == advanced(old(self)@, effect_views(fx@), now),
                advanced(self@, effect_views(out@), now) == want,
            ensures
                self.done == self.calls@.len(),
            decreases self.calls@.len() - self.done,
        {
            let ghost t = self@;
            proof {
                lemma_jsons_len(self.calls@);
                lemma_jsons_at(self.calls@, self.done as int);
            }
            let c = &self.calls[self.done];
            let args = match args_of_call(c) {
                Some(s) => s.to_owned(),
                None => "{}".to_owned(),
            };
            let name = name_of_call(c).to_owned();
            show(&mut out, Effect::ToolCall { name: name.clone(), args: args.clone() });
            match parse_json(args.as_str()) {
                Ok(v) => {
                    self.phase = Phase::Running;
                    return Step { effects: out, action: Action::Run { name, args: v } };
                },
                Err(e) => {
                    let mut result = "参数解析失败: ".to_owned();
                    result.push_str(e.as_str());
                    self.answer(&mut out, result.as_str(), now);
                },
            }
        }
        proof {
            lemma_jsons_len(self.calls@);
        }
        self.end_round(out, now)
    }

    fn backfill(&mut self, now: u64) -> (fx: Vec<Effect>)
        ensures
            final(self)@ == backfilled(old(self)@),
            effect_views(fx@) == backfill_effects(old(self)@, now),
    {
        let ghost t = self@;
        let done = collect_answered(&self.messages);
        let ghost ids = answered_ids(t.messages);
        let mut fx: Vec<Effect> = Vec::new();
        let mut i: usize = 0;
        let ghost none = Seq::<JsonView>::empty();
        proof {
            lemma_jsons_len(self.calls@);
            assert(t.calls.take(0) =~= none);
            assert(t.messages + not_run_messages(none) =~= t.messages);
            assert(t.history + not_run_messages(none) =~= t.history);
            assert(effect_views(fx@) =~= not_run_effects(none, t.thread, now));
        }
        while i < self.calls.len()
            invariant
                t.calls == jsons(self.calls@),
                t.calls.len() == self.calls@.len(),
                texts(done@) == ids,
                i <= self.calls@.len(),
                self@ == (TurnView {
                    messages: t.messages + not_run_messages(
                        unanswered(ids, t.calls.take(i as int)),
                    ),
                    history: t.history + not_run_messages(
                        unanswered(ids, t.calls.take(i as int)),
                    ),
                    ..t
                }),
                effect_views(fx@) == not_run_effects(
                    unanswered(ids, t.calls.take(i as int)),
                    t.thread,
                    now,
                ),
            decreases self.calls@.len() - i,
        {
            let ghost before = unanswered(ids, t.calls.take(i as int));
            proof {
                lemma_jsons_at(self.calls@, i as int);
                let x = t.calls.take(i + 1);
                assert(x.drop_last() =~= t.calls.take(i as int));
                assert(x.last() == self.calls@[i as int]@);
            }
            let c = &self.calls[i];
            let id = id_of_call(c);
            if id.unicode_len() > 0 && !list_has(&done, id) {
                let m = make_tool_message(id, NOT_RUN);
                let e = HistoryEvent::tool_result(
                    now,
                    self.thread.as_str(),
                    name_of_call(c),
                    NOT_RUN,
                    id,
                );
                show(&mut fx, Effect::Append(e));
                let m2 = m.clone();
                push_json(&mut self.messages, m);
                push_json(&mut self.history, m2);
                proof {
                    let after = before.push(t.calls[i as int]);
                    assert(not_run_messages(after) =~= not_run_messages(before).push(m2@));
                    assert(not_run_effects(after, t.thread, now) =~= not_run_effects(
                        before,
                        t.thread,
                        now,
                    ).push(EffectView::Append(e@)));
                    assert(self@.messages =~= t.messages + not_run_messages(after));
                    assert(self@.history =~= t.history + not_run_messages(after));
                }
            }
            i = i + 1;
        }
        assert(t.calls.take(i as int) =~= t.calls);
        fx
    }

    /// Begins the turn.
    pub fn start(&mut self, now: u64) -> (r: Step)
        requires
            old(self)@ == begun(old(self)@.thread, old(self)@.messages, old(self)@.max_iters),
        ensures
            step_of(final(self)@, r) == started(old(self)@, now),
            is_sound(final(self)@),
    {
        let mut fx: Vec<Effect> = Vec::new();
        show(&mut fx, Effect::TurnStart);
        assert(effect_views(fx@) =~= seq![EffectView::TurnStart]);
        if self.max_iters == 0 {
            self.close(fx, Why::TooManyRounds, now)
        } else {
            Step { effects: fx, action: Action::Ask }
        }
    }

    /// Takes in what came of asking the model.
    pub fn after_asking(&mut self, asked: Asked, now: u64) -> (r: Step)
        requires
            is_sound(old(self)@),
            old(self).phase == Phase::Asking,
        ensures
            step_of(final(self)@, r) == after_asking(old(self)@, asked@, now),
            is_sound(final(self)@),
    {
        let mut fx: Vec<Effect> = Vec::new();
        assert(effect_views(fx@) =~= Seq::empty());
        proof {
            lemma_jsons_len(self.calls@);
        }
        match asked {
            Asked::Interrupted => self.close(fx, Why::Interrupted, now),
            Asked::Failed(e) => {
                show(&mut fx, Effect::Error(e.clone()));
                assert(effect_views(fx@) =~= seq![EffectView::Error(e@)]);
                self.phase = Phase::Over;
                let response = ChatResponse {
                    content: String::new(),
                    history: clone_jsons(&self.history),
                    error: Some(e),
                    usage: None,
                    awaiting: None,
                };
                Step { effects: fx, action: Action::Reply(response) }
            },
            Asked::Heard(resp) => self.hear(resp, now),
        }
    }

    fn hear(&mut self, resp: RoundResult, now: u64) -> (r: Step)
        requires
            is_sound(old(self)@),
            old(self).phase == Phase::Asking,
        ensures
            step_of(final(self)@, r) == heard(old(self)@, resp@, now),
            is_sound(final(self)@),
    {
        let ghost t = self@;
        let mut fx: Vec<Effect> = Vec::new();
        if let Some(u) = &resp.usage {
            self.last_usage = Some(u.clone());
        }
        self.last_content = resp.content.clone();
        match resp.finish {
            FinishReason::Stop => {
                let none: Vec<Json> = Vec::new();
                proof {
                    assert(jsons(none@) =~= Seq::empty());
                    lemma_jsons_len(self.calls@);
                }
                push_json(&mut self.history, resp.assistant_message);
                show(
                    &mut fx,
                    Effect::Append(
                        HistoryEvent::assistant_with_usage(
                            now,
                            self.thread.as_str(),
                            self.last_content.as_str(),
                            "",
                            none,
                            clone_opt_json(&self.last_usage),
                        ),
                    ),
                );
                show_ending(&mut fx, &self.last_usage);
                self.phase = Phase::Over;
                let response = ChatResponse {
                    content: self.last_content.clone(),
                    history: clone_jsons(&self.history),
                    error: None,
                    usage: clone_opt_json(&self.last_usage),
                    awaiting: None,
                };
                proof {
                    assert(effect_views(fx@) =~= heard(t, resp@, now).effects);
                }
                Step { effects: fx, action: Action::Reply(response) }
            },
            FinishReason::ToolCalls => {
                show(
                    &mut fx,
                    Effect::Append(
                        HistoryEvent::assistant_with_usage(
                            now,
                            self.thread.as_str(),
                            resp.content.as_str(),
                            resp.reasoning.as_str(),
                            clone_jsons(&resp.tool_calls),
                            clone_opt_json(&resp.usage),
                        ),
                    ),
                );
                let sig = iter_signature(&resp.tool_calls);
                let silent = trimmed(resp.content.as_str()).as_str().unicode_len() == 0;
                let same = match &self.prev_sig {
                    Some(p) => str_eq(p.as_str(), sig.as_str()),
                    None => false,
                };
                self.spiral_count = if !silent {
                    0
                } else if same {
                    self.spiral_count + 1
                } else {
                    1
                };
                self.prev_sig = Some(sig);
                let echo = resp.assistant_message.clone();
                push_json(&mut self.messages, resp.assistant_message);
                push_json(&mut self.history, echo);
                self.calls = resp.tool_calls;
                self.done = 0;
                proof {
                    lemma_jsons_len(self.calls@);
                    assert(effect_views(fx@) =~= seq![
                        EffectView::Append(
                            assistant_usage_event(
                                now,
                                t.thread,
                                resp@.content,
                                resp@.reasoning,
                                resp@.tool_calls,
                                resp@.usage,
                            ),
                        ),
                    ]);
                }
                self.advance(fx, now)
            },
        }
    }

    fn go_on(&mut self, result: &str, now: u64) -> (r: Step)
        requires
            is_sound(old(self)@),
            old(self).phase == Phase::Running,
        ensures
            step_of(final(self)@, r) == went_on(old(self)@, result@, now),
            is_sound(final(self)@),
    {
        let ghost t = self@;
        let mut fx: Vec<Effect> = Vec::new();
        proof {
            lemma_jsons_len(self.calls@);
            assert(effect_views(fx@) =~= Seq::empty());
        }
        self.answer(&mut fx, result, now);
        proof {
            assert(effect_views(fx@) =~= answer_effects(t, result@, now));
            lemma_jsons_len(self.calls@);
        }
        self.advance(fx, now)
    }

    /// Takes in what came of running a tool.
    pub fn after_running(&mut self, ran: Ran, now: u64) -> (r: Step)
        requires
            is_sound(old(self)@),
            old(self).phase == Phase::Running,
        ensures
            step_of(final(self)@, r) == after_running(old(self)@, ran@, now),
            is_sound(final(self)@),
    {
        let ghost t = self@;
        proof {
            lemma_jsons_len(self.calls@);
            lemma_jsons_at(self.calls@, self.done as int);
        }
        match ran {
            Ran::Interrupted => {
                let fx = self.backfill(now);
                proof {
                    assert(effect_views(fx@) =~= Seq::<EffectView>::empty() + backfill_effects(
                        t,
                        now,
                    ));
                }
                self.close(fx, Why::Interrupted, now)
            },
            Ran::Result(s) => self.go_on(s.as_str(), now),
            Ran::Suspended(h) => {
                let c = &self.calls[self.done];
                let name = name_of_call(c).to_owned();
                if str_eq(name.as_str(), "ask_user") {
                    let id = id_of_call(c).to_owned();
                    let handle = AskUserHandle {
                        question_id: h.question_id,
                        call_id: id,
                        request: h.request,
                    };
                    self.phase = Phase::Over;
                    let fx: Vec<Effect> = Vec::new();
                    assert(effect_views(fx@) =~= Seq::empty());
                    let response = ChatResponse {
                        content: self.last_content.clone(),
                        history: clone_jsons(&self.history),
                        error: None,
                        usage: clone_opt_json(&self.last_usage),
                        awaiting: Some(handle),
                    };
                    Step { effects: fx, action: Action::Reply(response) }
                } else {
                    let mut result = "工具 ".to_owned();
                    result.push_str(name.as_str());
                    result.push_str(" 触发挂起但 run_turn 未实现该路径（question_id=");
                    result.push_str(h.question_id.as_str());
                    result.push_str("）。");
                    self.go_on(result.as_str(), now)
                }
            },
        }
    }
}

// ---------------------------------------------------------------------------
// Laws
// ---------------------------------------------------------------------------

/// A later turn has all that an earlier one had said and kept, and more behind it.
pub open spec fn grows(a: TurnView, b: TurnView) -> bool {
    &&& a.messages.is_prefix_of(b.messages)
    &&& a.history.is_prefix_of(b.history)
}

/// The calls of the present round that are done are answered.
pub open spec fn done_answered(t: TurnView) -> bool {
    forall|k: int|
        0 <= k < t.done && k < t.calls.len() ==> answered_ids(t.messages).contains(
            call_id(#[trigger] t.calls[k]),
        )
}

/// Every call of a round that has an id is answered.
pub open spec fn round_answered(t: TurnView) -> bool {
    forall|k: int|
        0 <= k < t.calls.len() && call_id(#[trigger] t.calls[k]).len() > 0 ==> answered_ids(
            t.messages,
        ).contains(call_id(t.calls[k]))
}

proof fn lemma_tool_message_answers(msgs: Seq<JsonView>, id: Seq<char>, content: Seq<char>)
    ensures
        answered_ids(msgs.push(tool_message(id, content))) == answered_ids(msgs).push(id),
{
    crate::pairing::lemma_names();
    let m = tool_message(id, content);
    assert(msgs.push(m).drop_last() =~= msgs);
    assert(m.str_at("role"@) == Some("tool"@));
    assert(m.str_at("tool_call_id"@) == Some(id));
}

proof fn lemma_answered(t: TurnView, result: Seq<char>)
    requires
        t.done < t.calls.len(),
        done_answered(t),
    ensures
        grows(t, answered(t, result)),
        done_answered(answered(t, result)),
{
    let u = answered(t, result);
    let id = call_id(t.calls[t.done as int]);
    lemma_tool_message_answers(t.messages, id, result);
    let a = answered_ids(t.messages);
    let b = answered_ids(u.messages);
    assert forall|k: int| 0 <= k < u.done && k < u.calls.len() implies b.contains(
        call_id(#[trigger] u.calls[k]),
    ) by {
        if k == t.done {
            assert(b[a.len() as int] == id);
        } else {
            let x = call_id(t.calls[k]);
            assert(a.contains(x));
            let j = choose|j: int| 0 <= j < a.len() && a[j] == x;
            assert(b[j] == x);
        }
    }
}

proof fn lemma_advanced(t: TurnView, fx: Seq<EffectView>, now: u64)
    requires
        t.done <= t.calls.len(),
        done_answered(t),
    ensures
        ({
            let s = advanced(t, fx, now);
            &&& grows(t, s.turn)
            &&& done_answered(s.turn)
            &&& s.turn.calls == t.calls
            &&& s.action !is Run ==> round_answered(s.turn)
            &&& s.action is Ask ==> s.turn.rounds == t.rounds + 1
        }),
    decreases t.calls.len() - t.done,
{
    if t.done < t.calls.len() {
        let c = t.calls[t.done as int];
        let shown = fx.push(EffectView::ToolCall { name: call_name(c), args: args_text(c) });
        if let Reading::Failure(e) = json_read(args_text(c)) {
            let result = "参数解析失败: "@ + e;
            lemma_answered(t, result);
            lemma_advanced(answered(t, result), shown + answer_effects(t, result, now), now);
        }
    } else {
        let s = advanced(t, fx, now);
        assert(s.turn.messages == t.messages);
    }
}

proof fn lemma_unanswered_holds(done: Seq<Seq<char>>, calls: Seq<JsonView>, k: int)
    requires
        0 <= k < calls.len(),
        call_id(calls[k]).len() > 0,
        !done.contains(call_id(calls[k])),
    ensures
        unanswered(done, calls).contains(calls[k]),
    decreases calls.len(),
{
    let all = unanswered(done, calls);
    if k == calls.len() - 1 {
        assert(all[all.len() - 1] == calls[k]);
    } else {
        lemma_unanswered_holds(done, calls.drop_last(), k);
        let head = unanswered(done, calls.drop_last());
        let j = choose|j: int| 0 <= j < head.len() && head[j] == calls[k];
        assert(all[j] == calls[k]);
    }
}

proof fn lemma_not_run_answers(calls: Seq<JsonView>)
    ensures
        answered_ids(not_run_messages(calls)) == calls.map_values(|c: JsonView| call_id(c)),
    decreases calls.len(),
{
    let v = not_run_messages(calls);
    if calls.len() > 0 {
        let t = calls.drop_last();
        lemma_not_run_answers(t);
        assert(v =~= not_run_messages(t).push(tool_message(call_id(calls.last()), NOT_RUN@)));
        lemma_tool_message_answers(not_run_messages(t), call_id(calls.last()), NOT_RUN@);
        assert(answered_ids(v) =~= calls.map_values(|c: JsonView| call_id(c)));
    } else {
        assert(answered_ids(v) =~= calls.map_values(|c: JsonView| call_id(c)));
    }
}

/// An interruption leaves no call of the round without an answer, and takes
/// nothing back.
pub proof fn lemma_interrupted_answered(t: TurnView, now: u64)
    ensures
        round_answered(after_running(t, RanView::Interrupted, now).turn),
        grows(t, after_running(t, RanView::Interrupted, now).turn),
{
    let u = backfilled(t);
    let ids = answered_ids(t.messages);
    let left = unanswered(ids, t.calls);
    let more = not_run_messages(left);
    lemma_answered_add(t.messages, more);
    lemma_not_run_answers(left);
    let new = left.map_values(|c: JsonView| call_id(c));
    assert forall|k: int| 0 <= k < u.calls.len() && call_id(#[trigger] u.calls[k]).len()
        > 0 implies answered_ids(u.messages).contains(call_id(u.calls[k])) by {
        let id = call_id(t.calls[k]);
        if ids.contains(id) {
            let j = choose|j: int| 0 <= j < ids.len() && ids[j] == id;
            assert((ids + new)[j] == id);
        } else {
            lemma_unanswered_holds(ids, t.calls, k);
            let j = choose|j: int| 0 <= j < left.len() && left[j] == t.calls[k];
            assert(new[j] == id);
            assert((ids + new)[ids.len() + j] == id);
        }
    }
    let s = after_running(t, RanView::Interrupted, now).turn;
    assert(s.messages == u.messages);
}

/// Asking takes nothing back; and when the model is asked again, or the turn is
/// over, every call that has an id is answered.
pub proof fn lemma_after_asking(t: TurnView, r: RoundView, now: u64)
    requires
        r.finish == FinishReason::ToolCalls,
    ensures
        ({
            let s = after_asking(t, AskedView::Heard(r), now);
            &&& grows(t, s.turn)
            &&& done_answered(s.turn)
            &&& s.turn.calls == r.tool_calls
            &&& s.action !is Run ==> round_answered(s.turn)
            &&& s.action is Ask ==> s.turn.rounds == t.rounds + 1
        }),
{
    let usage = if r.usage is Some {
        r.usage
    } else {
        t.last_usage
    };
    let u = TurnView {
        last_usage: usage,
        last_content: r.content,
        messages: t.messages.push(r.assistant_message),
        history: t.history.push(r.assistant_message),
        spiral_count: spiral_after(t, r),
        prev_sig: Some(signature(r.tool_calls)),
        calls: r.tool_calls,
        done: 0,
        ..t
    };
    let fx = seq![
        EffectView::Append(
            assistant_usage_event(
                now,
                t.thread,
                r.content,
                r.reasoning,
                r.tool_calls,
                r.usage,
            ),
        ),
    ];
    lemma_advanced(u, fx, now);
    assert(after_asking(t, AskedView::Heard(r), now) == advanced(u, fx, now));
}

/// A tool's answer takes nothing back; and when the model is asked again, or the
/// turn is over, every call that has an id is answered.
pub proof fn lemma_after_running(t: TurnView, result: Seq<char>, now: u64)
    requires
        t.done < t.calls.len(),
        done_answered(t),
    ensures
        ({
            let s = after_running(t, RanView::Result(result), now);
            &&& grows(t, s.turn)
            &&& done_answered(s.turn)
            &&& s.turn.calls == t.calls
            &&& s.action !is Run ==> round_answered(s.turn)
            &&& s.action is Ask ==> s.turn.rounds == t.rounds + 1
        }),
{
    lemma_answered(t, result);
    let u = answered(t, result);
    let fx = answer_effects(t, result, now);
    lemma_advanced(u, fx, now);
    let s = advanced(u, fx, now);
    assert(after_running(t, RanView::Result(result), now) == s);
    assert(t.messages.is_prefix_of(s.turn.messages)) by {
        assert(t.messages =~= s.turn.messages.take(t.messages.len() as int));
    }
    assert(t.history.is_prefix_of(s.turn.history)) by {
        assert(t.history =~= s.turn.history.take(t.history.len() as int));
    }
}

/// A turn that has asked as often as it may does not ask again.
pub proof fn lemma_rounds_bounded(t: TurnView, fx: Seq<EffectView>, now: u64)
    ensures
        t.rounds + 1 >= t.max_iters ==> round_over(t, fx, now).action !is Ask,
        round_over(t, fx, now).action is Ask ==> round_over(t, fx, now).turn.rounds < t.max_iters,
{
}

/// A round that repeats the one before it for the last time that is let pass, and
/// says nothing, ends the turn once its calls are answered.
pub proof fn lemma_spiral_ends(t: TurnView, fx: Seq<EffectView>, now: u64)
    requires
        t.spiral_count >= SPIRAL_LIMIT,
    ensures
        round_over(t, fx, now).action is Reply,
        round_over(t, fx, now).action->Reply_0.content == closing_text(
            t.last_content,
            Why::Spiral,
        ),
{
}

/// The usage that a turn reports is that of the last round that had one.
pub proof fn lemma_last_usage(t: TurnView, r: RoundView, now: u64)
    requires
        r.finish == FinishReason::Stop,
    ensures
        after_asking(t, AskedView::Heard(r), now).action is Reply,
        after_asking(t, AskedView::Heard(r), now).action->Reply_0.usage == if r.usage is Some {
            r.usage
        } else {
            t.last_usage
        },
{
}

} // verus!
