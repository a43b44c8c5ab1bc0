use ovoice::ask_user::{AskUserHandle, AskUserRequest};
use ovoice::history::HistoryEvent;
use ovoice::json::Json;
use ovoice::sse::{FinishReason, RoundResult};
use ovoice::turn::{
    Action, Asked, ChatResponse, Effect, Ran, Turn, MAX_ITERS, NOT_RUN, SPIRAL_LIMIT,
};
use ovoice::wire::parse_json;
use std::collections::VecDeque;

fn j(text: &str) -> Json {
    parse_json(text).unwrap()
}

fn call(name: &str, args: &str, id: &str) -> Json {
    let f = j("{}").with("name", Json::str(name)).with("arguments", Json::str(args));
    j(r#"{"type":"function"}"#).with("id", Json::str(id)).with("function", f)
}

fn round_of(calls: Vec<Json>, usage: Option<Json>) -> RoundResult {
    RoundResult {
        content: String::new(),
        reasoning: "想一下".into(),
        tool_calls: calls.clone(),
        finish: FinishReason::ToolCalls,
        usage,
        assistant_message: j(r#"{"role":"assistant","content":null}"#)
            .with("tool_calls", Json::array(calls)),
    }
}

fn tool_round(name: &str, args: &str, id: &str) -> RoundResult {
    round_of(vec![call(name, args, id)], None)
}

fn last_round(content: &str, usage: Option<Json>) -> RoundResult {
    RoundResult {
        content: content.into(),
        reasoning: String::new(),
        tool_calls: vec![],
        finish: FinishReason::Stop,
        usage,
        assistant_message: j(r#"{"role":"assistant"}"#).with("content", Json::str(content)),
    }
}

/// What a turn leaves behind: its reply, the events of the history, what was shown,
/// and how many tools were called.
struct Outcome {
    reply: ChatResponse,
    events: Vec<HistoryEvent>,
    shown: String,
    calls: usize,
}

/// Runs a turn: rounds are taken from a list, tools answer with what `run` gives.
fn run_turn(
    rounds: Vec<Asked>,
    messages: Vec<Json>,
    max_iters: usize,
    thread: &str,
    run: &dyn Fn(&str, &Json) -> Ran,
) -> Outcome {
    let mut rounds: VecDeque<Asked> = rounds.into_iter().collect();
    let mut t = Turn::new(thread, &messages, max_iters);
    let mut step = t.start(1);
    let mut out =
        Outcome { reply: ChatResponse::default(), events: vec![], shown: String::new(), calls: 0 };
    loop {
        for e in step.effects {
            match e {
                Effect::Append(ev) => out.events.push(ev),
                Effect::Content(s) => out.shown.push_str(&s),
                Effect::ToolCall { .. } => out.calls += 1,
                _ => {}
            }
        }
        step = match step.action {
            Action::Ask => {
                let asked = rounds.pop_front().unwrap_or(Asked::Heard(last_round("默认最终", None)));
                t.after_asking(asked, 2)
            }
            Action::Run { name, args } => {
                let ran = run(&name, &args);
                t.after_running(ran, 3)
            }
            Action::Reply(r) => {
                out.reply = r;
                return out;
            }
        };
    }
}

/// A shell that only echoes.
fn echo(_name: &str, args: &Json) -> Ran {
    let c = args.text_at("command");
    Ran::Result(c.strip_prefix("echo ").unwrap_or(c).to_string())
}

fn heard(v: Vec<RoundResult>) -> Vec<Asked> {
    v.into_iter().map(Asked::Heard).collect()
}

fn hi() -> Vec<Json> {
    vec![j(r#"{"role":"user","content":"hi"}"#)]
}

#[test]
fn loop_one_tool_then_final() {
    let rounds = heard(vec![
        tool_round("bash", r#"{"command":"echo hi"}"#, "c1"),
        last_round("完成", None),
    ]);
    let res = run_turn(rounds, hi(), MAX_ITERS, "main", &echo).reply;
    assert_eq!(res.content, "完成");
    assert!(res.error.is_none());
    assert_eq!(res.history.len(), 3);
    assert_eq!(res.history[0].array_at("tool_calls").unwrap()[0].text_at("id"), "c1");
    assert_eq!(res.history[1].text_at("role"), "tool");
    assert!(res.history[1].text_at("content").contains("hi"));
    assert_eq!(res.history[2].text_at("content"), "完成");
}

#[test]
fn loop_mid_fail_keeps_partial_history() {
    let rounds = vec![
        Asked::Heard(tool_round("bash", r#"{"command":"echo a"}"#, "c1")),
        Asked::Failed("LLM HTTP 500: boom".into()),
    ];
    let res = run_turn(rounds, vec![], MAX_ITERS, "main", &echo).reply;
    assert_eq!(res.error.as_deref(), Some("LLM HTTP 500: boom"));
    assert_eq!(res.content, "");
    assert_eq!(res.history.len(), 2);
}

#[test]
fn loop_cap_at_12() {
    let rounds = (0..13u32)
        .map(|i| {
            let letter = (b'a' + (i as u8 % 26)) as char;
            tool_round("bash", &format!("{{\"command\":\"echo {letter}\"}}"), "c")
        })
        .collect();
    let res = run_turn(heard(rounds), vec![], MAX_ITERS, "main", &echo).reply;
    assert!(res.content.contains("工具调用上限"), "got: {}", res.content);
    assert_eq!(res.history.len(), 25);
}

#[test]
fn loop_spiral_stops_early() {
    let rounds = (0..20u32)
        .map(|i| {
            let args =
                format!("{{\"command\":\"mem history 2026-08-03 --seq {i} | tail -10\"}}");
            tool_round("bash", &args, "c")
        })
        .collect();
    let res = run_turn(heard(rounds), vec![], MAX_ITERS, "main", &echo).reply;
    assert!(res.content.contains("螺旋"), "应被螺旋检测停住,got: {}", res.content);
    assert_eq!(res.history.len(), SPIRAL_LIMIT * 2 + 1, "应在 SPIRAL_LIMIT 早停");
}

#[test]
fn run_turn_interrupt_writes_fallback() {
    let res = run_turn(vec![Asked::Interrupted], hi(), 100, "main", &echo).reply;
    assert!(res.content.contains("中断"), "应被中断兜底,got: {}", res.content);
}

fn stopped(_name: &str, _args: &Json) -> Ran {
    Ran::Interrupted
}

#[test]
fn run_turn_interrupt_during_tool_execution() {
    let rounds = heard(vec![
        tool_round("bash", r#"{"command":"sleep 30","timeout_secs":300}"#, "before"),
        last_round("不该到这", None),
    ]);
    let res = run_turn(rounds, hi(), 100, "main", &stopped).reply;
    assert!(res.content.contains("中断"), "工具执行中 cancel 应中断兜底, got: {}", res.content);
}

fn two_calls() -> Vec<Asked> {
    heard(vec![round_of(
        vec![
            call("bash", r#"{"command":"sleep 30","timeout_secs":300}"#, "c"),
            call("bash", r#"{"command":"echo second"}"#, "c"),
        ],
        None,
    )])
}

#[test]
fn run_turn_interrupt_skips_remaining_tool_calls() {
    let out = run_turn(two_calls(), hi(), 100, "main", &stopped);
    assert!(out.reply.content.contains("中断"), "got: {}", out.reply.content);
    assert_eq!(out.calls, 1, "第 2 个 tool_call 不应执行, got {} 个", out.calls);
}

#[test]
fn run_turn_interrupt_backfills_tool_results_for_skipped_calls() {
    let res = run_turn(two_calls(), hi(), 100, "main", &stopped).reply;
    assert!(res.content.contains("中断"), "got: {}", res.content);
    let tools: Vec<&Json> =
        res.history.iter().filter(|m| m.text_at("role") == "tool").collect();
    assert_eq!(tools.len(), 2, "2 个 call 都应有配对 tool 消息: {:#?}", res.history);
    for t in tools {
        assert_eq!(t.text_at("content"), "用户中断，未执行");
    }
}

#[test]
fn run_turn_interrupt_race_backfills_remaining() {
    let rounds = heard(vec![round_of(
        vec![
            call("bash", r#"{"command":"echo fast"}"#, "c1"),
            call("bash", r#"{"command":"sleep 30","timeout_secs":300}"#, "c2"),
        ],
        None,
    )]);
    let slow = |name: &str, args: &Json| {
        if args.text_at("command") == "echo fast" {
            echo(name, args)
        } else {
            Ran::Interrupted
        }
    };
    let res = run_turn(rounds, hi(), 100, "main", &slow).reply;
    assert!(res.content.contains("中断"), "got: {}", res.content);
    let tools: Vec<&Json> =
        res.history.iter().filter(|m| m.text_at("role") == "tool").collect();
    let ids: Vec<&str> = tools.iter().map(|m| m.text_at("tool_call_id")).collect();
    assert!(ids.contains(&"c1") && ids.contains(&"c2"), "c1(真实) + c2(补齐) 都须有 tool 消息, got {ids:?}");
    assert_eq!(NOT_RUN, "用户中断，未执行");
}

fn usage(p: u64, c: u64, cache: u64) -> Option<Json> {
    Some(j(&format!(
        r#"{{"prompt_tokens":{p},"completion_tokens":{c},"prompt_tokens_details":{{"cached_tokens":{cache}}}}}"#
    )))
}

#[test]
fn run_turn_usage_is_last_round_raw_value() {
    let c = call("bash", r#"{"command":"echo hi"}"#, "c1");
    let rounds = heard(vec![
        round_of(vec![c], usage(100, 10, 80)),
        last_round("done", usage(120, 5, 90)),
    ]);
    let out = run_turn(rounds, hi(), MAX_ITERS, "main", &echo);
    let u = out.reply.usage.expect("应有最后轮 usage 原值");
    assert_eq!(u.u64_at("prompt_tokens"), Some(120), "prompt = 最后轮");
    assert_eq!(u.u64_at("completion_tokens"), Some(5), "completion = 最后轮（不累加）");
    assert_eq!(u.get("prompt_tokens_details").unwrap().u64_at("cached_tokens"), Some(90));
    let asst: Vec<&HistoryEvent> =
        out.events.iter().filter(|e| e.kind == "assistant").collect();
    assert_eq!(asst.len(), 2);
    let prompt = |e: &HistoryEvent| e.data.get("usage").unwrap().u64_at("prompt_tokens");
    assert_eq!(prompt(asst[0]), Some(100), "第一轮落盘 usage");
    assert_eq!(prompt(asst[1]), Some(120), "第二轮落盘 usage");
}

#[test]
fn run_turn_usage_is_last_round_with_nested_cache_field() {
    let c = call("bash", r#"{"command":"echo x"}"#, "c1");
    let rounds = heard(vec![
        round_of(vec![c], usage(1000, 50, 800)),
        last_round("完成", usage(1200, 30, 1000)),
    ]);
    let u = run_turn(rounds, hi(), 5, "main", &echo).reply.usage.unwrap();
    let cached = u.get("prompt_tokens_details").unwrap().u64_at("cached_tokens").unwrap();
    assert_eq!(u.u64_at("prompt_tokens"), Some(1200));
    assert_eq!(cached, 1000);
    assert!(cached <= 1200);
}

#[test]
fn run_turn_appends_assistant_and_tool_events_main_thread() {
    let rounds = heard(vec![
        tool_round("bash", r#"{"command":"echo hi"}"#, "c1"),
        last_round("完成", None),
    ]);
    let evs = run_turn(rounds, hi(), MAX_ITERS, "main", &echo).events;
    let kinds: Vec<&str> = evs.iter().map(|e| e.kind.as_str()).collect();
    assert_eq!(kinds, vec!["assistant", "tool_result", "assistant"], "应落 3 条事件");
    assert_eq!(evs[0].thread, "main");
    let calls = evs[0].data.get("tool_calls").unwrap().as_array().unwrap();
    assert_eq!(calls[0].text_at("id"), "c1");
    assert_eq!(evs[1].text_at("call_id"), "c1");
    assert!(evs[1].text_at("result").contains("hi"));
    assert_eq!(evs[2].text_at("content"), "完成");
}

#[test]
fn run_turn_appends_with_agent_thread() {
    let rounds = heard(vec![last_round("子代理done", None)]);
    let evs = run_turn(rounds, hi(), MAX_ITERS, "agent:7", &echo).events;
    assert_eq!(evs[0].thread, "agent:7", "子代理事件 thread=agent:N");
}

#[test]
fn run_turn_cap_emits_fallback_text_to_emitter() {
    let rounds =
        (0..5).map(|_| tool_round("bash", r#"{"command":"echo z"}"#, "c")).collect();
    let out = run_turn(heard(rounds), hi(), 3, "main", &echo);
    assert!(out.reply.content.contains("工具调用上限"), "got: {}", out.reply.content);
    assert!(out.shown.contains("工具调用上限"), "兜底文本应流式给 emitter: {}", out.shown);
}

#[test]
fn a_question_suspends_the_turn() {
    let rounds = heard(vec![tool_round("ask_user", "{}", "c1")]);
    let ask = |_: &str, _: &Json| {
        Ran::Suspended(AskUserHandle {
            question_id: "q".into(),
            call_id: "c1".into(),
            request: AskUserRequest {
                question_id: "q".into(),
                question: "?".into(),
                context: None,
                options: vec![],
                allow_custom: true,
                require_confirm: false,
                timeout_secs: 1,
                pause_on_activity: false,
                resume_after_idle_secs: 0,
            },
        })
    };
    let res = run_turn(rounds, hi(), MAX_ITERS, "main", &ask).reply;
    assert_eq!(res.awaiting.unwrap().question_id, "q");
}

#[test]
fn arguments_that_cannot_be_read_are_nothing() {
    let rounds = heard(vec![tool_round("bash", "not json", "c1"), last_round("完成", None)]);
    let res = run_turn(rounds, hi(), MAX_ITERS, "main", &echo).reply;
    assert_eq!(res.content, "完成");
}
