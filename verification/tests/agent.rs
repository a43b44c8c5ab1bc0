use ovoice::agent::{
    answer_event, ask_user_result_text, ask_wait_secs, begin_dream, begin_question,
    conclude_question, dreams_after, end_dream, history_event, inject_text, injected_payload, is_activity,
    job_callback_payload, jobdone_body, maybe_snapshot_prefix, question_payload, refused_question, reset_jobs, route,
    triggers_turn, turn_messages, year_month, Route, SessionEvent, Waited,
    ASK_RUST_SAFETY_GRACE_SECS,
};
use ovoice::ask_user::{
    fire_answer, given_answer, new_registry, not_waiting, pick_recommended_label, validate_options,
    AskOption, AskUserRequest,
};
use ovoice::config::Config;
use ovoice::context::{build_messages, PinnedBlocks};
use ovoice::dream_trigger::{DreamTrigger, TriggerReason};
use ovoice::files::AttachmentRef;
use ovoice::history::{HistoryEvent, HistoryWriter};
use ovoice::jobs::{JobKind, JobOutcome, JobRegistry, JobStatus};
use ovoice::json::Json;

fn option(label: &str, recommended: bool) -> AskOption {
    AskOption { label: label.into(), description: None, recommended, is_custom: false }
}

fn request(options: Vec<AskOption>) -> AskUserRequest {
    AskUserRequest {
        question_id: "q1".into(),
        question: "选哪个".into(),
        context: Some("背景".into()),
        options,
        allow_custom: true,
        require_confirm: false,
        timeout_secs: 60,
        pause_on_activity: true,
        resume_after_idle_secs: 10,
    }
}

fn outcome(kind: JobKind, ok: bool) -> JobOutcome {
    JobOutcome {
        job_id: "3".into(),
        kind,
        label: None,
        ok,
        code: None,
        tail: String::new(),
        answer: Some("完成X".into()),
        note: None,
    }
}

fn said(text: &str) -> SessionEvent {
    SessionEvent::UserMessage { text: text.into(), attachments: vec![], source: "user".into() }
}

fn pinned() -> PinnedBlocks {
    PinnedBlocks { system_prompt: "S".into(), soul: None, agent: None, memory: None }
}

fn role<'a>(m: &'a Json) -> &'a str {
    m.text_at("role")
}

#[test]
fn ask_user_result_text_covers_terminal_states() {
    assert_eq!(ask_user_result_text(Some("方案B"), false, false, false, false, false), "方案B");
    assert!(ask_user_result_text(Some("方案B"), false, true, false, true, false)
        .contains("自动提交推荐项"));
    assert!(ask_user_result_text(None, false, true, false, false, true).contains("请自行决策"));
    assert!(ask_user_result_text(None, true, false, false, false, false).contains("跳过"));
    assert!(ask_user_result_text(None, false, false, true, false, false).contains("打断"));
}

#[test]
fn inject_text_neutral_with_and_without_caption() {
    assert!(inject_text("").contains("系统"));
    assert!(!inject_text("").contains("请描述"));
    let with = inject_text("我的草图");
    assert!(with.contains("系统") && with.contains("我的草图"));
}

#[test]
fn snapshot_prefix_on_user_when_enabled() {
    let mut cfg = Config::new(None);
    cfg.user_prompt_prefix_enabled = true;
    cfg.user_prompt_prefix = "PFX".into();
    let mut ev = HistoryEvent::user(1000, "main", "hi", &vec![]);
    assert!(maybe_snapshot_prefix(&mut ev, &cfg), "enabled+非空 user 事件应落 prefix");
    assert_eq!(ev.str_at("prefix"), Some("PFX"));
}

#[test]
fn no_snapshot_when_disabled() {
    let cfg = Config::new(None);
    let mut ev = HistoryEvent::user(1000, "main", "hi", &vec![]);
    assert!(!maybe_snapshot_prefix(&mut ev, &cfg));
    assert!(ev.data.get("prefix").is_none(), "disabled 不落 prefix");
}

#[test]
fn no_snapshot_when_prefix_empty() {
    let mut cfg = Config::new(None);
    cfg.user_prompt_prefix_enabled = true;
    cfg.user_prompt_prefix = "   ".into();
    let mut ev = HistoryEvent::user(1000, "main", "hi", &vec![]);
    assert!(!maybe_snapshot_prefix(&mut ev, &cfg), "prefix 空白不落");
    assert!(ev.data.get("prefix").is_none());
}

#[test]
fn no_snapshot_on_marker() {
    let mut cfg = Config::new(None);
    cfg.user_prompt_prefix_enabled = true;
    cfg.user_prompt_prefix = "PFX".into();
    let mut ev = HistoryEvent::marker(1000, "reset", 5);
    assert!(!maybe_snapshot_prefix(&mut ev, &cfg), "marker 事件不落 prefix");
    assert!(ev.data.get("prefix").is_none());
}

#[test]
fn snapshot_on_all_user_role_kinds() {
    let mut cfg = Config::new(None);
    cfg.user_prompt_prefix_enabled = true;
    cfg.user_prompt_prefix = "PFX".into();
    let cases = [
        HistoryEvent::user(1000, "main", "u", &vec![]),
        HistoryEvent::subagent_result(1000, "1", "s", "r", true),
        HistoryEvent::external(1000, "拖", "f", None),
    ];
    for mut ev in cases {
        let kind = ev.kind.clone();
        assert!(maybe_snapshot_prefix(&mut ev, &cfg), "kind={kind} 应落 prefix");
        assert_eq!(ev.str_at("prefix"), Some("PFX"));
    }
}

#[test]
fn usermessage_appended_and_turn_runs() {
    let cfg = Config::new(None);
    let e = said("你好");
    assert!(triggers_turn(&e), "UserMessage 应跑 turn");
    assert_eq!(route(&e), Route::History);
    let ev = history_event(&e, 1000, 7, &cfg);
    assert_eq!(ev.kind, "user");
    assert_eq!(ev.text_at("text"), "你好");
}

#[test]
fn context_note_appends_external_no_turn() {
    let cfg = Config::new(None);
    let e = SessionEvent::ContextNote { text: "[拖入] a.pdf".into() };
    assert!(!triggers_turn(&e), "ContextNote 不跑 turn");
    assert_eq!(history_event(&e, 1000, 0, &cfg).kind, "external");
}

#[test]
fn reset_appends_marker_no_turn() {
    let cfg = Config::new(None);
    assert!(!triggers_turn(&SessionEvent::Reset), "Reset 不跑 turn");
    let m = history_event(&SessionEvent::Reset, 1000, 5, &cfg);
    assert_eq!(m.kind, "marker");
    assert_eq!(m.text_at("marker"), "reset");
}

#[test]
fn jobdone_agent_appends_subagent_result_and_runs() {
    let cfg = Config::new(None);
    let e = SessionEvent::JobDone(outcome(JobKind::Agent, true));
    assert!(triggers_turn(&e), "JobDone(Agent) 应跑 turn");
    let sr = history_event(&e, 1000, 0, &cfg);
    assert_eq!(sr.kind, "subagent_result");
    assert_eq!(sr.text_at("agent_id"), "3");
    assert_eq!(sr.text_at("summary"), "完成X");
    assert_eq!(sr.text_at("ref"), "thread=agent:3");
}

#[test]
fn injectattachment_appended_as_user_with_image_and_runs_turn() {
    let cfg = Config::new(None);
    let aref = AttachmentRef { staged_path: "/tmp/fake.png".into(), kind: "image".into() };
    let e = SessionEvent::InjectAttachment { attachments: vec![aref], caption: "草图".into() };
    assert!(triggers_turn(&e), "InjectAttachment 应触发 turn");
    let u = history_event(&e, 1000, 0, &cfg);
    assert_eq!(u.kind, "user");
    let atts = u.data.get("attachments").unwrap().as_array().unwrap();
    assert_eq!(atts.len(), 1);
    assert_eq!(atts[0].text_at("kind"), "image");
    assert_eq!(atts[0].text_at("staged_path"), "/tmp/fake.png");
    let text = u.text_at("text");
    assert!(text.contains("系统"), "注入文本须中性标注系统: {text}");
    assert!(text.contains("草图"), "含 caption: {text}");
    assert!(!text.contains("请描述"), "不能冒充用户下指令: {text}");
}

/// Stamps an event as the writer of the history does.
fn keep(w: &mut HistoryWriter, evs: &mut Vec<HistoryEvent>, e: &SessionEvent, now: u64) {
    let cfg = Config::new(None);
    let ev = history_event(e, now, w.current_seq(), &cfg);
    evs.push(w.stamp(ev).event);
}

#[test]
fn rebuild_starts_after_reset_marker() {
    let mut w = HistoryWriter::new(&vec![], 0);
    let mut evs = vec![];
    keep(&mut w, &mut evs, &said("第一句"), 1000);
    keep(&mut w, &mut evs, &SessionEvent::Reset, 2000);
    evs.push(HistoryEvent::user(0, "main", "第二句", &vec![]));
    let msgs = build_messages(&evs, &pinned(), 50, &vec![], false);
    let user_texts: Vec<&str> =
        msgs.iter().filter(|m| role(m) == "user").map(|m| m.text_at("content")).collect();
    assert!(
        user_texts.iter().all(|t| t.contains("第二句") || !t.contains("第一句")),
        "reset 后第一句不应进 context：{user_texts:?}"
    );
}

#[test]
fn handle_event_new_user_included_after_marker() {
    let mut w = HistoryWriter::new(&vec![], 0);
    let mut evs = vec![];
    keep(&mut w, &mut evs, &said("第一句"), 1000);
    keep(&mut w, &mut evs, &SessionEvent::Reset, 2000);
    let cfg = Config::new(None);
    let e = said("第二句");
    let current = history_event(&e, 3000, w.current_seq(), &cfg);
    let msgs = turn_messages(evs, current, &pinned(), 50, &vec![], false);
    assert!(
        msgs.iter().any(|m| role(m) == "user" && m.text_at("content").contains("第二句")),
        "rebuild 应含新 user: {msgs:?}"
    );
    assert!(!msgs.iter().any(|m| m.text_at("content").contains("第一句")));
    assert!(triggers_turn(&e), "新 user 应触发 turn");
}

#[test]
fn reset_cancels_agent_jobs_before_replacing_registry() {
    let mut r = JobRegistry::new("20260727");
    let id = r.register(JobKind::Agent, "x".into(), String::new(), 0, "20260727");
    let _p = r.register(JobKind::Process, "y".into(), String::new(), 0, "20260727");
    let k = r.jobs.iter().position(|j| j.id == id).unwrap();
    r.jobs[k].cancel = true;
    let ids = reset_jobs(&mut r, 2, "20260727");
    assert_eq!(ids, vec![id], "reset 必须先 cancel agent jobs");
    assert!(r.jobs.is_empty());
    assert_eq!(r.max_agents, 2);
}

#[test]
fn validate_options_allows_zero_or_one_recommended() {
    assert!(validate_options(&[]).is_ok());
    assert!(validate_options(&[option("A", false), option("B", false)]).is_ok());
    assert!(validate_options(&[option("A", true)]).is_ok());
}

#[test]
fn validate_options_rejects_multiple_recommended() {
    let opts = vec![option("A", true), option("B", true)];
    let err = validate_options(&opts).unwrap_err();
    assert!(err.contains("最多 1 个"), "错误信息应说明上限: {err}");
}

#[test]
fn pick_recommended_returns_label_or_none() {
    let none = vec![option("A", false)];
    assert_eq!(pick_recommended_label(&none), None);
    let some = vec![option("A", false), option("B", true)];
    assert_eq!(pick_recommended_label(&some), Some("B".into()));
}

#[test]
fn a_question_is_answered_once() {
    let mut p = new_registry();
    assert!(!begin_question(&mut p, "q1") || fire_answer(&mut p, "q1"));
    p.register("q2");
    assert!(fire_answer(&mut p, "q2"));
    assert!(!fire_answer(&mut p, "q2"));
    assert_eq!(not_waiting("q2"), "问题 q2 不在等待中（已超时/已答/重复提交）");
}

#[test]
fn answers_that_the_user_gives() {
    let r = given_answer("q".into(), Some("甲".into()), false, false, false);
    assert_eq!(r.answer.as_deref(), Some("甲"));
    assert!(!r.skipped && !r.timed_out && !r.cancelled);
    let r = given_answer("q".into(), Some("".into()), false, false, false);
    assert!(r.skipped && r.answer.is_none());
    let r = given_answer("q".into(), None, false, false, true);
    assert!(!r.skipped && r.timed_out && r.fallback_no_recommended);
    let r = given_answer("q".into(), Some("甲".into()), true, true, false);
    assert!(r.skipped && r.answer.is_none() && r.timed_out);
}

#[test]
fn a_question_that_times_out_takes_what_is_recommended() {
    let req = request(vec![option("A", false), option("B", true)]);
    assert_eq!(ask_wait_secs(&req), 60 + ASK_RUST_SAFETY_GRACE_SECS);
    let r = conclude_question(&req, Waited::TimedOut);
    assert!(r.timed_out && r.auto_submitted && !r.fallback_no_recommended);
    assert_eq!(r.answer.as_deref(), Some("B"));
    let (e, text) = answer_event(r, "c1");
    assert!(text.contains("自动提交推荐项"), "{text}");
    assert!(matches!(e, SessionEvent::AwaitUserAnswer { .. }));
    let r = conclude_question(&request(vec![option("A", false)]), Waited::TimedOut);
    assert!(r.timed_out && r.fallback_no_recommended && r.answer.is_none());
    let r = conclude_question(&request(vec![]), Waited::Interrupted);
    assert!(r.cancelled);
    let r = conclude_question(&request(vec![]), Waited::Abandoned);
    assert!(r.answer.is_none());
    let given = given_answer("q1".into(), Some("甲".into()), false, false, false);
    let r = conclude_question(&request(vec![]), Waited::Answered(given));
    assert_eq!(r.answer.as_deref(), Some("甲"));
}

#[test]
fn what_is_shown_of_a_question_and_a_job() {
    let p = question_payload(&request(vec![option("A", true)]));
    assert_eq!(p.text_at("question_id"), "q1");
    assert_eq!(p.text_at("question"), "选哪个");
    let p = job_callback_payload(&outcome(JobKind::Agent, true));
    assert_eq!(p.text_at("body"), jobdone_body(&outcome(JobKind::Agent, true)));
    let body = jobdone_body(&outcome(JobKind::Process, false));
    assert!(body.starts_with("[后台任务 #3"), "{body}");
}

#[test]
fn events_go_their_ways() {
    assert_eq!(route(&SessionEvent::DreamCheck), Route::Dream { force: false });
    assert_eq!(route(&SessionEvent::DreamRequest), Route::Dream { force: true });
    assert_eq!(route(&SessionEvent::AwaitUserRequest(request(vec![]))), Route::Drop);
    assert!(is_activity(&said("x")));
    assert!(!is_activity(&SessionEvent::DreamCheck));
    assert!(!dreams_after(&SessionEvent::DreamCheck));
}

#[test]
fn a_dream_begins_once_and_ends() {
    let mut t = DreamTrigger::new();
    t.note_activity(1000);
    let evs = vec![HistoryEvent::user(1000, "main", "u", &vec![])];
    let cfg = Config::new(None);
    assert_eq!(begin_dream(&mut t, &evs, 2000, &cfg, false), None);
    assert_eq!(begin_dream(&mut t, &evs, 2000, &cfg, true), Some(TriggerReason::ContextLen));
    assert!(t.in_flight);
    assert_eq!(begin_dream(&mut t, &evs, 2000, &cfg, true), None);
    assert!(!end_dream(&mut t, TriggerReason::ContextLen, true, &evs));
    assert!(!t.in_flight);
    assert_eq!(
        begin_dream(&mut t, &evs, 1000 + 8_000_000, &cfg, false),
        Some(TriggerReason::Idle)
    );
    assert!(end_dream(&mut t, TriggerReason::Idle, true, &evs));
}

#[test]
fn the_year_and_the_month_of_a_date() {
    assert_eq!(year_month("2026-07-26"), (2026, 7));
    assert_eq!(year_month("x"), (1970, 1));
    assert_eq!(year_month("2026"), (2026, 1));
}

#[test]
fn a_job_that_failed_says_why() {
    let mut o = outcome(JobKind::Process, false);
    o.code = Some(3);
    o.tail = "尾巴".into();
    let body = jobdone_body(&o);
    assert!(body.contains("尾巴"), "{body}");
    let status = JobStatus::Failed { reason: "x".into() };
    assert!(!status.is_running() && !status.is_killed());
}

#[test]
fn a_second_question_is_answered_with_an_error() {
    let mut pending = new_registry();
    assert!(begin_question(&mut pending, "q1"));
    assert!(!begin_question(&mut pending, "q2"));
    let (e, text) = refused_question("q2", "call-2");
    assert!(text.contains("q2"));
    let kept = history_event(&e, 5, 3, &Config::new(None));
    assert_eq!(kept.kind, "tool_result");
    assert_eq!(kept.text_at("call_id"), "call-2");
    assert_eq!(kept.text_at("result"), text);
    assert!(triggers_turn(&e));
    assert_eq!(pending.ids, vec!["q1".to_string()]);
}

#[test]
fn the_order_of_options_does_not_matter() {
    let a = vec![option("x", false), option("y", true), option("z", false)];
    let b = vec![option("y", true), option("z", false), option("x", false)];
    assert_eq!(pick_recommended_label(&a), pick_recommended_label(&b));
    assert_eq!(pick_recommended_label(&a).as_deref(), Some("y"));
}

#[test]
fn the_first_picture_is_shown() {
    let att = AttachmentRef { staged_path: "/p.png".into(), kind: "image".into() };
    let shown = injected_payload(&vec![att], "草图").unwrap();
    assert_eq!(shown.text_at("staged_path"), "/p.png");
    assert_eq!(shown.text_at("kind"), "image");
    assert_eq!(shown.text_at("caption"), "草图");
    assert!(injected_payload(&vec![], "x").is_none());
}
