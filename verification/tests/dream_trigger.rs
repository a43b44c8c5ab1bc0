use ovoice::dream_trigger::{dream_end, prepare_dream, recent_prompt_tokens, DreamTrigger, TriggerReason};
use ovoice::history::HistoryEvent;
use ovoice::json::Json;
use ovoice::wire::parse_json;

fn build_events(n: usize) -> Vec<HistoryEvent> {
    (0..n)
        .flat_map(|i| {
            let s = (i * 2) as u64;
            vec![
                HistoryEvent::user(1000 + s, "main", &format!("u{i}"), &vec![]),
                HistoryEvent::assistant(1000 + s + 1, "main", &format!("a{i}"), "", vec![]),
            ]
        })
        .collect()
}

fn usage(prompt: u64) -> Option<Json> {
    Some(parse_json(&format!(r#"{{"prompt_tokens":{prompt},"completion_tokens":5}}"#)).unwrap())
}

#[test]
fn check_returns_none_when_not_armed() {
    let t = DreamTrigger::new();
    let evs = build_events(3);
    assert!(t.check(&evs, 10000, 10, 1_000_000).is_none());
}

#[test]
fn check_returns_idle_when_idle_secs_elapsed() {
    let mut t = DreamTrigger::new();
    t.note_activity(1000);
    let evs = build_events(2);
    assert_eq!(t.check(&evs, 1000 + 11_000, 10, 1_000_000), Some(TriggerReason::Idle));
}

#[test]
fn check_returns_context_len_when_tokens_exceed() {
    let mut t = DreamTrigger::new();
    t.note_activity(1000);
    let mut evs = vec![HistoryEvent::user(1000, "main", "u", &vec![])];
    let mut a = HistoryEvent::assistant_with_usage(1001, "main", "a", "", vec![], usage(350_000));
    a.seq = 1;
    evs.push(a);
    assert_eq!(t.check(&evs, 2000, 7200, 300_000), Some(TriggerReason::ContextLen));
}

#[test]
fn check_idle_wins_over_token() {
    let mut t = DreamTrigger::new();
    t.note_activity(1000);
    let mut evs = vec![HistoryEvent::user(1000, "main", "u", &vec![])];
    let mut a = HistoryEvent::assistant_with_usage(1001, "main", "a", "", vec![], usage(999_999));
    a.seq = 1;
    evs.push(a);
    assert_eq!(t.check(&evs, 1000 + 8_000_000, 7200, 300_000), Some(TriggerReason::Idle));
}

#[test]
fn check_returns_none_when_no_new_since_marker() {
    let mut t = DreamTrigger::new();
    t.note_activity(1000);
    t.last_dream_marker_seq = 100;
    let evs = build_events(3);
    assert!(t.check(&evs, 1000 + 8_000_000, 10, 1).is_none());
}

#[test]
fn check_returns_none_when_in_flight() {
    let mut t = DreamTrigger::new();
    t.note_activity(1000);
    t.in_flight = true;
    let evs = build_events(3);
    assert!(t.check(&evs, 10000, 10, 1).is_none());
}

#[test]
fn recent_prompt_tokens_picks_last_main_assistant() {
    let mut evs = vec![HistoryEvent::user(1000, "main", "u", &vec![])];
    let mut a1 = HistoryEvent::assistant_with_usage(1001, "main", "a1", "", vec![], usage(100_000));
    a1.seq = 1;
    let mut a2 = HistoryEvent::assistant_with_usage(1002, "main", "a2", "", vec![], usage(350_000));
    a2.seq = 2;
    evs.push(a1);
    evs.push(a2);
    assert_eq!(recent_prompt_tokens(&evs), 350_000, "取最近 main assistant 的 prompt_tokens");
}

#[test]
fn recent_prompt_tokens_ignores_agent_thread() {
    let mut a =
        HistoryEvent::assistant_with_usage(1000, "agent:1", "子代理", "", vec![], usage(999_999));
    a.seq = 0;
    assert_eq!(recent_prompt_tokens(&[a]), 0, "agent 线程 assistant 不算");
}

#[test]
fn recent_prompt_tokens_zero_when_no_usage() {
    let evs = build_events(2);
    assert_eq!(recent_prompt_tokens(&evs), 0);
}

#[test]
fn check_forced_skips_thresholds_but_keeps_gate() {
    let mut t = DreamTrigger::new();
    t.note_activity(1000);
    let evs = build_events(2);
    assert!(t.check(&evs, 2000, 7200, 300_000).is_none(), "阈值未达 check 不触发");
    assert_eq!(t.check_forced(&evs), Some(TriggerReason::ContextLen), "force 跳过阈值");
}

#[test]
fn check_forced_returns_none_when_in_flight() {
    let mut t = DreamTrigger::new();
    t.note_activity(1000);
    t.in_flight = true;
    let evs = build_events(3);
    assert!(t.check_forced(&evs).is_none(), "in_flight 时 force 也不触发");
}

#[test]
fn check_forced_returns_none_when_no_new() {
    let mut t = DreamTrigger::new();
    t.note_activity(1000);
    t.last_dream_marker_seq = 100;
    let evs = build_events(3);
    assert!(t.check_forced(&evs).is_none(), "无新可整理时 force 也不触发");
}

#[test]
fn check_forced_returns_none_when_not_armed() {
    let t = DreamTrigger::new();
    let evs = build_events(3);
    assert!(t.check_forced(&evs).is_none(), "未 armed 时 force 不触发");
}

#[test]
fn prepare_sets_in_flight_and_returns_a() {
    let mut t = DreamTrigger::new();
    t.last_dream_marker_seq = 5;
    let a = prepare_dream(&mut t).unwrap();
    assert_eq!(a, 6);
    assert!(t.in_flight);
}

#[test]
fn prepare_returns_none_when_in_flight() {
    let mut t = DreamTrigger::new();
    t.in_flight = true;
    assert!(prepare_dream(&mut t).is_none());
}

#[test]
fn a_dream_moves_the_frontier() {
    let mut t = DreamTrigger::new();
    let mut m = HistoryEvent::marker(2000, "dream", 7);
    m.seq = 9;
    t.seed_from_history(&[m]);
    assert_eq!(t.last_dream_marker_seq, 9);
    t.dream_started(12);
    assert!(t.in_flight);
    t.dream_finished();
    assert!(!t.in_flight);
}

#[test]
fn last_memories_tell_how_far_they_go() {
    let mut evs = build_events(1);
    assert_eq!(dream_end(&evs), None);
    evs.push(HistoryEvent::marker(1, "dream", 7));
    evs.push(HistoryEvent::marker(2, "dream", 9));
    evs.push(HistoryEvent::marker(3, "reset", 30));
    assert_eq!(dream_end(&evs), Some(9));
}
