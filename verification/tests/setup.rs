use ovoice::bash::{foreground_report, leaves_processes, RunEnd, OUTPUT_CUT_MARK};
use ovoice::config::Config;
use ovoice::input::{ctrl_down, ctrl_held};
use ovoice::jobs::{JobKind, JobRegistry, JobStatus};
use ovoice::json::{Fields, Json};
use ovoice::setup::{
    background_file, close_question, data_url, legacy_moves, log_text, missing_defaults,
};
use ovoice::tasks::{task_filter, task_input, task_patch, Horizon, Status};
use ovoice::timers::{SchedulerConfig, TimerTask};
use ovoice::wire::parse_json;

fn strings(v: &[&str]) -> Vec<String> {
    v.iter().map(|s| s.to_string()).collect()
}

#[test]
fn bootstrap_creates_defaults_if_absent() {
    assert_eq!(missing_defaults(&vec![]), strings(&["SOUL.md", "AGENT.md", "MEMORY.md"]));
}

#[test]
fn bootstrap_does_not_overwrite_existing() {
    assert_eq!(missing_defaults(&strings(&["SOUL.md"])), strings(&["AGENT.md", "MEMORY.md"]));
}

#[test]
fn migrate_legacy_cache_moves_internal_items() {
    let ws = strings(&["report.md", "history", "SOUL.md", "memory"]);
    assert_eq!(legacy_moves(&ws, &vec![]), strings(&["SOUL.md", "memory", "history"]));
}

#[test]
fn migrate_legacy_cache_does_not_overwrite_existing_cache() {
    let ws = strings(&["SOUL.md"]);
    assert!(legacy_moves(&ws, &strings(&["SOUL.md"])).is_empty(), "cache 已有不覆盖");
}

#[test]
fn a_background_only_when_it_is_wanted() {
    let mut c = Config::new(None);
    c.bg_path = " D:/bg.jpg ".into();
    assert_eq!(background_file(&c), None);
    c.bg_enabled = true;
    assert_eq!(background_file(&c).as_deref(), Some("D:/bg.jpg"));
    c.bg_path = "  ".into();
    assert_eq!(background_file(&c), None);
    assert_eq!(data_url("a.png", &b"png".to_vec()), "data:image/png;base64,cG5n");
}

#[test]
fn a_long_log_is_cut() {
    assert_eq!(log_text("  abc\n", 10), "abc");
    assert_eq!(log_text("abcdef", 3), "abc\n…[已截断]");
}

#[test]
fn the_window_asks_only_while_jobs_run() {
    let mut r = JobRegistry::new("20260727");
    assert!(close_question(&r).is_none());
    let id = r.register(JobKind::Process, "编译".into(), "/l".into(), 0, "20260727");
    let q = close_question(&r).unwrap();
    let jobs = q.array_at("jobs").unwrap();
    assert_eq!(jobs.len(), 1);
    assert_eq!(jobs[0].text_at("id"), id);
    assert_eq!(jobs[0].text_at("label"), "编译");
    assert_eq!(jobs[0].text_at("kind"), "process");
    r.finish(&id, JobStatus::Done { code: 0 }, 1);
    assert!(close_question(&r).is_none());
}

fn timer(id: &str) -> TimerTask {
    let mut settings = Fields::new();
    settings.insert("name", Json::str(id));
    TimerTask { task_id: id.into(), last_fired_ts: 0, last_fired_date: "x".into(), settings }
}

#[test]
fn timers_are_put_in_changed_and_taken_out() {
    let mut c = SchedulerConfig { tasks: vec![], global_enabled: false };
    assert_eq!(c.upsert_timer(timer(" "), "t1", 100), "t1");
    assert!(c.global_enabled);
    assert_eq!(c.tasks[0].last_fired_ts, 100);
    assert_eq!(c.tasks[0].last_fired_date, "");
    assert_eq!(c.upsert_timer(timer("t1"), "t9", 200), "t1");
    assert_eq!(c.tasks.len(), 1);
    assert_eq!(c.tasks[0].last_fired_ts, 100);
    c.upsert_timer(timer("t2"), "t9", 300);
    c.delete_timer("t1");
    assert_eq!(c.tasks.len(), 1);
    assert_eq!(c.tasks[0].task_id, "t2");
    c.set_global(false);
    assert!(!c.global_enabled);
}

#[test]
fn tasks_are_read_from_what_is_given() {
    assert_eq!(task_input(&parse_json("{}").unwrap(), &vec![], &vec![]).unwrap_err(), "缺少 title");
    let v = parse_json(
        r#"{"title":"t","goal":"g","parent_id":4,"tags":["a",1,"b"],"horizon":"day","acceptance":[{"text":"x","done":true},{"done":true}],"due_date":-5}"#,
    )
    .unwrap();
    let t = task_input(&v, &strings(&["day"]), &strings(&["doing"])).unwrap();
    assert_eq!(t.title, "t");
    assert_eq!(t.goal, "g");
    assert_eq!(t.detail, "");
    assert_eq!(t.parent_id, Some(4));
    assert_eq!(t.tags, strings(&["a", "b"]));
    assert!(matches!(t.horizon, Horizon::Named(ref s) if s == "day"));
    assert!(matches!(t.status, Status::Todo));
    let t = task_input(&v, &strings(&["week"]), &vec![]).unwrap();
    assert!(matches!(t.horizon, Horizon::Current));
    assert_eq!(t.acceptance.len(), 1);
    assert!(t.acceptance[0].done);
    assert_eq!(t.due_date, Some(-5));
}

#[test]
fn tasks_are_listed_by_what_the_board_knows() {
    let (h, st) = (strings(&["day"]), strings(&["doing"]));
    let f = task_filter(Some("day"), Some("gone"), None, &h, &st);
    assert_eq!(f.horizon.as_deref(), Some("day"));
    assert!(f.status.is_none() && f.parent_id.is_none());
    assert!(!f.archived);
    assert!(task_filter(None, None, Some(true), &h, &st).archived);
    assert!(!task_filter(None, None, Some(false), &h, &st).archived);
}

#[test]
fn changes_of_tasks_are_read_from_what_is_given() {
    let p = task_patch(
        &parse_json(r#"{"clear_due":true,"due_date":3,"sort_index":2,"status":"doing","horizon":"x"}"#).unwrap(),
        &strings(&["day"]),
        &strings(&["doing"]),
    );
    assert_eq!(p.status.as_deref(), Some("doing"));
    assert!(p.horizon.is_none());
    assert_eq!(p.due_date, Some(None));
    assert_eq!(p.sort_index, Some(2));
    assert!(p.title.is_none() && p.blockers.is_none());
    let p = task_patch(
        &parse_json(
            r#"{"due_date":3,"verified":true,"blockers":[{"reason":"r","raised_at":7},{}],"artifacts":[{"reference":"f"},{"reference":"g","kind":"url"}],"acceptance":[]}"#,
        )
        .unwrap(),
        &vec![],
        &vec![],
    );
    assert_eq!(p.due_date, Some(Some(3)));
    assert_eq!(p.verified, Some(true));
    let b = p.blockers.unwrap();
    assert_eq!(b.len(), 1);
    assert_eq!((b[0].raised_at, b[0].resolved), (7, false));
    let a = p.artifacts.unwrap();
    assert_eq!(a[0].kind, "file");
    assert_eq!(a[1].kind, "url");
    assert!(p.acceptance.unwrap().is_empty());
}

#[test]
fn how_commands_end() {
    assert_eq!(foreground_report(&RunEnd::Interrupted, 100), "用户中断，已终止");
    assert_eq!(foreground_report(&RunEnd::NotStarted("x".into()), 100), "启动失败: x");
    let ok = RunEnd::Ended { code: Some(0), stdout: "out".into(), stderr: None };
    assert!(foreground_report(&ok, 100).contains("out"));
    let long = RunEnd::Ended { code: Some(0), stdout: "abcdef".repeat(50), stderr: None };
    assert!(foreground_report(&long, 10).contains(OUTPUT_CUT_MARK));
    assert!(leaves_processes(&RunEnd::TimedOut(3)));
    assert!(!leaves_processes(&ok));
    assert!(foreground_report(&RunEnd::TimedOut(3), 100).contains("3"));
    assert!(!foreground_report(&RunEnd::WaitFailed("w".into()), 100).is_empty());
}

#[test]
fn a_key_is_held() {
    assert!(ctrl_held(-32768, 0));
    assert!(ctrl_held(0, -32768));
    assert!(!ctrl_held(1, 1));
    let _ = ctrl_down();
}
