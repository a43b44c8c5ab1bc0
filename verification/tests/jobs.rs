use ovoice::jobs::{
    begin_process, fold_by_id, kill_job, legacy_event, legacy_log, load_today,
    mark_running_as_forced_exit, parse_status_from_event, settle_process, tail_text,
    terminal_event, today_compact, Exit, Job, JobEvent, JobKind, JobRegistry, JobStatus, JobUpdate,
    JobWriter, NoopJobUpdate, SubagentProgress, MAX_AGENTS, MAX_RUNNING,
};

const TODAY: &str = "20260727";

fn epoch() -> u64 {
    0
}

fn registry() -> JobRegistry {
    JobRegistry::new(TODAY)
}

fn register(r: &mut JobRegistry, kind: JobKind) -> String {
    r.register(kind, "x".into(), "/".into(), epoch(), TODAY)
}

#[test]
fn register_increments_id_and_running() {
    let mut r = registry();
    let a = r.register(JobKind::Process, "a".into(), "/a".into(), epoch(), TODAY);
    let b = r.register(JobKind::Process, "b".into(), "/b".into(), epoch(), TODAY);
    assert_ne!(a, b);
    assert_eq!(r.running, 2);
    assert!(r.can_spawn(JobKind::Process));
}

#[test]
fn cap_blocks_after_max() {
    let mut r = registry();
    for _ in 0..MAX_RUNNING {
        register(&mut r, JobKind::Process);
    }
    assert!(!r.can_spawn(JobKind::Process), "达上限应禁止再开");
}

#[test]
fn finish_releases_running_slot() {
    let mut r = registry();
    let mut first_id = None;
    for _ in 0..MAX_RUNNING {
        let id = register(&mut r, JobKind::Process);
        if first_id.is_none() {
            first_id = Some(id);
        }
    }
    assert!(!r.can_spawn(JobKind::Process));
    r.finish(&first_id.unwrap(), JobStatus::Done { code: 0 }, epoch());
    assert!(r.can_spawn(JobKind::Process), "完成后释放并发槽");
}

#[test]
fn finish_idempotent_on_running_decrement() {
    let mut r = registry();
    let id = register(&mut r, JobKind::Process);
    r.finish(&id, JobStatus::Done { code: 0 }, epoch());
    let before = r.running;
    r.finish(&id, JobStatus::Killed, epoch());
    assert_eq!(r.running, before);
}

#[test]
fn register_agent_increments_running_agents_only() {
    let mut r = registry();
    let id = r.register(JobKind::Agent, "子代理".into(), String::new(), 0, TODAY);
    assert!(r.can_spawn(JobKind::Agent));
    assert_eq!(r.running_agents, 1, "agent 计数独立");
    assert_eq!(r.running, 0, "process 计数不动");
    assert!(matches!(r.get(&id).unwrap().kind, JobKind::Agent));
}

#[test]
fn agent_cap_blocks_at_max_agents() {
    let mut r = registry();
    for _ in 0..MAX_AGENTS {
        register(&mut r, JobKind::Agent);
    }
    assert!(!r.can_spawn(JobKind::Agent), "agent 达上限");
    assert!(r.can_spawn(JobKind::Process), "process 上限独立，仍可开");
}

#[test]
fn finish_agent_releases_agent_slot() {
    let mut r = registry();
    let id = register(&mut r, JobKind::Agent);
    r.finish(&id, JobStatus::Done { code: 0 }, 0);
    assert_eq!(r.running_agents, 0);
}

#[test]
fn subagent_progress_default_empty() {
    let p = SubagentProgress::new();
    assert_eq!(p.rounds, 0);
    assert!(p.recent_tools.is_empty());
    assert!(p.partial.is_empty());
}

#[test]
fn kill_job_agent_triggers_cancel() {
    let mut r = registry();
    let id = r.register(JobKind::Agent, "子代理".into(), String::new(), 0, TODAY);
    let k = r.jobs.iter().position(|j| j.id == id).unwrap();
    r.jobs[k].cancel = true;
    let kill = kill_job(&mut r, &id, 5).expect("agent job 应可 kill");
    assert!(kill.cancel, "agent kill 必须触发 cancel token");
    assert!(!kill.end_processes);
    assert!(r.get(&id).unwrap().status.is_running());
}

#[test]
fn kill_job_unknown_returns_false() {
    let mut r = registry();
    assert!(kill_job(&mut r, "999", 0).is_none());
}

#[test]
fn kill_does_not_emit_jobdone() {
    let mut r = registry();
    let id = register(&mut r, JobKind::Process);
    let kill = kill_job(&mut r, &id, 7).unwrap();
    assert!(kill.end_processes);
    assert!(kill.job.status.is_killed());
    let s = settle_process(&mut r, &id, Exit::Ended(Some(0)), "", 9);
    assert!(s.outcome.is_none(), "人为终止不应投递 JobOutcome（不唤醒模型）");
    assert!(matches!(r.get(&id).unwrap().status, JobStatus::Killed));
}

#[test]
fn new_with_max_caps_agents_at_custom_limit() {
    let mut r = JobRegistry::new_with_max(2, TODAY);
    r.register(JobKind::Agent, "a".into(), String::new(), 0, TODAY);
    r.register(JobKind::Agent, "b".into(), String::new(), 0, TODAY);
    assert!(!r.can_spawn(JobKind::Agent), "自定义上限 2 应已满");
    assert!(r.can_spawn(JobKind::Process), "process 上限独立");
}

#[test]
fn register_generates_today_seq_id() {
    let mut r = registry();
    let a = r.register(JobKind::Process, "a".into(), "/a".into(), 1, TODAY);
    let b = r.register(JobKind::Process, "b".into(), "/b".into(), 1, TODAY);
    let prefix = format!("{}-", TODAY);
    assert!(a.starts_with(&prefix), "id 应以今日日期开头: {a}");
    assert!(b.starts_with(&prefix), "id 应以今日日期开头: {b}");
    assert_eq!(a, format!("{}01", prefix), "第 1 个序号 01");
    assert_eq!(b, format!("{}02", prefix), "第 2 个序号 02");
    assert_eq!(today_compact(1_785_024_000_000, 0), "20260726");
}

#[test]
fn register_extends_past_99() {
    let mut r = registry();
    r.next_seq = 100;
    r.current_day = TODAY.into();
    let id = register(&mut r, JobKind::Process);
    let prefix = format!("{}-", TODAY);
    assert_eq!(id, format!("{}100", prefix), "超 99 不补零，扩展到 100");
}

#[test]
fn register_resets_seq_on_new_day() {
    let mut r = registry();
    r.current_day = "19990101".into();
    r.next_seq = 50;
    let id = register(&mut r, JobKind::Process);
    let prefix = format!("{}-", TODAY);
    assert_eq!(id, format!("{}01", prefix), "跨日 next_seq 应 reset 到 01");
}

fn je(id: &str, status: &str, ts: u64) -> JobEvent {
    JobEvent {
        schema: 1,
        id: id.into(),
        kind: JobKind::Process,
        label: "x".into(),
        status: status.into(),
        started_at: ts,
        finished_at: None,
        code: None,
        tail: None,
        note: None,
        reason: None,
        deps: vec![],
    }
}

#[test]
fn job_writer_roundtrip_and_fold() {
    let mut done = je("20260727-01", "done", 2_000);
    done.code = Some(0);
    done.finished_at = Some(2_000);
    let evs = vec![je("20260727-01", "running", 1_000), done];
    let folded = fold_by_id(&evs);
    assert_eq!(folded.events.len(), 1, "fold 后一个 id");
    assert_eq!(folded.get("20260727-01").unwrap().status, "done", "fold 取最后一条");
    assert_eq!(folded.get("20260727-01").unwrap().code, Some(0));
}

#[test]
fn fold_takes_last_by_started_at_order() {
    let evs = vec![je("X", "running", 1), je("Y", "running", 2), je("X", "failed", 3)];
    let f = fold_by_id(&evs);
    assert_eq!(f.get("X").unwrap().status, "failed");
    assert_eq!(f.get("Y").unwrap().status, "running");
    assert!(f.get("Z").is_none());
}

#[test]
fn job_writer_writes_dated_file_by_spawn_day() {
    let mut w = JobWriter::new(0);
    let spawn_day = 1_785_024_000_000u64 + 23 * 3600_000;
    let (date, reopen) = w.place(&je("20260726-01", "running", spawn_day));
    assert_eq!(date, "2026-07-26", "事件落 spawn 日");
    assert!(reopen);
    w.opened(&date);
    let mut done = je("20260726-01", "done", spawn_day + 600_000);
    done.finished_at = Some(spawn_day + 600_000);
    let (date, reopen) = w.place(&done);
    assert_eq!(date, "2026-07-26", "完成日不该有文件");
    assert!(!reopen);
}

#[test]
fn job_event_has_schema_version() {
    let mut r = registry();
    let id = register(&mut r, JobKind::Process);
    assert_eq!(JobEvent::started(r.get(&id).unwrap()).schema, 1, "事件须带 schema 版本");
    assert_eq!(legacy_event("7", 3).schema, 1);
}

#[test]
fn load_today_restores_seq_and_marks_forced_exit() {
    let (id1, id2, id3) = ("20260727-01", "20260727-02", "20260727-03");
    let mut d1 = je(id1, "done", 10);
    d1.code = Some(0);
    d1.finished_at = Some(10);
    let mut d3 = je(id3, "done", 10);
    d3.code = Some(0);
    d3.finished_at = Some(10);
    let evs = vec![je(id1, "running", 10), d1, je(id2, "running", 10), je(id3, "running", 10), d3];
    let mut r = registry();
    let added = load_today(&mut r, &evs, "2026-07-27", "/jobs", 99);
    assert_eq!(r.next_seq, 4, "next_seq 应 = 今日 max+1");
    let j02 = r.get(id2).unwrap();
    assert!(
        matches!(&j02.status, JobStatus::Failed { reason } if reason == "forced_exit"),
        "悬空 running 应标 forced_exit，实际: {:?}",
        j02.status
    );
    assert!(matches!(r.get(id1).unwrap().status, JobStatus::Done { .. }));
    assert!(matches!(r.get(id3).unwrap().status, JobStatus::Done { .. }));
    assert_eq!(added.len(), 1);
    assert_eq!(added[0].id, id2);
    assert_eq!(added[0].status, "failed");
    assert_eq!(added[0].reason.as_deref(), Some("forced_exit"));
}

#[test]
fn load_today_empty_when_no_file() {
    let mut r = registry();
    assert!(load_today(&mut r, &vec![], "2026-07-27", "/jobs", 0).is_empty());
    assert_eq!(r.next_seq, 1);
    assert!(r.jobs.is_empty());
}

#[test]
fn mark_running_as_forced_exit_marks_and_writes() {
    let mut r = registry();
    let id1 = register(&mut r, JobKind::Process);
    let _id2 = register(&mut r, JobKind::Agent);
    let added = mark_running_as_forced_exit(&mut r, 5);
    assert!(matches!(&r.get(&id1).unwrap().status,
        JobStatus::Failed { reason } if reason == "forced_exit"));
    assert!(r.running == 0 && r.running_agents == 0, "并发槽应释放");
    assert_eq!(added.len(), 2);
}

#[test]
fn migrate_legacy_renames_numeric_logs_and_records() {
    let named = |n: &str| legacy_log(n).map(|p| p.1);
    assert_eq!(named("1.log").as_deref(), Some("legacy-1.log"), "1.log → legacy-1.log");
    assert_eq!(named("42.log").as_deref(), Some("legacy-42.log"), "42.log → legacy-42.log");
    assert_eq!(named("20260727-01.log"), None, "新格式 .log 不动");
    assert_eq!(named("legacy-1.log"), None);
    assert_eq!(named("1.txt"), None);
    assert!(legacy_event("1", 5).id.starts_with("legacy-"), "应记 legacy");
}

#[test]
fn spawn_rejected_at_cap() {
    let mut r = registry();
    for _ in 0..MAX_RUNNING {
        assert!(begin_process(&mut r, "x", "/jobs", 1, TODAY).is_ok());
    }
    assert!(begin_process(&mut r, "over", "/jobs", 1, TODAY).is_err(), "达上限应拒绝");
}

fn begin(r: &mut JobRegistry) -> Job {
    begin_process(r, "echo", "/jobs", 1, TODAY).unwrap()
}

#[test]
fn spawn_process_writes_running_then_done_events() {
    let mut r = registry();
    let job = begin(&mut r);
    assert_eq!(JobEvent::started(&job).status, "running");
    let s = settle_process(&mut r, &job.id, Exit::Ended(Some(0)), "hi", 9);
    let line = s.line.unwrap();
    assert_eq!(line.status, "done", "终态应为 done");
    assert_eq!(line.id, job.id);
    assert!(s.outcome.unwrap().ok, "echo 应成功");
    assert!(matches!(r.get(&job.id).unwrap().status, JobStatus::Done { code: 0 }));
}

#[test]
fn spawn_timeout_marks_failed() {
    let mut r = registry();
    let job = begin(&mut r);
    let s = settle_process(&mut r, &job.id, Exit::TimedOut(1), "", 9);
    assert!(!s.outcome.unwrap().ok);
    assert!(matches!(r.get(&job.id).unwrap().status, JobStatus::Failed { .. }));
}

#[test]
fn spawn_writes_log_to_cache_not_cwd() {
    let mut r = registry();
    let job = begin_process(&mut r, "echo", "/cache/.ovoice-jobs", 1, TODAY).unwrap();
    assert_eq!(job.log_path, format!("/cache/.ovoice-jobs/{}.log", job.id));
}

#[test]
fn a_status_that_is_written_is_read() {
    let mut r = registry();
    let job = begin(&mut r);
    r.finish(&job.id, JobStatus::Failed { reason: "坏".into() }, 4);
    let e = terminal_event(r.get(&job.id).unwrap(), Some("尾".into()));
    assert_eq!(e.tail.as_deref(), Some("尾"));
    assert!(matches!(parse_status_from_event(&e),
        JobStatus::Failed { reason } if reason == "坏"));
    assert_eq!(JobEvent::status_str(&JobStatus::Killed), "killed");
    assert_eq!(r.list().len(), 1);
}

#[test]
fn long_output_is_shown_by_its_end() {
    assert_eq!(tail_text("  短 "), "短");
    let long = "字".repeat(5000);
    let t = tail_text(&long);
    assert!(t.starts_with("…[已截断]\n"), "{}", &t[..20]);
    assert!(t.len() <= 4096 + "…[已截断]\n".len());
}

#[test]
fn updates_can_go_nowhere() {
    let mut r = registry();
    let job = begin(&mut r);
    NoopJobUpdate.update(&job);
}

#[test]
fn a_killed_process_gives_its_place_back() {
    let mut r = registry();
    let ids: Vec<String> = (0..8).map(|_| register(&mut r, JobKind::Process)).collect();
    assert!(!r.can_spawn(JobKind::Process));
    let kill = kill_job(&mut r, &ids[3], 9).unwrap();
    assert!(kill.job.status.is_killed());
    assert_eq!(kill.job.finished_at, Some(9));
    assert!(r.can_spawn(JobKind::Process));
    assert_eq!(r.running, 7);
    let _ = kill_job(&mut r, &ids[3], 10).unwrap();
    let _ = settle_process(&mut r, &ids[3], Exit::Ended(Some(0)), "", 11);
    assert_eq!(r.running, 7);
    for id in &ids {
        let _ = kill_job(&mut r, id, 12);
    }
    assert_eq!(r.running, 0);
}

#[test]
fn the_nth_job_of_a_day_has_the_nth_number() {
    let mut r = registry();
    for n in 1..=101 {
        let kind = if n % 2 == 0 { JobKind::Agent } else { JobKind::Process };
        let id = r.register(kind, format!("j{n}"), "/".into(), n, TODAY);
        assert_eq!(id, format!("{TODAY}-{n:02}"));
    }
    for n in 1..=101u64 {
        let j = r.get(&format!("{TODAY}-{n:02}")).unwrap();
        assert_eq!(j.label, format!("j{n}"));
        assert_eq!(j.started_at, n);
        assert!(j.status.is_running());
    }
    assert_eq!(register(&mut r, JobKind::Process), format!("{TODAY}-102"));
    let next = r.register(JobKind::Process, "x".into(), "/".into(), 0, "20260728");
    assert_eq!(next, "20260728-01");
}

#[test]
fn the_counters_are_the_jobs_that_run() {
    let mut r = registry();
    let a = register(&mut r, JobKind::Process);
    let b = register(&mut r, JobKind::Agent);
    let _ = register(&mut r, JobKind::Process);
    r.finish(&a, JobStatus::Failed { reason: "x".into() }, 1);
    r.finish(&a, JobStatus::Done { code: 0 }, 2);
    r.finish("none", JobStatus::Killed, 3);
    r.finish(&b, JobStatus::Killed, 4);
    let runs = |k: JobKind| r.list().iter().filter(|j| j.kind == k && j.status.is_running()).count();
    assert_eq!(r.running, 1);
    assert_eq!(runs(JobKind::Process), 1);
    assert_eq!(r.running_agents, 0);
    assert_eq!(runs(JobKind::Agent), 0);
}

#[test]
fn the_line_of_an_old_log_goes_to_the_file_of_today() {
    let now = 1_785_024_000_000;
    let w = JobWriter::new(28800);
    assert_eq!(w.place(&legacy_event("1", now)), ("2026-07-26".to_string(), true));
}

#[test]
fn limit_of_subagents_holds_at_once() {
    let mut r = JobRegistry::new_with_max(0, "20260801");
    assert!(!r.can_spawn(JobKind::Agent), "0 = 禁用子代理");
    r.set_max_agents(1);
    assert!(r.can_spawn(JobKind::Agent));
    r.register(JobKind::Agent, "a".into(), String::new(), 0, "20260801");
    assert!(!r.can_spawn(JobKind::Agent));
    r.set_max_agents(2);
    assert!(r.can_spawn(JobKind::Agent));
}
