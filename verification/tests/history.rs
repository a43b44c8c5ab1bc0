use ovoice::dates::{
    date_from_ts, date_from_ts_local, local_offset_secs, saturating_add_offset_ms,
    time_hhmm_from_ts_local,
};
use ovoice::history::{
    history_files, read_all, seed_seq, visible_head, visible_tail, HistoryEvent, HistoryWriter,
};
use ovoice::lines::record_lines;

#[test]
fn date_from_ts_epoch() {
    assert_eq!(date_from_ts(0), "1970-01-01");
}

#[test]
fn date_from_ts_known() {
    assert_eq!(date_from_ts(1_785_024_000_000), "2026-07-26");
}

#[test]
fn date_from_ts_local_shifts_day_at_boundary() {
    let utc_2300 = 1_785_024_000_000 + 23 * 3600_000;
    assert_eq!(date_from_ts(utc_2300), "2026-07-26", "UTC 底层不变");
    assert_eq!(date_from_ts_local(utc_2300, 0), "2026-07-26", "+0 等价 UTC");
    assert_eq!(date_from_ts_local(utc_2300, 28800), "2026-07-27", "+8h 跨天到次日");
}

#[test]
fn time_hhmm_from_ts_local_shifts_hour() {
    assert_eq!(time_hhmm_from_ts_local(1_785_024_000_000, 0), "00:00");
    assert_eq!(time_hhmm_from_ts_local(1_785_024_000_000, 28800), "08:00");
}

#[test]
fn local_offset_secs_in_plausible_range() {
    let o = local_offset_secs();
    assert!((-43200..=50400).contains(&o), "本地偏移应在 -12h..+14h 内: {o}");
}

#[test]
fn leap_days_and_times_before_1970() {
    assert_eq!(date_from_ts(951_782_400_000), "2000-02-29");
    assert_eq!(date_from_ts(4_107_542_400_000), "2100-03-01");
    assert_eq!(saturating_add_offset_ms(1000, -3600), 0);
    assert_eq!(saturating_add_offset_ms(1000, 2), 3000);
}

fn user(ts: u64, text: &str) -> HistoryEvent {
    HistoryEvent::user(ts, "main", text, &vec![])
}

#[test]
fn writer_appends_monotonic_seq() {
    let mut w = HistoryWriter::new(&vec![], 0);
    let a = w.stamp(user(1000, "a"));
    let b = w.stamp(user(2000, "b"));
    let c = w.stamp(user(3000, "c"));
    assert_eq!(a.event.seq, 0);
    assert_eq!(b.event.seq, 1);
    assert_eq!(c.event.seq, 2);
    assert_eq!(w.current_seq(), 3);
}

#[test]
fn writer_writes_dated_file_and_switches_day() {
    let mut w = HistoryWriter::new(&vec![], 0);
    let a = w.stamp(user(1_785_024_000_000, "d1a"));
    assert_eq!(a.date, "2026-07-26");
    assert!(a.reopen);
    w.opened(&a.date);
    let b = w.stamp(user(1_785_024_001_000, "d1b"));
    assert_eq!(b.date, "2026-07-26");
    assert!(!b.reopen);
    let c = w.stamp(user(1_785_024_000_000 + 86_400_000, "d2"));
    assert_eq!(c.date, "2026-07-27");
    assert!(c.reopen);
}

#[test]
fn read_all_skips_bad_lines() {
    let rows = vec![Some(user(1000, "a")), None, Some(user(2000, "b"))];
    assert_eq!(read_all(&rows).len(), 2, "坏行应跳过");
    assert_eq!(record_lines("x\n\n  \ny\r\n"), vec!["x".to_string(), "y".to_string()]);
}

#[test]
fn spawn_writer_seeds_seq_from_existing_history() {
    let mut w1 = HistoryWriter::new(&vec![], 0);
    let evs: Vec<HistoryEvent> = [(1000, "a"), (2000, "b"), (3000, "c")]
        .into_iter()
        .map(|(ts, t)| w1.stamp(user(ts, t)).event)
        .collect();
    assert_eq!(seed_seq(&evs), 3);
    let mut w2 = HistoryWriter::new(&evs, 0);
    assert_eq!(w2.current_seq(), 3, "新 writer 应 seed 到 max+1=3");
    assert_eq!(w2.stamp(user(4000, "d")).event.seq, 3);
}

#[test]
fn events_are_read_in_the_order_of_their_numbers() {
    let mut a = user(1000, "a");
    a.seq = 2;
    let mut b = user(2000, "b");
    b.seq = 1;
    let evs = read_all(&vec![Some(a), Some(b)]);
    let seqs: Vec<u64> = evs.iter().map(|e| e.seq).collect();
    assert_eq!(seqs, vec![1, 2]);
    let files = history_files(&vec!["b.jsonl".into(), "x.txt".into(), "a.jsonl".into()]);
    assert_eq!(files, vec!["a.jsonl".to_string(), "b.jsonl".to_string()]);
}

fn ev(seq: u64, kind: &str, thread: &str) -> HistoryEvent {
    let mut e = HistoryEvent::user(seq * 1000, thread, &format!("u{seq}"), &vec![]);
    e.seq = seq;
    e.kind = kind.into();
    e
}

#[test]
fn visible_tail_returns_newest_before_cursor() {
    let evs = vec![
        ev(0, "user", "main"),
        ev(1, "assistant", "main"),
        ev(2, "user", "main"),
        ev(3, "marker", "main"),
        ev(4, "user", "main"),
        ev(5, "assistant", "agent:1"),
    ];
    let t = visible_tail(&evs, 2, None);
    let seqs: Vec<u64> = t.iter().map(|e| e.seq).collect();
    assert_eq!(seqs, vec![2, 4], "最近 2 条可见事件（升序），marker/agent:N 跳过");
}

#[test]
fn visible_tail_before_cursor_paginates_older() {
    let evs = (0..10).map(|i| ev(i, "user", "main")).collect::<Vec<_>>();
    let t = visible_tail(&evs, 3, Some(7));
    let seqs: Vec<u64> = t.iter().map(|e| e.seq).collect();
    assert_eq!(seqs, vec![4, 5, 6]);
}

#[test]
fn visible_head_returns_oldest_after_cursor() {
    let evs = (0..10).map(|i| ev(i, "user", "main")).collect::<Vec<_>>();
    let h = visible_head(&evs, 3, Some(4));
    let seqs: Vec<u64> = h.iter().map(|e| e.seq).collect();
    assert_eq!(seqs, vec![5, 6, 7]);
}

#[test]
fn the_zone_of_windows_gives_the_offset() {
    use_zone(1, -480, 0, -60, 28800);
    use_zone(2, 300, 0, -60, -14400);
    use_zone(0, 300, 5, -60, -18000);
}

fn use_zone(id: u32, bias: i32, standard: i32, daylight: i32, want: i64) {
    assert_eq!(ovoice::dates::zone_offset_secs(id, bias, standard, daylight), want);
}

#[test]
fn days_follow_the_calendar() {
    let day = 86_400_000;
    for (ts, date, next) in [
        (951_782_400_000, "2000-02-29", "2000-03-01"),
        (946_598_400_000, "1999-12-31", "2000-01-01"),
        (4_107_456_000_000, "2100-02-28", "2100-03-01"),
    ] {
        assert_eq!(date_from_ts(ts), date);
        assert_eq!(date_from_ts(ts + day - 1), date);
        assert_eq!(date_from_ts(ts + day), next);
    }
}

#[test]
fn times_of_day_come_again() {
    let ts = 1_785_024_000_000 + 5 * 3_600_000 + 7 * 60_000;
    assert_eq!(time_hhmm_from_ts_local(ts, 28800), "13:07");
    assert_eq!(time_hhmm_from_ts_local(ts + 28_800_000, 0), "13:07");
    assert_eq!(time_hhmm_from_ts_local(ts + 86_400_000, 28800), "13:07");
}

#[test]
fn numbers_go_on_behind_what_is_there() {
    let mut old = user(1000, "old");
    old.seq = 41;
    let mut w = HistoryWriter::new(&vec![old], 28800);
    assert_eq!(w.current_seq(), 42);
    for i in 0..3u64 {
        let s = w.stamp(user(1_785_024_000_000 + i * 43_200_000, "x"));
        assert_eq!(s.event.seq, 42 + i);
        assert_eq!(s.date, if i < 2 { "2026-07-26" } else { "2026-07-27" });
    }
    assert_eq!(w.current_seq(), 45);
}
