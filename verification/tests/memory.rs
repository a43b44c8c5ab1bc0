use ovoice::config::Config;
use ovoice::history::HistoryEvent;
use ovoice::mem::{
    current_ym, dispatch, dream_settings, missing_months, missing_years, normalize_date,
    parse_dream_flags, parse_seq_flag, parse_ym_arg, plan_dream, read_route, resolve_cache,
    resolve_from_config, settings_dir, strip_loc_flag, usage, valid_ls_arg, valid_read_arg,
    DreamFlags, DreamPlan, Places, Request,
};
use ovoice::mem_cli::{
    history, history_path, humanize, ls, pack, period_path, read_day, read_month, read_year,
    search, year_path,
};
use ovoice::store::{Entry, Store};

fn store() -> Store {
    Store { root: "/c".into(), entries: vec![] }
}

fn dir(s: &mut Store, dir: &str, name: &str) {
    if !s.entries.iter().any(|e| e.is_dir && e.dir == dir && e.name == name) {
        s.entries.push(Entry { dir: dir.into(), name: name.into(), is_dir: true, text: None });
    }
}

fn file(s: &mut Store, dir: &str, name: &str, text: &str) {
    s.entries.push(Entry {
        dir: dir.into(),
        name: name.into(),
        is_dir: false,
        text: Some(text.into()),
    });
}

/// Puts a file of a month into the memory.
fn put(s: &mut Store, y: &str, m: &str, name: &str, text: &str) {
    dir(s, "memory", y);
    dir(s, &format!("memory/{y}"), m);
    file(s, &format!("memory/{y}/{m}"), name, text);
}

fn make_day(s: &mut Store, date: &str, body: &str) {
    let (y, m) = (date.split('-').next().unwrap(), date.split('-').nth(1).unwrap());
    put(s, y, m, &format!("{date}.md"), body);
}

fn make_hist(s: &mut Store, date: &str, lines: &[&str]) {
    file(s, "history", &format!("{date}.jsonl"), &format!("{}\n", lines.join("\n")));
}

fn ev(seq: u64, kind: &str, text: &str) -> HistoryEvent {
    let mut e = match kind {
        "user" => HistoryEvent::user(1000 + seq * 1000, "main", text, &vec![]),
        "assistant" => HistoryEvent::assistant(1000 + seq * 1000, "main", text, "", vec![]),
        "tool_result" => {
            HistoryEvent::tool_result(1000 + seq * 1000, "main", "bash", text, "c")
        }
        _ => HistoryEvent::user(0, "main", text, &vec![]),
    };
    e.seq = seq;
    e
}

fn day_body(date_compact: &str, segs: &[((&str, &str, &str, &str), (u64, u64))]) -> String {
    let date =
        format!("{}-{}-{}", &date_compact[..4], &date_compact[4..6], &date_compact[6..8]);
    let mut body = String::new();
    for (i, ((hhmm, subj, title, detail), (a, b))) in segs.iter().enumerate() {
        body.push_str(&format!(
            "\n## {hhmm} evt-{date_compact}-{:03} {title}\n**主语**: {subj}\n**详情**: {detail}\n**对话索引**: history/{date}.jsonl#seq[{a},{b}]\n",
            i + 1
        ));
    }
    body
}

/// Does what arguments ask for, as far as it needs only the store.
fn run(args: &[&str], s: &Store) -> (String, i32) {
    let args: Vec<String> = args.iter().map(|a| a.to_string()).collect();
    match dispatch(&args) {
        Request::Say(text, code) => (text, code),
        Request::Ls(a) => (ls(s, a.as_deref()), 0),
        Request::Read(date) => {
            let dir = match date.split('-').collect::<Vec<_>>().as_slice() {
                [y] => format!("memory/{y}"),
                [y, m, ..] => format!("memory/{y}/{m}"),
                _ => String::new(),
            };
            let records = s.text(&dir, &format!("{date}.jsonl"));
            let notes = s.text(&dir, &format!("{date}.md"));
            (read_route(&date, records, notes), 0)
        }
        Request::History(date, range) => (history(&date, None, range), 0),
        Request::Search(q, raw) => (search(s, &q, raw), 0),
        Request::Pack => (pack(s, 1_785_024_000_000, 0).0, 0),
    }
}

fn strings(v: &[&str]) -> Vec<String> {
    v.iter().map(|s| s.to_string()).collect()
}

#[test]
fn ls_no_arg_lists_years() {
    let mut s = store();
    make_day(&mut s, "2026-07-26", "## 12:30 evt-20260726-001 标题A\n");
    make_day(&mut s, "2025-03-01", "## 09:00 evt-20250301-001 标题B\n");
    let out = ls(&s, None);
    assert!(out.contains("2026") && out.contains("2025"), "无参列年: {out}");
    assert_eq!(out, "2025\n2026");
    assert_eq!(ls(&store(), None), "（/c/memory 下无数据）");
}

#[test]
fn ls_year_lists_months_with_theme() {
    let mut s = store();
    make_day(
        &mut s,
        "2025-06-15",
        &day_body("20250615", &[(("10:00", "用户", "做X", "d"), (0, 1))]),
    );
    file(&mut s, "", "MEMORY.md", "# 记忆\n\n## 年\n- 2025-06: 六月主要做X和Y\n");
    let out = ls(&s, Some("2025"));
    assert!(out.contains("## 2025（各月概览）"), "标题: {out}");
    assert!(out.contains("- 2025-06: 六月主要做X和Y（月主题 · 1 段）"), "有月主题用月主题: {out}");
}

#[test]
fn ls_year_lists_months_without_theme() {
    let mut s = store();
    make_day(
        &mut s,
        "2025-09-05",
        &day_body("20250905", &[(("10:00", "用户", "九月首事", "d"), (0, 1))]),
    );
    let out = ls(&s, Some("2025"));
    assert!(out.contains("- 2025-09: 1 段（首条: 九月首事）"), "无月主题显示段数+首条: {out}");
}

const DAY_SUMMARIES: &str = "# 2026-07\n\n## 日概括\n- 2026-07-30: 围绕 dream | drag | 5事件 [seq 1..9]\n- 2026-07-29: 围绕 mem | 3事件 [seq 0..5]\n";

#[test]
fn ls_month_lists_day_summaries() {
    let mut s = store();
    put(&mut s, "2026", "07", "2026-07.md", DAY_SUMMARIES);
    let out = ls(&s, Some("202607"));
    assert!(out.contains("## 2026-07（日概括）"), "标题: {out}");
    assert!(out.contains("- 2026-07-30: 围绕 dream"), "列日概括: {out}");
    assert!(out.contains("- 2026-07-29: 围绕 mem"), "列日概括: {out}");
}

#[test]
fn ls_month_dash_alias_eq_compact() {
    let mut s = store();
    put(&mut s, "2026", "07", "2026-07.md", "# 2026-07\n\n## 日概括\n- 2026-07-30: x\n");
    assert_eq!(ls(&s, Some("2026-07")), ls(&s, Some("202607")));
}

#[test]
fn ls_day_lists_event_segments() {
    let mut s = store();
    make_day(
        &mut s,
        "2025-06-15",
        &day_body(
            "20250615",
            &[
                (("10:00", "用户", "讨论了 attachments", "拖放+native DnD"), (0, 3)),
                (("14:00", "agent", "实现了 drag-drop", "on_window_event"), (4, 7)),
            ],
        ),
    );
    let out = ls(&s, Some("20250615"));
    assert!(out.contains("## 2025-06-15（事件段索引）"), "标题: {out}");
    assert!(
        out.contains("- 10:00 [用户] 讨论了 attachments — 拖放+native DnD → 2025-06-15#seq[0,3]"),
        "第一段: {out}"
    );
    assert!(
        out.contains("- 14:00 [agent] 实现了 drag-drop — on_window_event → 2025-06-15#seq[4,7]"),
        "第二段: {out}"
    );
}

#[test]
fn ls_bad_format_hint() {
    let out = ls(&store(), Some("foo"));
    assert!(out.contains("日期格式应为"), "坏格式给提示: {out}");
}

#[test]
fn ls_dash_date_routes_like_compact() {
    let mut s = store();
    make_day(
        &mut s,
        "2025-06-15",
        &day_body("20250615", &[(("10:00", "用户", "做X", "d"), (0, 1))]),
    );
    assert_eq!(ls(&s, Some("2025-06-15")), ls(&s, Some("20250615")));
}

#[test]
fn read_day_prints_segments_with_pointer() {
    let notes = "## 12:30 evt-001 重构\n**对话索引**: history/2026-07-26.jsonl#seq[3,9]\n";
    let out = read_day("2026-07-26", None, Some(notes));
    assert!(out.contains("重构"));
    assert!(out.contains("seq[3,9]"), "应含对话索引指针: {out}");
}

#[test]
fn read_day_missing_says_none() {
    assert!(read_day("2099-01-01", None, None).contains("无"));
    assert_eq!(read_day("2099", None, None), "日期格式应为 YYYY-MM-DD");
}

#[test]
fn history_humanizes_and_filters_seq() {
    let rows = vec![
        Some(ev(1, "user", "你好")),
        Some(ev(2, "assistant", "嗨")),
        None,
        Some(ev(3, "user", "再做X")),
        Some(ev(4, "assistant", "好")),
    ];
    let all = history("2026-07-26", Some(&rows), None);
    assert!(all.contains("你好") && all.contains("嗨"), "人性化全量: {all}");
    let sub = history("2026-07-26", Some(&rows), Some((2, 3)));
    assert!(sub.contains("嗨") && sub.contains("再做X"), "[2,3] 段: {sub}");
    assert!(!sub.contains("你好"), "seq 1 应被过滤掉: {sub}");
    assert_eq!(sub, "[seq2 助手] 嗨\n[seq3 用户] 再做X\n");
    assert_eq!(history("d", Some(&rows), Some((9, 9))), "（d 的 seq 范围内无事件）");
    assert_eq!(history("d", None, None), "（d 无原始对话 history）");
}

#[test]
fn search_finds_in_memory_default() {
    let mut s = store();
    make_day(&mut s, "2026-07-26", "## 标题\n**详情**: 关键词foobar在此\n");
    assert!(search(&s, "foobar", false).contains("foobar"), "默认搜 memory/");
    assert_eq!(
        search(&s, "FooBar", false),
        "/c/memory/2026/07/2026-07-26.md:2: **详情**: 关键词foobar在此"
    );
}

#[test]
fn search_tells_paths_of_windows() {
    let mut s = store();
    s.root = "C:\\cache".into();
    make_hist(&mut s, "2026-07-26", &[r#"{"text":"xyz"}"#]);
    assert_eq!(
        search(&s, "xyz", true),
        r#"C:\cache\history\2026-07-26.jsonl:1: {"text":"xyz"}"#
    );
}

#[test]
fn search_raw_extends_to_history() {
    let mut s = store();
    make_hist(
        &mut s,
        "2026-07-26",
        &[r#"{"seq":1,"ts":2000,"thread":"main","kind":"user","text":"secret_value_xyz","attachments":[]}"#],
    );
    assert!(search(&s, "secret_value_xyz", false).contains("未找到"), "默认只搜 memory/");
    assert!(
        search(&s, "secret_value_xyz", true).contains("secret_value_xyz"),
        "--raw 应扩到 history"
    );
}

#[test]
fn humanize_tool_result_shows_result_content() {
    let out = humanize(&ev(5, "tool_result", "命令输出 xyz"));
    assert!(out.contains("命令输出 xyz"), "tool_result 应显示 result 内容: {out}");
}

#[test]
fn read_month_returns_content_or_missing() {
    let notes = "# 2026-07\n\n## 月主题\n七月围绕 dream\n";
    assert!(read_month("2026-07", None, Some(notes)).contains("七月围绕 dream"));
    assert!(read_month("2025-05", None, None).contains("无"));
}

#[test]
fn read_year_returns_content_or_missing() {
    let notes = "# 2026 月主题索引\n- 2026-07: dream\n";
    assert!(read_year("2026", None, Some(notes)).contains("月主题索引"));
    assert!(read_year("2099", None, None).contains("无"));
    assert_eq!(read_year("26", None, None), "年份格式应为 YYYY");
}

const EVENTS: &str = r#"{"hhmm":"09:00","evt":"evt-1","type":"工作","title":"甲","detail":"细节","seq":[1,5],"keywords":["a","b"],"subject":"用户","ref":"r1"}
not json
{"hhmm":"10:00","evt":"evt-2","type":"工作","title":"乙","seq":[6,9]}
"#;

#[test]
fn records_of_a_day() {
    let mut s = store();
    put(&mut s, "2026", "07", "2026-07-26.jsonl", EVENTS);
    assert_eq!(
        ls(&s, Some("20260726")),
        "## 2026-07-26（事件索引）\n- 09:00 [工作] 甲 — seq[1..5]\n- 10:00 [工作] 乙 — seq[6..9]\n"
    );
    assert_eq!(
        read_day("2026-07-26", Some(EVENTS), None),
        "## 09:00 evt-1 [工作] 甲\n详情: 细节\n关键词: a·b\n主语: 用户\n对话索引: r1\n\n## 10:00 evt-2 [工作] 乙\n详情: \n关键词: \n主语: \n对话索引: \n\n"
    );
    assert_eq!(ls(&s, Some("2026")), "## 2026（各月）\n- 2026-07: 2事件（2事件）\n");
    file(&mut s, "memory/2026", "2026.jsonl", "{\"type\":\"month\",\"month\":\"2026-07\",\"month_title\":\"主题\"}");
    assert_eq!(ls(&s, Some("2026")), "## 2026（各月）\n- 2026-07: 主题（2事件）\n");
    assert_eq!(
        search(&s, "甲", false).lines().count(),
        1,
        "{}",
        search(&s, "甲", false)
    );
    assert!(search(&s, "主题", false).contains("未找到"), "月层年层不搜");
    assert_eq!(search(&s, " ", false), "（请提供搜索关键词）");
    assert_eq!(search(&s, "无此词", false), "（未找到 \"无此词\"）");
}

const MONTH: &str = r#"{"type":"day","date":"2026-07-01","event_count":2,"day_title":"一","top_events":["x",""],"keywords":["k"],"drill":"d1"}
{"type":"day","date":"2026-07-02","event_count":3,"day_title":"二","drill":"d2"}
{"type":"mainline","mainline":"主线","key_outputs":["o1","o2"],"keywords":["k"]}
"#;

#[test]
fn records_of_a_month_and_a_year() {
    let mut s = store();
    put(&mut s, "2026", "07", "2026-07.jsonl", MONTH);
    assert_eq!(
        ls(&s, Some("202607")),
        "## 2026-07（各天）\n- 2026-07-01 [2事件] 一\n- 2026-07-02 [3事件] 二\n"
    );
    assert_eq!(
        read_month("2026-07", Some(MONTH), None),
        "## 2026-07-01 [2事件] 一\n关键词: k\n→ d1\n\n## 2026-07-02 [3事件] 二\n关键词: \n→ d2\n\n## 月度主线\n主线\n关键产出: o1 / o2\n关键词: k\n"
    );
    let year = "{\"type\":\"month\",\"month\":\"2026-07\",\"month_title\":\"题\",\"drill\":\"d\"}\n{\"type\":\"year_mainline\",\"year_mainline\":\"年\",\"keywords\":[\"k\"]}";
    assert_eq!(
        read_year("2026", Some(year), None),
        "## 2026-07 题\n→ d\n## 年度主线\n年\n关键词: k\n"
    );
    assert_eq!(ls(&s, Some("202608")), "（2026-08 无月级文件）");
    assert_eq!(ls(&s, Some("2027")), "（2027 无记忆）");
}

#[test]
fn the_overview_is_put_together() {
    let mut s = store();
    put(&mut s, "2026", "07", "2026-07-26.jsonl", EVENTS);
    file(&mut s, "memory/2026/07", "2026-07.jsonl", MONTH);
    file(
        &mut s,
        "memory/2026",
        "2026.jsonl",
        "{\"type\":\"month\",\"month\":\"2026-06\",\"month_title\":\"六\"}\n{\"type\":\"month\",\"month\":\"2026-07\",\"month_title\":\"七\"}\n{\"type\":\"year_mainline\",\"year_mainline\":\"年线\"}",
    );
    let (note, text) = pack(&s, 1_785_024_000_000, 0);
    assert_eq!(note, "pack → /c/MEMORY.md（日 2 事件 / 当月 2026-07 / 上月 2026-06 / 年 2026）");
    assert_eq!(
        text,
        "# 记忆（MEMORY.md）\n由 dream 维护，pack 从三层 jsonl 重拼。三层总览：日 / 月 / 年。\n\n## 日\n- 10:00 evt-2 [工作] 乙\n- 09:00 evt-1 [工作] 甲\n  细节\n\n## 月\n### 当月 2026-07\n月度主线: 主线\n关键产出: o1 / o2\n关键词: k\n- 2026-07-02 [3事件] 二\n- 2026-07-01 [2事件] 一\n  · x\n### 上月 2026-06\n（无月层数据）\n\n## 年\n年度主线: 年线\n- 2026-07 七\n- 2026-06 六\n"
    );
    let (note, text) = pack(&store(), 0, 0);
    assert!(note.contains("当月 1970-01 / 上月 1969-12"), "{note}");
    assert!(text.contains("（1970-01-01 无当天记忆，先 mem dream day）"));
    assert!(text.ends_with("（无年层数据）\n"));
}

fn places() -> Places {
    Places {
        cache_var: None,
        workspace_var: None,
        beside: None,
        app_data: None,
        user_profile: None,
        home: Some("/home/u".into()),
    }
}

#[test]
fn resolve_cache_flag_overrides() {
    let args = strings(&["mem", "--cache", "/tmp/c", "ls"]);
    assert_eq!(resolve_cache(&args, &places()), "/tmp/c");
}

#[test]
fn resolve_cache_flag_anywhere() {
    let args = strings(&["mem", "history", "2026-07-26", "--cache", "C:/c"]);
    assert_eq!(resolve_cache(&args, &places()), "C:/c");
}

#[test]
fn resolve_workspace_flag_is_legacy_alias() {
    let args = strings(&["mem", "--workspace", "/tmp/leg", "ls"]);
    assert_eq!(resolve_cache(&args, &places()), "/tmp/leg");
}

#[test]
fn places_in_their_order() {
    let args = strings(&["mem", "ls"]);
    let mut p = places();
    assert_eq!(resolve_cache(&args, &p), "/home/u/Documents/ovoice");
    p.app_data = Some(("/data".into(), "".into()));
    assert_eq!(resolve_cache(&args, &p), "/data/cache");
    p.app_data = Some(("/data".into(), "mine".into()));
    assert_eq!(resolve_cache(&args, &p), "/data/mine");
    p.beside = Some(("/exe".into(), " /there ".into()));
    assert_eq!(resolve_cache(&args, &p), "/there");
    p.workspace_var = Some("/w".into());
    assert_eq!(resolve_cache(&args, &p), "/w");
    p.cache_var = Some("/v".into());
    assert_eq!(resolve_cache(&args, &p), "/v");
    let args = strings(&["mem", "--cache", "/f"]);
    assert_eq!(resolve_cache(&args, &p), "/f");
    let args = strings(&["mem", "--cache"]);
    assert_eq!(resolve_cache(&args, &p), "/v");
}

#[test]
fn parse_seq_dotdot() {
    assert_eq!(parse_seq_flag(&strings(&["mem", "history", "d", "--seq", "3..9"])), Some((3, 9)));
}

#[test]
fn parse_seq_comma() {
    assert_eq!(parse_seq_flag(&strings(&["mem", "history", "d", "--seq", "3,9"])), Some((3, 9)));
}

#[test]
fn parse_seq_none_when_absent() {
    assert_eq!(parse_seq_flag(&strings(&["mem", "history", "d"])), None);
    assert_eq!(parse_seq_flag(&strings(&["mem", "--seq"])), None);
    assert_eq!(parse_seq_flag(&strings(&["mem", "--seq", "x..9"])), None);
    assert_eq!(parse_seq_flag(&strings(&["mem", "--seq", "39"])), None);
}

#[test]
fn dispatch_routes_read() {
    let (out, _) = run(&["mem", "read", "2099-01-01"], &store());
    assert!(out.contains("2099-01-01") || out.contains("无"));
}

#[test]
fn strip_loc_flag_removes_pair() {
    let a = strings(&["mem", "--cache", "/x", "ls", "2026"]);
    assert_eq!(strip_loc_flag(&a), strings(&["mem", "ls", "2026"]));
}

#[test]
fn strip_loc_flag_also_strips_legacy_workspace() {
    let a = strings(&["mem", "--workspace", "/x", "ls"]);
    assert_eq!(strip_loc_flag(&a), strings(&["mem", "ls"]));
}

#[test]
fn strip_loc_flag_preserves_when_absent() {
    let a = strings(&["mem", "ls"]);
    assert_eq!(strip_loc_flag(&a), a);
    assert_eq!(strip_loc_flag(&strings(&["mem", "--cache"])), strings(&["mem"]));
}

#[test]
fn dispatch_with_leading_cache_flag_not_unknown() {
    let clean = strip_loc_flag(&strings(&["mem", "--cache", "/x", "ls"]));
    let args: Vec<&str> = clean.iter().map(|s| s.as_str()).collect();
    let (out, _) = run(&args, &store());
    assert!(!out.contains("未知命令"), "leading --cache 不该报未知命令: {out}");
}

#[test]
fn resolve_from_config_none_when_empty() {
    assert_eq!(resolve_from_config("", "/d"), None, "空 cache_dir 应跳档（不当默认用）");
    assert_eq!(resolve_from_config("  ", "/d"), None);
}

#[test]
fn resolve_from_config_some_when_cache_set_absolute() {
    assert_eq!(resolve_from_config("D:/mycache", "/d"), Some("D:/mycache".to_string()));
}

#[test]
fn dispatch_ls_routes_compact() {
    let mut s = store();
    put(
        &mut s,
        "2026",
        "07",
        "2026-07-31.md",
        "## 10:00 evt-20260731-001 测试\n**对话索引**: history/2026-07-31.jsonl#seq[1,2]\n",
    );
    let (out, _) = run(&["mem", "ls", "20260731"], &s);
    assert!(out.contains("测试"), "ls 紧凑日期路由到 ls_day: {out}");
}

#[test]
fn dispatch_index_removed_is_unknown() {
    let (out, code) = run(&["mem", "index"], &store());
    assert!(out.contains("未知命令"), "index 已删: {out}");
    assert_eq!(code, 2);
}

#[test]
fn dispatch_read_routes_by_granularity() {
    let mut s = store();
    put(&mut s, "2026", "07", "2026-07-30.md", "## 12:00 evt-001 今日事\n");
    let (out_day, _) = run(&["mem", "read", "2026-07-30"], &s);
    assert!(out_day.contains("今日事"), "YYYY-MM-DD 应路由到 read_day: {out_day}");
    let (out_month, _) = run(&["mem", "read", "2026-07"], &s);
    assert!(
        out_month.contains("无") || out_month.contains("2026-07"),
        "YYYY-MM 应路由到 read_month: {out_month}"
    );
    let (out_year, _) = run(&["mem", "read", "2026"], &s);
    assert!(
        out_year.contains("无") || out_year.contains("2026"),
        "YYYY 应路由到 read_year: {out_year}"
    );
    assert_eq!(run(&["mem", "read", "20260730"], &s).0, out_day);
}

#[test]
fn load_dream_cfg_falls_back_to_parent_config() {
    assert_eq!(settings_dir("/d/cache", false, Some("/d"), true), "/d");
    assert_eq!(settings_dir("/d/cache", true, Some("/d"), true), "/d/cache");
    assert_eq!(settings_dir("/d/cache", false, Some("/d"), false), "/d/cache");
    assert_eq!(settings_dir("cache", false, None, true), "cache");
    let mut cfg = Config::new(None);
    assert!(dream_settings(&cfg).api_key.is_none());
    cfg.api_key = "test-key-123".into();
    cfg.llm_model = "M".into();
    let d = dream_settings(&cfg);
    assert_eq!(d.api_key.as_deref(), Some("test-key-123"), "应从父目录读到 api_key");
    assert_eq!(d.model, "M");
    assert_eq!(d.max_rounds, 5);
}

#[test]
fn commands_and_their_refusals() {
    assert_eq!(run(&["mem"], &store()), (usage(), 0));
    assert_eq!(run(&["mem", "-h"], &store()), (usage(), 0));
    let (out, code) = run(&["mem", "ls", "202613"], &store());
    assert_eq!(code, 2);
    assert!(out.starts_with("日期非法: 202613"), "{out}");
    let (out, code) = run(&["mem", "read", "2026-13"], &store());
    assert_eq!(code, 2);
    assert!(out.starts_with("日期非法: 2026-13"), "{out}");
    assert_eq!(run(&["mem", "history", "d"], &store()).0, "（d 无原始对话 history）");
    assert!(run(&["mem", "pack"], &store()).0.starts_with("pack → /c/MEMORY.md"));
    assert!(run(&["mem", "search", "x", "--raw"], &store()).0.contains("未找到"));
}

#[test]
fn dates_with_and_without_dashes() {
    assert_eq!(normalize_date("20260731"), "2026-07-31");
    assert_eq!(normalize_date("202607"), "2026-07");
    assert_eq!(normalize_date("2026"), "2026");
    assert_eq!(normalize_date(&normalize_date("20260731")), "2026-07-31");
    for d in ["202607", "20260731", "202613", "20260732", "2026-07-00"] {
        assert_eq!(valid_ls_arg(d), valid_read_arg(&normalize_date(d)), "{d}");
    }
    assert!(valid_read_arg("2026"));
    assert!(!valid_read_arg("26"));
    assert!(!valid_read_arg("2026-07-31-01"));
    assert!(valid_ls_arg("2026"));
    assert!(!valid_ls_arg("x"));
    assert_eq!(
        period_path("/c", "2026-07-31", ".jsonl").as_deref(),
        Some("/c/memory/2026/07/2026-07-31.jsonl")
    );
    assert_eq!(period_path("/c", "2026", ".jsonl"), None);
    assert_eq!(year_path("/c", "2026", ".md"), "/c/memory/2026/2026.md");
    assert_eq!(history_path("/c", "20260731"), "/c/history/2026-07-31.jsonl");
    assert_eq!(history_path("/c", "2026-07-31"), "/c/history/2026-07-31.jsonl");
}

#[test]
fn what_is_to_be_summed_up() {
    let plan = |a: &[&str]| plan_dream(&strings(a));
    assert!(matches!(plan(&["mem", "dream"]), DreamPlan::ToIdle));
    assert!(matches!(plan(&["mem", "dream", "day"]), DreamPlan::ToIdle));
    assert!(matches!(plan(&["mem", "dream", "day", "--once", "2026-08-02"]),
        DreamPlan::Day(d) if d == "2026-08-02"));
    assert!(matches!(plan(&["mem", "dream", "month", "2026-08"]), DreamPlan::Month(2026, 8)));
    assert!(matches!(plan(&["mem", "dream", "month"]), DreamPlan::MissingMonths));
    assert!(matches!(plan(&["mem", "dream", "year", "2026"]), DreamPlan::Year(2026)));
    assert!(matches!(plan(&["mem", "dream", "year"]), DreamPlan::MissingYears));
    assert!(matches!(plan(&["mem", "dream", "year", "x"]), DreamPlan::Refused(_)));
    assert!(matches!(plan(&["mem", "dream", "day", "--force"]),
        DreamPlan::Refused(e) if e.contains("--force")));
    assert_eq!(
        parse_dream_flags(&strings(&["mem", "--once", "--dry-run"])),
        DreamFlags { once: true, mechanical: false, dry_run: true, force: false }
    );
    assert_eq!(parse_ym_arg("2026-08"), (2026, 8));
    assert_eq!(current_ym(1_785_024_000_000, 0), (2026, 7));
}

#[test]
fn what_has_not_been_summed_up() {
    let mut s = store();
    put(&mut s, "2026", "07", "2026-07-01.jsonl", "{}");
    put(&mut s, "2026", "06", "2026-06-01.jsonl", "{}");
    file(&mut s, "memory/2026/06", "2026-06.jsonl", "{}");
    put(&mut s, "notes", "01", "2026-01-01.jsonl", "{}");
    assert_eq!(missing_months(&s), vec![(2026, 7)]);
    assert_eq!(missing_years(&s), vec![2026]);
    file(&mut s, "memory/2026", "2026.jsonl", "{}");
    assert!(missing_years(&s).is_empty());
}

#[test]
fn events_as_a_reader_sees_them() {
    assert_eq!(humanize(&ev(5, "tool_result", "x")), "[seq5 工具结果:bash] x");
    let mut m = HistoryEvent::marker(1, "dream", 7);
    m.seq = 8;
    assert_eq!(humanize(&m), "[seq8 marker dream until_seq=7] (隐藏)");
    let mut e = HistoryEvent::external(1, "拖入", "x.pdf", None);
    e.seq = 2;
    assert_eq!(humanize(&e), "[seq2 外部] 拖入");
    let mut e = HistoryEvent::edit(1, "p", None, None);
    e.seq = 3;
    assert_eq!(humanize(&e), format!("[seq3 {}]", e.kind));
}

#[test]
fn a_date_to_read_is_written_in_digits() {
    for d in ["abcd-07", "abcd-07-30", "2026-+7", "2026-07-+1", "2026-13", "2026-07-32", "２-07"] {
        assert!(!valid_read_arg(d), "{d}");
    }
    for d in ["2026-07", "2026-12-31"] {
        assert!(valid_read_arg(d), "{d}");
    }
}
