use ovoice::context::{
    build_messages, event_to_message, last_marker_until_seq, load_pinned, with_prefix,
    PinnedBlocks, SUBAGENT_SUMMARY_RENDER_CAP,
};
use ovoice::history::HistoryEvent;
use ovoice::json::Json;
use ovoice::pairing::strip_unpaired_tool_calls;
use ovoice::wire::parse_json;

fn j(text: &str) -> Json {
    parse_json(text).unwrap()
}

fn pinned(s: &str) -> PinnedBlocks {
    PinnedBlocks { system_prompt: s.into(), soul: None, agent: None, memory: None }
}

fn tc(id: &str) -> Json {
    j(&format!(
        r#"{{"id":"{id}","type":"function","function":{{"name":"bash","arguments":"{{}}"}}}}"#
    ))
}

fn seq_events(kinds: &[&str]) -> Vec<HistoryEvent> {
    let mut evs = Vec::new();
    let mut seq = 0u64;
    let mut ts = 1000u64;
    for k in kinds {
        let mut ev = match *k {
            "user" => HistoryEvent::user(ts, "main", &format!("u{seq}"), &vec![]),
            "assistant" => HistoryEvent::assistant(ts, "main", &format!("a{seq}"), "", vec![]),
            "assistant_tc" => {
                HistoryEvent::assistant(ts, "main", "", "", vec![tc(&format!("c{seq}"))])
            }
            "tool" => HistoryEvent::tool_result(
                ts,
                "main",
                "bash",
                "ok",
                &format!("c{}", seq.saturating_sub(1)),
            ),
            "external" => HistoryEvent::external(ts, "拖入", "x.pdf", None),
            "subagent_result" => {
                HistoryEvent::subagent_result(ts, "1", "完成X", "thread=agent:1 seq[0,3]", true)
            }
            "marker_dream" => HistoryEvent::marker(ts, "dream", seq),
            "marker_reset" => HistoryEvent::marker(ts, "reset", seq),
            other => panic!("unknown kind {other}"),
        };
        ev.seq = seq;
        evs.push(ev);
        seq += 1;
        ts += 1000;
    }
    evs
}

fn build(evs: &Vec<HistoryEvent>) -> Vec<Json> {
    build_messages(evs, &pinned("S"), 50, &vec![], false)
}

fn message(ev: &HistoryEvent) -> Json {
    event_to_message(ev, &vec![]).unwrap()
}

fn users(m: &Vec<Json>) -> usize {
    m.iter().filter(|x| x.text_at("role") == "user").count()
}

fn has_calls(x: &Json) -> bool {
    x.text_at("role") == "assistant" && x.get("tool_calls").is_some()
}

fn call_ids(x: &Json) -> Vec<&str> {
    x.array_at("tool_calls").map(|a| a.iter().map(|c| c.text_at("id")).collect()).unwrap_or_default()
}

#[test]
fn user_event_becomes_user_message() {
    let m = build(&seq_events(&["user"]));
    assert_eq!(m[0].text_at("role"), "system");
    assert_eq!(m[1].text_at("role"), "user");
}

#[test]
fn assistant_with_toolcalls_emits_tool_calls() {
    let m = build(&seq_events(&["user", "assistant_tc", "tool", "assistant"]));
    let asst = m.iter().find(|x| has_calls(x)).unwrap();
    assert_eq!(call_ids(asst)[0], "c1");
    assert!(asst.get("content").unwrap().is_null());
}

#[test]
fn assistant_with_toolcalls_forces_null_content_even_when_history_has_text() {
    let mut ev = HistoryEvent::assistant(1000, "main", "我先看一下", "", vec![tc("c1")]);
    ev.seq = 1;
    let m = message(&ev);
    assert_eq!(m.text_at("role"), "assistant");
    assert!(m.get("tool_calls").is_some(), "应有 tool_calls");
    assert!(m.get("content").unwrap().is_null(), "tool_calls 在场时 content 必须强制 null: {m:?}");
}

#[test]
fn marker_window_only_after_last_marker() {
    let m = build(&seq_events(&["user", "marker_reset", "user", "assistant"]));
    assert_eq!(users(&m), 1, "marker 前的 user 不应进 context");
}

#[test]
fn reset_marker_same_boundary_as_dream() {
    let m = build(&seq_events(&["user", "marker_reset", "user", "assistant"]));
    assert_eq!(users(&m), 1, "reset 后只应剩 1 个 user");
}

#[test]
fn thread_agent_filtered_out() {
    let mut evs = seq_events(&["user"]);
    let mut a = HistoryEvent::assistant(5000, "agent:1", "子代理输出", "", vec![]);
    a.seq = 99;
    evs.push(a);
    let m = build(&evs);
    assert!(
        m.iter().all(|x| x.text_at("role") != "assistant" || x.text_at("content") != "子代理输出"),
        "thread=agent:N 不应进主 context"
    );
}

#[test]
fn truncate_does_not_split_pair() {
    let mut kinds = Vec::new();
    for _ in 0..52 {
        kinds.push("user");
        kinds.push("assistant_tc");
        kinds.push("tool");
    }
    kinds.push("user");
    kinds.push("assistant");
    let m = build(&seq_events(&kinds));
    for (i, x) in m.iter().enumerate() {
        if x.text_at("role") == "tool" {
            let call_id = x.text_at("tool_call_id");
            let has_owner = m[..i].iter().rev().any(|a| {
                a.text_at("role") == "assistant" && call_ids(a).iter().any(|c| *c == call_id)
            });
            assert!(has_owner, "孤儿 tool_result（call_id={call_id}），配对不变量被破坏");
        }
    }
}

#[test]
fn drop_trailing_orphan_toolcall() {
    let m = build(&seq_events(&["user", "assistant_tc"]));
    assert!(m.iter().all(|x| !has_calls(x)), "末尾孤儿 tool_call assistant 必须丢弃");
}

#[test]
fn mid_orphan_tool_call_stripped() {
    let mk = |seq: u64, kind: &str| -> HistoryEvent {
        let mut e = match kind {
            "user" => HistoryEvent::user(seq, "main", &format!("u{seq}"), &vec![]),
            "assistant" => HistoryEvent::assistant(seq, "main", &format!("a{seq}"), "", vec![]),
            "assistant_orphan" => HistoryEvent::assistant(seq, "main", "", "", vec![tc("orphan1")]),
            "assistant_ok" => HistoryEvent::assistant(seq, "main", "", "", vec![tc("ok1")]),
            _ => HistoryEvent::tool_result(seq, "main", "bash", "ok", "ok1"),
        };
        e.seq = seq;
        e
    };
    let evs = vec![
        mk(1, "user"),
        mk(2, "assistant_orphan"),
        mk(3, "assistant"),
        mk(4, "user"),
        mk(5, "assistant_ok"),
        mk(6, "tool"),
        mk(7, "assistant"),
    ];
    let m = build(&evs);
    let with_tc: Vec<&Json> = m.iter().filter(|x| has_calls(x)).collect();
    assert_eq!(with_tc.len(), 1, "只应剩 1 个带 tool_calls 的 assistant: {m:#?}");
    assert_eq!(call_ids(with_tc[0])[0], "ok1", "孤儿 orphan1 必须被剥掉");
    for x in m.iter() {
        if x.text_at("role") == "tool" {
            assert_eq!(x.text_at("tool_call_id"), "ok1", "只应有配对 call 的 tool 消息");
        }
    }
}

#[test]
fn orphan_assistant_all_stripped_becomes_plain() {
    let mut evs = seq_events(&["user", "assistant_tc"]);
    let mut more = seq_events(&["user", "assistant"]);
    evs.append(&mut more);
    let m = build(&evs);
    assert!(
        m.iter().all(|x| x.get("tool_calls").is_none()),
        "中间孤儿剥空后不应再有 tool_calls: {m:#?}"
    );
    for x in m.iter() {
        if x.text_at("role") == "assistant" {
            assert!(!x.get("content").unwrap().is_null(), "剥空后 content 须非 null: {x:?}");
        }
    }
}

#[test]
fn orphan_tool_message_with_empty_call_id_stripped() {
    let malformed_call = j(
        r#"{"id":"","type":"function","function":{"name":"","arguments":"{\"path\":\"render/x.png\"}"}}"#,
    );
    let mut evs = vec![
        HistoryEvent::user(1, "main", "直接display", &vec![]),
        HistoryEvent::assistant(2, "main", "", "", vec![malformed_call]),
        HistoryEvent::tool_result(3, "main", "", "未知工具: ", ""),
    ];
    let mut good = seq_events(&["assistant_tc", "tool", "assistant"]);
    evs.append(&mut good);
    let m = build(&evs);
    assert!(
        m.iter().all(|x| x.text_at("role") != "tool" || x.text_at("tool_call_id") != ""),
        "空 call_id 的 tool 消息必须剥除: {m:#?}"
    );
    let bad = m
        .iter()
        .find(|x| x.text_at("role") == "assistant" && x.str_at("content") == Some(""))
        .unwrap();
    assert!(bad.get("tool_calls").is_none(), "空 id call 须从 assistant 剥除: {bad:?}");
    let tools = m.iter().filter(|x| x.text_at("role") == "tool").count();
    assert_eq!(tools, 1, "正常配对的 tool 消息应保留: {m:#?}");
}

#[test]
fn empty_name_call_with_answer_stripped() {
    let malformed_call = j(
        r#"{"id":"call_synth_0","type":"function","function":{"name":"","arguments":"{\"path\":\"render/x.png\"}"}}"#,
    );
    let mut evs = vec![
        HistoryEvent::user(1, "main", "https://github.com/...", &vec![]),
        HistoryEvent::assistant(2, "main", "", "", vec![malformed_call]),
        HistoryEvent::tool_result(
            3,
            "main",
            "",
            "工具名为空（上一条 tool_call 是畸形输出…）",
            "call_synth_0",
        ),
    ];
    let mut good = seq_events(&["assistant_tc", "tool", "assistant"]);
    evs.append(&mut good);
    let m = build(&evs);
    assert!(
        m.iter().all(|x| x.text_at("role") != "tool" || x.text_at("tool_call_id") != "call_synth_0"),
        "畸形 call 的 tool_result 须剥除: {m:#?}"
    );
    let bad = m
        .iter()
        .find(|x| x.text_at("role") == "assistant" && x.str_at("content") == Some(""))
        .unwrap();
    assert!(bad.get("tool_calls").is_none(), "空 name call 须从 assistant 剥除: {bad:?}");
    let tools = m.iter().filter(|x| x.text_at("role") == "tool").count();
    assert_eq!(tools, 1, "正常配对应保留: {m:#?}");
}

#[test]
fn paired_tool_calls_untouched() {
    let m = build(&seq_events(&["user", "assistant_tc", "tool", "assistant"]));
    let with_tc: Vec<&Json> = m.iter().filter(|x| has_calls(x)).collect();
    assert_eq!(with_tc.len(), 1);
    assert_eq!(call_ids(with_tc[0])[0], "c1");
    let tools = m.iter().filter(|x| x.text_at("role") == "tool").count();
    assert_eq!(tools, 1, "配对的 tool 消息必须保留");
}

#[test]
fn restart_rebuild_no_marker_keeps_all_up_to_cap() {
    let mut kinds = Vec::new();
    for _ in 0..3 {
        kinds.push("user");
        kinds.push("assistant");
    }
    assert_eq!(users(&build(&seq_events(&kinds))), 3);
}

#[test]
fn build_messages_no_cap_after_dream_marker() {
    let mut kinds = vec!["marker_dream"];
    for _ in 0..10 {
        kinds.push("user");
        kinds.push("assistant");
    }
    let m = build_messages(&seq_events(&kinds), &pinned("S"), 3, &vec![], false);
    assert_eq!(users(&m), 10, "dream marker 当 cut 后,10 个 user 全进,不被 cap=3 砍");
}

#[test]
fn pinned_prepended_single_system_message() {
    let p = load_pinned("SYS", Some("灵魂".into()), Some("规范".into()), Some("记忆".into()));
    let m = build_messages(&seq_events(&["user"]), &p, 50, &vec![], false);
    assert_eq!(m[0].text_at("role"), "system");
    let c = m[0].text_at("content");
    assert!(
        c.contains("SYS") && c.contains("灵魂") && c.contains("规范") && c.contains("记忆"),
        "pinned 4 块应合并进首条 system：{c}"
    );
}

#[test]
fn system_prompt_carries_posix_sh_hint() {
    for windows in [false, true] {
        let m = pinned("SYS").to_messages(windows);
        let c = m[0].text_at("content");
        assert!(c.contains("POSIX sh"), "system 应注入 sh 环境提示: {c}");
        assert!(c.contains("SYS"), "原 system_prompt 应保留: {c}");
    }
}

#[test]
fn tail_events_survive_marker_in_next_build_messages() {
    let mut evs = seq_events(&["user", "user"]);
    let mut m = HistoryEvent::marker(2000, "dream", 2);
    m.seq = 5;
    evs.push(m);
    let mut t1 = HistoryEvent::user(3000, "main", "tail 消息 1", &vec![]);
    t1.seq = 3;
    let mut t2 = HistoryEvent::user(4000, "main", "tail 消息 2", &vec![]);
    t2.seq = 4;
    evs.push(t1);
    evs.push(t2);
    let m_out = build(&evs);
    let texts: Vec<&str> =
        m_out.iter().filter(|x| x.text_at("role") == "user").map(|x| x.text_at("content")).collect();
    assert!(texts.iter().any(|c| c.contains("tail 消息 1")), "tail 事件 seq=3 应保留可见: {texts:?}");
    assert!(texts.iter().any(|c| c.contains("tail 消息 2")), "tail 事件 seq=4 应保留可见: {texts:?}");
}

#[test]
fn dream_during_events_survive_after_marker() {
    let mut evs = seq_events(&["user"]);
    let mut m = HistoryEvent::marker(1000, "dream", 1);
    m.seq = 1;
    evs.push(m);
    let mut after = HistoryEvent::user(3000, "main", "marker 后新消息", &vec![]);
    after.seq = 5;
    evs.push(after);
    assert!(
        build(&evs).iter().any(|x| x.text_at("content").contains("marker 后新消息")),
        "marker 后新事件应可见（认 until_seq）"
    );
}

#[test]
fn marker_until_seq_equal_marker_seq_legacy_unchanged() {
    let mut evs = seq_events(&["user", "user"]);
    let mut m = HistoryEvent::marker(2000, "reset", 2);
    m.seq = 2;
    evs.push(m);
    let mut after = HistoryEvent::user(3000, "main", "新", &vec![]);
    after.seq = 3;
    evs.push(after);
    assert_eq!(users(&build(&evs)), 1, "until_seq==marker.seq 时行为不变");
    assert_eq!(last_marker_until_seq(&evs), Some(2));
}

#[test]
fn with_prefix_prepends_when_non_empty() {
    assert_eq!(with_prefix("P", "hi"), "<prefix>P</prefix>hi");
}

#[test]
fn with_prefix_passthrough_when_empty() {
    assert_eq!(with_prefix("", "hi"), "hi");
    assert_eq!(with_prefix("   ", "hi"), "hi");
}

#[test]
fn user_message_gets_prefix_from_data() {
    let mut ev = HistoryEvent::user(1000, "main", "原文", &vec![]);
    ev.seq = 0;
    ev.data.insert("prefix", Json::str("PFX"));
    assert_eq!(message(&ev).text_at("content"), "<prefix>PFX</prefix>原文");
}

#[test]
fn user_message_no_prefix_field_means_no_prepend() {
    let mut ev = HistoryEvent::user(1000, "main", "原文", &vec![]);
    ev.seq = 0;
    assert_eq!(
        message(&ev).text_at("content"),
        "原文",
        "无 prefix 字段 → 行为同前（回归保护）"
    );
}

#[test]
fn subagent_result_gets_prefix_from_data() {
    let mut ev = HistoryEvent::subagent_result(1000, "1", "完成", "thread=agent:1", true);
    ev.seq = 0;
    ev.data.insert("prefix", Json::str("PFX"));
    let m = message(&ev);
    assert_eq!(m.text_at("role"), "user");
    assert!(
        m.text_at("content").starts_with("<prefix>PFX</prefix>[子代理"),
        "subagent_result content 前应拼 prefix: {}",
        m.text_at("content")
    );
}

#[test]
fn subagent_result_ok_false_renders_failed() {
    let mut ev = HistoryEvent::subagent_result(
        1000,
        "7",
        "失败原因：连接超时\n部分产出：已扫描 80%",
        "thread=agent:7",
        false,
    );
    ev.seq = 0;
    let m = message(&ev);
    let c = m.text_at("content");
    assert!(c.contains("[子代理 #7 失败]"), "失败事件应渲染「失败」: {c}");
    assert!(c.contains("失败原因：连接超时"), "原因应随 summary 渲染: {c}");
    assert!(c.contains("部分产出：已扫描 80%"), "partial 应随 summary 渲染: {c}");
}

#[test]
fn subagent_result_missing_ok_defaults_completed() {
    let mut ev = HistoryEvent::subagent_result(1000, "1", "老事件", "thread=agent:1", true);
    ev.seq = 0;
    ev.data.remove("ok");
    let m = message(&ev);
    let c = m.text_at("content");
    assert!(c.contains("[子代理 #1 完成]"), "缺 ok 应默认完成: {c}");
}

#[test]
fn subagent_result_render_cap_truncates_only_view() {
    let big = "x".repeat(SUBAGENT_SUMMARY_RENDER_CAP + 4096);
    let mut ev = HistoryEvent::subagent_result(1000, "2", &big, "thread=agent:2", true);
    ev.seq = 0;
    let m = message(&ev);
    let c = m.text_at("content");
    assert!(
        c.contains("已截断，完整产出可用 subagent status 查看"),
        "超限应带显式标记: …{}",
        &c[c.len() - 120..]
    );
    assert!(c.len() < SUBAGENT_SUMMARY_RENDER_CAP + 256, "渲染视图应有界");
    assert_eq!(ev.text_at("summary").len(), big.len(), "落盘真身必须保持全文");
    let small = HistoryEvent::subagent_result(1000, "3", "正常产出", "thread=agent:3", true);
    let m2 = message(&small);
    let c2 = m2.text_at("content");
    assert!(c2.contains("[子代理 #3 完成] 正常产出"), "限额内应全文且带完成态: {c2}");
    assert!(!c2.contains("已截断"));
}

#[test]
fn external_gets_prefix_from_data() {
    let mut ev = HistoryEvent::external(1000, "拖入", "x.pdf", None);
    ev.seq = 0;
    ev.data.insert("prefix", Json::str("PFX"));
    let m = message(&ev);
    assert!(
        m.text_at("content").starts_with("<prefix>PFX</prefix>[外部]"),
        "external content 前应拼 prefix: {}",
        m.text_at("content")
    );
}

#[test]
fn a_trailing_call_is_dropped_as_a_whole() {
    let mut u = HistoryEvent::user(1000, "main", "u0", &vec![]);
    u.seq = 0;
    let mut a = HistoryEvent::assistant(2000, "main", "", "", vec![tc("c1")]);
    a.seq = 1;
    let m = build_messages(&vec![u, a], &pinned("S"), 50, &vec![], false);
    assert_eq!(m.len(), 2);
    assert_eq!(m[0].text_at("role"), "system");
    assert_eq!(m[1].text_at("role"), "user");
    assert_eq!(m[1].text_at("content"), "u0");
}

#[test]
fn nothing_is_left_of_a_call_that_comes_to_the_end() {
    let mut evs = vec![
        HistoryEvent::user(1, "main", "u", &vec![]),
        HistoryEvent::tool_result(2, "main", "bash", "early", "c1"),
        HistoryEvent::assistant(3, "main", "", "", vec![tc("c1")]),
        HistoryEvent::tool_result(4, "main", "bash", "stray", "x"),
    ];
    for (i, e) in evs.iter_mut().enumerate() {
        e.seq = i as u64;
    }
    let m = build_messages(&evs, &pinned("S"), 50, &vec![], false);
    assert_eq!(m.len(), 2);
    assert_eq!(m[1].text_at("content"), "u");
}

#[test]
fn what_was_said_behind_the_cut_is_all_there_in_order() {
    let mut evs = vec![
        HistoryEvent::user(1, "main", "old", &vec![]),
        HistoryEvent::marker(2, "dream", 1),
        HistoryEvent::user(3, "main", "a", &vec![]),
        HistoryEvent::assistant(4, "main", "no", "", vec![]),
        HistoryEvent::external(5, "b", "", None),
        HistoryEvent::user(6, "agent:x", "elsewhere", &vec![]),
        HistoryEvent::user(7, "main", "c", &vec![]),
    ];
    for (i, e) in evs.iter_mut().enumerate() {
        e.seq = i as u64;
    }
    for cap in [0, 50] {
        let m = build_messages(&evs, &pinned("S"), cap, &vec![], false);
        let said: Vec<&str> =
            m.iter().filter(|x| x.is_at("role", "user")).map(|x| x.text_at("content")).collect();
        assert_eq!(said.len(), 3);
        assert_eq!(said[0], "a");
        assert!(said[1].ends_with("b"), "{}", said[1]);
        assert_eq!(said[2], "c");
    }
}

#[test]
fn stripping_keeps_other_messages_and_their_order() {
    let mut v = vec![
        j(r#"{"role":"system","content":"s"}"#),
        j(r#"{"role":"tool","tool_call_id":"x","content":"stray"}"#),
        j(r#"{"role":"user","content":"a"}"#),
        j(r#"{"role":"assistant","content":null,"tool_calls":[{"id":"y","function":{"name":"bash","arguments":"{}"}}]}"#),
        j(r#"{"note":1}"#),
        j(r#"{"role":"user","content":"b"}"#),
    ];
    strip_unpaired_tool_calls(&mut v);
    let roles: Vec<&str> = v.iter().map(|m| m.text_at("role")).collect();
    assert_eq!(roles, ["system", "user", "assistant", "", "user"]);
    assert!(v[2].array_at("tool_calls").is_none());
    assert_eq!(v[2].str_at("content"), Some(""));
    assert_eq!(v[1].text_at("content"), "a");
    assert_eq!(v[4].text_at("content"), "b");
}
