use ovoice::files::AttachmentRef;
use ovoice::http::{
    backoff_delay, classify_http_error, retry_after_secs, HttpErrClass, HttpRound, Next, Outcome,
    MAX_HTTP_ATTEMPTS,
};
use ovoice::json::Json;
use ovoice::llm::{
    build_body, cap_doc_text, expand_messages_for_send, is_inline_text_kind, media_paths,
    user_message_with_attachments, MediaRead, DOC_TEXT_MAX,
};
use ovoice::purify::{
    apply_quarantine, collect_stubbed_hashes, stub_tool_results, text_hash, Quarantine,
    TOOL_CALL_ARGS_STUB, TOOL_RESULT_STUB,
};
use ovoice::sse::{
    consume_sse, parse_data_line, Delta, FinishReason, SseStream, ToolCallAccum,
};
use ovoice::thinking::{iter_signature, normalize_args, strip_think, strip_thinking_blocks};
use ovoice::wire::parse_json;

fn j(text: &str) -> Json {
    parse_json(text).unwrap()
}

fn part<'a>(m: &'a Json, key: &str, i: usize) -> &'a Json {
    &m.array_at(key).unwrap()[i]
}

fn args<'a>(call: &'a Json) -> &'a str {
    call.get("function").unwrap().text_at("arguments")
}

#[test]
fn removes_think_block() {
    let s = "<think这是推理过程，不该被朗读</think\n\n这是最终回答。";
    assert_eq!(strip_think(s), "这是最终回答。");
}

#[test]
fn no_block_unchanged() {
    assert_eq!(strip_think("一段普通文本"), "一段普通文本");
}

#[test]
fn unclosed_drops_tail() {
    assert_eq!(strip_think("保留这部分<think后面没闭合"), "保留这部分");
}

#[test]
fn multiple_blocks() {
    let s = "甲<thinkx</think乙<thinky</think丙";
    assert_eq!(strip_think(s), "甲乙丙");
}

#[test]
fn strip_thinking_removes_think_block() {
    let (c, t) = strip_thinking_blocks("…隐藏的推理…这是回答");
    assert_eq!(c, "这是回答");
    assert_eq!(t, "隐藏的推理");
}

#[test]
fn strip_thinking_drops_tags_of_all_thoughts() {
    let (c, t) = strip_thinking_blocks("…先<b>想</b>一下…这是回答");
    assert_eq!(c, "这是回答");
    assert_eq!(t, "先想一下");
}

#[test]
fn strip_thinking_removes_details_thinking() {
    let s = "<details><summary>💭 思考过程</summary>用户要验证中文不乱码。简单单步调用。</details>答案是：用 dir。";
    let (c, t) = strip_thinking_blocks(s);
    assert_eq!(c, "答案是：用 dir。");
    assert!(t.contains("思考过程"), "thinking routed: {t}");
    assert!(t.contains("用户要验证"), "body kept in thinking: {t}");
}

#[test]
fn strip_thinking_keeps_non_thinking_details() {
    let (c, t) =
        strip_thinking_blocks("<details><summary>参考资料</summary>一些资料</details>答案");
    assert_eq!(c, "<details><summary>参考资料</summary>一些资料</details>答案");
    assert_eq!(t, "");
}

#[test]
fn accum_synthesizes_id_and_drops_empty_name() {
    let mut a = ToolCallAccum::new();
    a.push(0, None, Some("display".into()), Some("{}".into()));
    a.push(1, Some("".into()), Some("".into()), Some("{}".into()));
    a.push(2, Some("call_x".into()), Some("bash".into()), Some("{}".into()));
    let v = a.finalize();
    assert_eq!(v.len(), 2, "空 name 畸形 call 须丢弃: {v:?}");
    assert!(v[0].text_at("id").starts_with("call_synth_0"), "缺 id 须合成: {:?}", v[0]);
    assert_eq!(v[1].text_at("id"), "call_x", "合法 id 原样保留");
}

fn schemas(n: usize) -> Vec<Json> {
    (0..n)
        .map(|i| j(&format!(r#"{{"type":"function","function":{{"name":"t{i}"}}}}"#)))
        .collect()
}

#[test]
fn build_body_has_tools_and_reasoning_split() {
    let msgs = vec![j(r#"{"role":"user","content":"hi"}"#)];
    let body = build_body(&msgs, &vec![], "MiniMax-M3", &None, &schemas(25)).unwrap();
    assert_eq!(body.bool_at("reasoning_split"), Some(true));
    assert_eq!(body.bool_at("stream"), Some(true));
    assert_eq!(body.text_at("tool_choice"), "auto");
    assert_eq!(body.array_at("tools").unwrap().len(), 25);
    assert_eq!(body.text_at("model"), "MiniMax-M3");
}

#[test]
fn build_body_uses_active_tools_when_set() {
    let msgs = vec![j(r#"{"role":"user","content":"hi"}"#)];
    let active = Some(vec![j(r#"{"type":"function","function":{"name":"read"}}"#)]);
    let body = build_body(&msgs, &vec![], "M", &active, &schemas(25)).unwrap();
    let tools = body.array_at("tools").unwrap();
    assert_eq!(tools.len(), 1);
    assert_eq!(tools[0].get("function").unwrap().text_at("name"), "read");
}

#[test]
fn build_body_defaults_to_all_schemas_when_none() {
    let msgs = vec![j(r#"{"role":"user","content":"hi"}"#)];
    let all = schemas(25);
    let body = build_body(&msgs, &vec![], "M", &None, &all).unwrap();
    assert_eq!(body.array_at("tools").unwrap().len(), all.len());
}

#[test]
fn normalize_args_collapses_digit_runs() {
    assert_eq!(
        normalize_args(r#"mem history --seq 10798 | tail -10"#),
        r#"mem history --seq # | tail -#"#
    );
    assert_eq!(normalize_args("echo hi"), "echo hi");
    assert_eq!(normalize_args("v1.2.3"), "v#.#.#");
}

#[test]
fn iter_signature_order_invariant_and_sensitive() {
    let tc = |name: &str, args: &str| {
        j(&format!(
            r#"{{"id":"c","type":"function","function":{{"name":"{name}","arguments":"{args}"}}}}"#
        ))
    };
    assert_eq!(
        iter_signature(&vec![tc("bash", "--seq 1")]),
        iter_signature(&vec![tc("bash", "--seq 999")])
    );
    assert_ne!(
        iter_signature(&vec![tc("bash", "echo a")]),
        iter_signature(&vec![tc("ls", "echo a")])
    );
    assert_ne!(
        iter_signature(&vec![tc("bash", "echo a")]),
        iter_signature(&vec![tc("bash", "echo b")])
    );
    assert_eq!(
        iter_signature(&vec![tc("bash", "a"), tc("ls", "b")]),
        iter_signature(&vec![tc("ls", "b"), tc("bash", "a")])
    );
}

fn failed(status: u16, body: &str) -> String {
    match classify_http_error(status, body) {
        HttpErrClass::Fail(m) => m,
        other => panic!("{other:?}"),
    }
}

#[test]
fn classify_retries_transient_errors() {
    for s in [408, 429, 500, 502, 503, 504, 529] {
        match classify_http_error(s, "{}") {
            HttpErrClass::Retry { .. } => {}
            other => panic!("status {s} 应可重试，得到 {other:?}"),
        }
    }
}

#[test]
fn classify_fail_4xx_with_chinese_hint() {
    assert!(failed(401, "").contains("API Key"));
    assert!(failed(404, "").contains("模型"));
    assert!(failed(413, "").contains("过大"));
    assert!(failed(403, "").contains("权限"));
}

#[test]
fn classify_400_includes_body_snippet() {
    let m = failed(400, "bad model name");
    assert!(m.contains("400") && m.contains("bad model name"), "400 应带 body 片段: {m}");
}

#[test]
fn classify_422_sensitive_gives_risk_control_hint() {
    let body = r#"{"error":{"message":"input new_sensitive (1026)","http_code":"422"}}"#;
    let m = failed(422, body);
    assert!(m.contains("风控"), "应报风控拦截: {m}");
    assert!(m.contains("换措辞"), "应给恢复路径: {m}");
    assert!(!m.contains("请求参数错误"), "不该误导为参数错误: {m}");
}

#[test]
fn classify_422_non_sensitive_keeps_param_error() {
    let m = failed(422, "some other validation");
    assert!(
        m.contains("422") && m.contains("some other validation"),
        "非 sensitive 422 保持原格式: {m}"
    );
}

#[test]
fn classify_unknown_status_keeps_legacy_format() {
    let m = failed(418, "teapot");
    assert!(m.contains("418") && m.contains("teapot"), "未知 status 保留旧格式: {m}");
}

fn tool_msg(id: &str, content: &str) -> Json {
    j(r#"{"role":"tool"}"#)
        .with("tool_call_id", Json::str(id))
        .with("content", Json::str(content))
}

#[test]
fn stub_level0_returns_original() {
    let msgs = vec![j(r#"{"role":"user","content":"q"}"#), tool_msg("c1", "结果A")];
    let out = stub_tool_results(&msgs, 0);
    assert_eq!(out[1].text_at("content"), "结果A", "level 0 不净化");
}

#[test]
fn stub_level1_replaces_newer_half_only() {
    let msgs = vec![
        j(r#"{"role":"user","content":"q"}"#),
        tool_msg("c1", "旧结果1"),
        tool_msg("c2", "旧结果2"),
        tool_msg("c3", "新结果3"),
        tool_msg("c4", "新结果4"),
    ];
    let out = stub_tool_results(&msgs, 1);
    assert_eq!(out[1].text_at("content"), "旧结果1", "前半保留");
    assert_eq!(out[2].text_at("content"), "旧结果2", "前半保留");
    assert_eq!(out[3].text_at("content"), TOOL_RESULT_STUB, "后半净化");
    assert_eq!(out[4].text_at("content"), TOOL_RESULT_STUB, "后半净化");
    assert_eq!(out[3].text_at("role"), "tool");
    assert_eq!(out[3].text_at("tool_call_id"), "c3");
}

#[test]
fn stub_level2_replaces_all_and_input_untouched() {
    let msgs = vec![tool_msg("c1", "A"), tool_msg("c2", "B")];
    let out = stub_tool_results(&msgs, 2);
    assert!(out.iter().all(|m| m.text_at("content") == TOOL_RESULT_STUB), "全部净化");
    assert_eq!(msgs[0].text_at("content"), "A");
    assert_eq!(msgs[1].text_at("content"), "B");
}

const SEARCH: &str = r#"{"role":"assistant","content":null,"tool_calls":[
    {"id":"c1","type":"function","function":{"name":"bash","arguments":"{\"command\":\"mmx search 公网暴露 鉴权密码\"}"}}
]}"#;

#[test]
fn stub_level3_also_stubs_tool_call_args() {
    let msgs =
        vec![j(r#"{"role":"user","content":"q"}"#), j(SEARCH), tool_msg("c1", "结果")];
    let out = stub_tool_results(&msgs, 3);
    let call = part(&out[1], "tool_calls", 0);
    assert_eq!(args(call), TOOL_CALL_ARGS_STUB, "参数须换桩: {}", args(call));
    assert_eq!(out[2].text_at("content"), TOOL_RESULT_STUB, "结果也须桩");
    assert_eq!(call.get("function").unwrap().text_at("name"), "bash");
    assert_eq!(call.text_at("id"), "c1");
}

#[test]
fn quarantine_roundtrip_stubs_on_next_send() {
    let poisoned = "搜索结果：公网暴露 鉴权密码的最佳实践……";
    let clean = "正常工具输出";
    let mut q = Quarantine { hashes: vec![] };
    assert!(q.add(&vec![text_hash(poisoned)]));
    let saved = q.to_text();
    assert!(saved.contains(&text_hash(poisoned).to_string()), "落盘: {saved}");
    let mut q = Quarantine { hashes: vec![] };
    assert!(q.load(&saved));
    let msgs = vec![
        j(r#"{"role":"user","content":"q"}"#),
        tool_msg("c1", poisoned),
        tool_msg("c2", clean),
        j(r#"{"role":"assistant","content":null,"tool_calls":[
            {"id":"c3","type":"function","function":{"name":"bash","arguments":"{\"command\":\"mmx search 公网暴露\"}"}}
        ]}"#),
    ];
    q.add(&vec![text_hash("{\"command\":\"mmx search 公网暴露\"}")]);
    let (out, hits) = apply_quarantine(&msgs, &q);
    assert_eq!(out[1].text_at("content"), TOOL_RESULT_STUB, "命中名单的污染文本换桩");
    assert_eq!(out[2].text_at("content"), clean, "干净文本不动");
    assert_eq!(args(part(&out[3], "tool_calls", 0)), TOOL_CALL_ARGS_STUB, "命中名单的参数换桩");
    assert_eq!(hits.len(), 2, "2 处命中");
    assert_eq!(msgs[1].text_at("content"), poisoned);
    assert!(!q.add(&vec![text_hash(poisoned)]), "名单去重");
}

#[test]
fn collect_stubbed_hashes_matches_stub_range() {
    let msgs = vec![
        tool_msg("c1", "A"),
        tool_msg("c2", "B"),
        j(r#"{"role":"assistant","content":null,"tool_calls":[
            {"id":"c3","type":"function","function":{"name":"bash","arguments":"CMD"}}
        ]}"#),
    ];
    let l1 = collect_stubbed_hashes(&msgs, 1);
    assert!(l1.contains(&text_hash("B")) && !l1.contains(&text_hash("A")), "level1 只含后半");
    let l2 = collect_stubbed_hashes(&msgs, 2);
    assert!(l2.contains(&text_hash("A")) && l2.contains(&text_hash("B")));
    let l3 = collect_stubbed_hashes(&msgs, 3);
    assert!(l3.contains(&text_hash("CMD")), "level3 含参数");
}

#[test]
fn stub_level4_truncates_to_recent_two_turns() {
    let msgs = vec![
        j(r#"{"role":"system","content":"SYS"}"#),
        j(r#"{"role":"user","content":"旧问题1"}"#),
        j(r#"{"role":"assistant","content":null,"tool_calls":[
            {"id":"old1","type":"function","function":{"name":"bash","arguments":"{}"}}
        ]}"#),
        tool_msg("old1", "旧结果"),
        j(r#"{"role":"assistant","content":"旧答1"}"#),
        j(r#"{"role":"user","content":"新问题1"}"#),
        j(r#"{"role":"assistant","content":"新答1"}"#),
        j(r#"{"role":"user","content":"新问题2"}"#),
        j(r#"{"role":"assistant","content":"新答2"}"#),
    ];
    let out = stub_tool_results(&msgs, 4);
    assert_eq!(out[0].text_at("role"), "system");
    let users: Vec<&str> =
        out.iter().filter(|m| m.text_at("role") == "user").map(|m| m.text_at("content")).collect();
    assert_eq!(users, vec!["新问题1", "新问题2"], "只保最近 2 turn: {users:?}");
    for m in out.iter() {
        if m.text_at("role") == "tool" {
            let id = m.text_at("tool_call_id");
            let has_owner = out.iter().any(|a| {
                a.array_at("tool_calls")
                    .map(|arr| arr.iter().any(|c| c.text_at("id") == id))
                    .unwrap_or(false)
            });
            assert!(has_owner, "level 4 截断后不得有孤儿 tool (id={id})");
        }
    }
}

#[test]
fn backoff_delay_grows_then_caps_at_8s() {
    assert_eq!(backoff_delay(1), 1);
    assert_eq!(backoff_delay(2), 2);
    assert_eq!(backoff_delay(3), 4);
    assert_eq!(backoff_delay(4), 8);
    assert_eq!(backoff_delay(5), 8, "封顶 8s");
    let mut prev = 0;
    for a in 1..=6 {
        let d = backoff_delay(a);
        assert!(d >= prev, "attempt {a} 退避 {d:?} 小于前一次 {prev:?}");
        prev = d;
    }
}

#[test]
fn retry_after_parses_seconds() {
    assert_eq!(retry_after_secs(Some("5")), Some(5));
}

#[test]
fn retry_after_ignores_http_date() {
    assert_eq!(
        retry_after_secs(Some("Wed, 21 Oct 2026 07:28:00 GMT")),
        None,
        "HTTP-date 不解析，回落 backoff"
    );
}

#[test]
fn retry_after_missing_returns_none() {
    assert_eq!(retry_after_secs(None), None);
}

fn refused(status: u16, body: &str) -> Outcome {
    Outcome::Refused {
        status,
        status_line: format!("{status}"),
        body: body.into(),
        retry_after: None,
    }
}

#[test]
fn a_filtered_request_is_sent_with_less_and_less() {
    let msgs = vec![j(r#"{"role":"user","content":"q"}"#), j(SEARCH), tool_msg("c1", "结果")];
    let none = Quarantine { hashes: vec![] };
    let mut h = HttpRound::new(&msgs, &none);
    let filter = refused(422, "input new_sensitive (1026)");
    for level in 1..=4 {
        assert!(h.answerable(&filter));
        assert!(matches!(h.step(&filter), Next::Again { .. }));
        assert_eq!(h.level, level);
    }
    assert!(matches!(h.step(&filter), Next::Fail(_)));
    let mut h = HttpRound::new(&msgs, &none);
    assert!(matches!(h.step(&filter), Next::Again { .. }));
    match h.step(&Outcome::Success) {
        Next::Listen { hashes } => assert_eq!(hashes, vec![text_hash("结果")]),
        other => panic!("{other:?}"),
    }
}

#[test]
fn a_service_that_is_down_is_asked_again_until_it_is_enough() {
    let mut h =
        HttpRound::new(&vec![j(r#"{"role":"user","content":"q"}"#)], &Quarantine { hashes: vec![] });
    for attempt in 1..MAX_HTTP_ATTEMPTS {
        match h.step(&Outcome::NetworkError("x".into())) {
            Next::Again { wait_secs, .. } => assert_eq!(wait_secs, backoff_delay(attempt)),
            other => panic!("{other:?}"),
        }
    }
    assert!(matches!(h.step(&Outcome::NetworkError("x".into())), Next::Fail(_)));
    let mut h =
        HttpRound::new(&vec![j(r#"{"role":"user","content":"q"}"#)], &Quarantine { hashes: vec![] });
    assert!(matches!(h.step(&refused(401, "")), Next::Fail(_)));
    match h.step(&refused(503, "")) {
        Next::Again { .. } => {}
        other => panic!("{other:?}"),
    }
    assert_eq!(h.outgoing().len(), 1);
}

#[test]
fn parse_data_line_handles_spaces() {
    assert_eq!(parse_data_line("data: {\"a\":1}").as_deref(), Some("{\"a\":1}"));
    assert_eq!(parse_data_line("data:{\"a\":1}").as_deref(), Some("{\"a\":1}"));
    assert_eq!(parse_data_line(": ping"), None);
    assert_eq!(parse_data_line("event: x"), None);
}

#[test]
fn toolcall_accum_single_chunk() {
    let mut a = ToolCallAccum::new();
    a.push(0, Some("c1".into()), Some("bash".into()), Some("{\"command\":\"echo\"}".into()));
    let v = a.finalize();
    assert_eq!(v.len(), 1);
    assert_eq!(v[0].text_at("id"), "c1");
    assert_eq!(v[0].get("function").unwrap().text_at("name"), "bash");
    assert_eq!(args(&v[0]), "{\"command\":\"echo\"}");
}

#[test]
fn toolcall_accum_multi_chunk_args() {
    let mut a = ToolCallAccum::new();
    a.push(0, Some("c1".into()), Some("bash".into()), Some("{\"comm".into()));
    a.push(0, None, None, Some("and\":\"hi\"}".into()));
    let v = a.finalize();
    assert_eq!(args(&v[0]), "{\"command\":\"hi\"}");
}

#[test]
fn toolcall_accum_multiple_indexed() {
    let mut a = ToolCallAccum::new();
    a.push(1, Some("c2".into()), Some("read".into()), Some("{}".into()));
    a.push(0, Some("c1".into()), Some("bash".into()), Some("{}".into()));
    let v = a.finalize();
    assert_eq!(v.len(), 2);
    assert_eq!(v[0].text_at("id"), "c1");
    assert_eq!(v[1].text_at("id"), "c2");
}

fn sse_line(delta: &str, finish: Option<&str>) -> String {
    match finish {
        Some(f) => format!("data: {{\"choices\":[{{\"finish_reason\":\"{f}\"}}]}}\n"),
        None => format!("data: {{\"choices\":[{{\"delta\":{delta}}}]}}\n"),
    }
}

fn contents(v: &Vec<Delta>) -> String {
    v.iter()
        .map(|d| match d {
            Delta::Content(s) => s.as_str(),
            _ => "",
        })
        .collect()
}

fn thoughts(v: &Vec<Delta>) -> String {
    v.iter()
        .map(|d| match d {
            Delta::Thinking(s) => s.as_str(),
            _ => "",
        })
        .collect()
}

#[test]
fn consume_sse_content_and_reasoning() {
    let sse = format!(
        "{}{}{}{}{}",
        sse_line(r#"{"reasoning_details":[{"text":"想"}]}"#, None),
        sse_line(r#"{"content":"你好"}"#, None),
        sse_line(r#"{"content":"世界"}"#, None),
        sse_line("{}", Some("stop")),
        "data: [DONE]\n",
    );
    let (r, shown) = consume_sse(&vec![sse.into_bytes()]);
    assert_eq!(r.content, "你好世界");
    assert_eq!(r.finish, FinishReason::Stop);
    assert!(r.tool_calls.is_empty());
    assert_eq!(contents(&shown), "你好世界");
    assert!(thoughts(&shown).contains("想"));
}

#[test]
fn consume_sse_tool_calls_by_index() {
    let sse = format!(
        "{}{}{}{}",
        sse_line(
            r#"{"tool_calls":[{"index":0,"id":"c1","function":{"name":"bash","arguments":"{\"comm"}}]}"#,
            None
        ),
        sse_line(
            r#"{"tool_calls":[{"index":0,"function":{"arguments":"and\":\"echo\"}"}}]}"#,
            None
        ),
        sse_line("{}", Some("tool_calls")),
        "data: [DONE]\n",
    );
    let (r, _) = consume_sse(&vec![sse.into_bytes()]);
    assert_eq!(r.finish, FinishReason::ToolCalls);
    assert_eq!(r.tool_calls.len(), 1);
    assert_eq!(args(&r.tool_calls[0]), "{\"command\":\"echo\"}");
    assert!(r.assistant_message.get("content").unwrap().is_null());
}

#[test]
fn consume_sse_skips_bad_lines() {
    let sse = ": ping\n\nevent: x\n\ndata: not-json\n\ndata: {\"choices\":[{\"delta\":{\"content\":\"ok\"}}]}\ndata: {\"choices\":[{\"finish_reason\":\"stop\"}]}\ndata: [DONE]\n";
    let (r, _) = consume_sse(&vec![sse.as_bytes().to_vec()]);
    assert_eq!(r.content, "ok");
}

#[test]
fn where_a_stream_is_cut_does_not_matter() {
    let sse = format!(
        "{}{}",
        sse_line(r#"{"content":"ab"}"#, None),
        sse_line(r#"{"content":"cd"}"#, None)
    );
    let (whole, _) = consume_sse(&vec![sse.clone().into_bytes()]);
    let pieces: Vec<Vec<u8>> = sse.bytes().map(|b| vec![b]).collect();
    let (cut, _) = consume_sse(&pieces);
    assert_eq!(whole.content, "abcd");
    assert_eq!(cut.content, "abcd");
    let mut s = SseStream::new();
    s.feed_text("data: {\"choi");
    assert!(s.heard.content.is_empty());
    s.feed_text("ces\":[{\"delta\":{\"content\":\"x\"}}]}\n");
    assert_eq!(s.heard.content, "x");
}

fn aref(path: &str, kind: &str) -> AttachmentRef {
    AttachmentRef { staged_path: path.into(), kind: kind.into() }
}

#[test]
fn user_message_image_ref_no_inline_base64() {
    let m = user_message_with_attachments("看图", &vec![aref("C:/a.png", "image")], &vec![]);
    assert_eq!(m.text_at("role"), "user");
    let content = m.array_at("content").unwrap();
    assert_eq!(content[0].text_at("type"), "text");
    assert_eq!(content[0].text_at("text"), "看图");
    assert_eq!(content[1].text_at("type"), "image_ref");
    assert_eq!(content[1].text_at("path"), "C:/a.png");
    assert!(content[1].get("url").is_none(), "历史里不内联 base64");
}

#[test]
fn user_message_binary_becomes_agent_note() {
    let m = user_message_with_attachments("", &vec![aref("C:/a.pdf", "pdf")], &vec![]);
    let content = m.array_at("content").unwrap();
    let note = content.iter().find(|p| p.text_at("type") == "text").unwrap();
    assert!(note.text_at("text").contains("a.pdf"));
    assert!(note.text_at("text").contains("read/display"));
}

#[test]
fn cap_doc_text_under_limit_unchanged() {
    let s = "x".repeat(100);
    assert_eq!(cap_doc_text(&s), s);
}

#[test]
fn cap_doc_text_over_limit_truncates_with_marker() {
    let s = "字".repeat(DOC_TEXT_MAX + 1000);
    let capped = cap_doc_text(&s);
    assert!(capped.contains("已截断"), "缺截断标记");
    assert!(capped.len() < s.len(), "截断后反而更长?");
    let head_end = capped.find("\n\n[…已截断").expect("应找到标记起点");
    assert_eq!(head_end % 3, 0, "切点不在字符边界: {head_end}");
    assert!(head_end <= DOC_TEXT_MAX);
}

#[test]
fn expand_plain_string_messages_unchanged() {
    let msgs = vec![j(r#"{"role":"user","content":"hi"}"#)];
    let out = expand_messages_for_send(&msgs, &vec![]).unwrap();
    assert_eq!(out[0].text_at("content"), "hi");
}

#[test]
fn expand_image_ref_to_data_url() {
    let msgs = vec![j(
        r#"{"role":"user","content":[{"type":"text","text":"看"},{"type":"image_ref","path":"/t/cat.png"}]}"#,
    )];
    assert_eq!(media_paths(&msgs), vec!["/t/cat.png".to_string()]);
    let out = expand_messages_for_send(&msgs, &vec![MediaRead::Bytes(b"png".to_vec())]).unwrap();
    let p = part(&out[0], "content", 1);
    assert_eq!(p.text_at("type"), "image_url");
    let url = p.get("image_url").unwrap().text_at("url");
    assert!(url.starts_with("data:image/png;base64,"), "{url}");
    assert_eq!(url, "data:image/png;base64,cG5n");
}

#[test]
fn expand_budget_guard_rejects_oversized() {
    let msgs = vec![j(r#"{"role":"user","content":[{"type":"image_ref","path":"/t/big.png"}]}"#)];
    let big = MediaRead::Bytes(vec![0u8; 59 * 1024 * 1024]);
    let err = expand_messages_for_send(&msgs, &vec![big]).err().unwrap();
    assert!(err.contains("过大"), "{err}");
    let gone = MediaRead::Failed("没有".into());
    assert!(expand_messages_for_send(&msgs, &vec![gone]).is_err());
    assert!(is_inline_text_kind("text"));
    assert!(!is_inline_text_kind("pdf"));
}

#[test]
fn a_closing_tag_goes_with_its_block() {
    assert_eq!(strip_think("<think>推理</think>回答"), "回答");
    assert_eq!(strip_think("甲<think>x</think>乙<think>y</think丙"), "甲乙丙");
}

#[test]
fn every_fault_of_the_service_is_asked_again() {
    for s in [408, 429, 500, 501, 505, 511, 598, 599] {
        assert!(matches!(classify_http_error(s, "{}"), HttpErrClass::Retry { .. }), "{s}");
    }
    for s in [400, 401, 404, 409, 499, 600] {
        assert!(matches!(classify_http_error(s, "{}"), HttpErrClass::Fail(_)), "{s}");
    }
}

#[test]
fn the_hashes_are_those_of_the_results_that_are_replaced() {
    let msgs = vec![
        j(r#"{"role":"tool","tool_call_id":"a","content":"first"}"#),
        j(r#"{"role":"tool","tool_call_id":"b","content":[1]}"#),
        j(r#"{"role":"tool","tool_call_id":"c","content":"third"}"#),
        j(r#"{"role":"tool","tool_call_id":"d","content":[2]}"#),
    ];
    assert_eq!(collect_stubbed_hashes(&msgs, 1), vec![text_hash("third")]);
    assert_eq!(collect_stubbed_hashes(&msgs[..2].to_vec(), 1), Vec::<u64>::new());
    assert_eq!(collect_stubbed_hashes(&msgs, 2), vec![text_hash("first"), text_hash("third")]);
}

#[test]
fn normalized_arguments_keep_all_but_digits() {
    assert_eq!(normalize_args("v1.2.3"), "v#.#.#");
    assert_eq!(normalize_args("a#12#b"), "a###b");
}
