use ovoice::config::{
    d_subagent_sys, d_voices, default_workspace_dir, path_in, resolve_cache_dir, resolve_workspace,
    Config,
};

const D: &str = "C:/fake/appdata";

/// A path with slashes between its names.
fn slashed(path: String) -> String {
    path.replace('\\', "/")
}

fn workspace(field: &str) -> String {
    slashed(resolve_workspace(field, D, None, Some("/home/u")))
}

fn cache(field: &str) -> String {
    slashed(resolve_cache_dir(field, D))
}

#[test]
fn default_subagent_prompt_has_pi_aligned_skeleton() {
    let p = d_subagent_sys();
    for head in ["## 结论", "## 改动与产出", "## 关键发现", "## 遗留"] {
        assert!(p.contains(head), "默认子代理提示词缺结构化骨架段 {head}");
    }
    assert!(p.contains("主代理唯一能看到的东西"), "须含受众意识声明");
    assert!(p.contains("projects/"), "须含 workspace 归档约定");
    assert!(p.contains("看不到主对话历史"), "须声明干净上下文");
}

#[test]
fn default_voices_are_chinese_and_nonempty() {
    let v = d_voices();
    assert!(!v.is_empty());
    assert!(v.iter().any(|o| o.id == "male-qn-qingse"), "默认含 male-qn-qingse");
    for o in &v {
        assert!(!o.id.starts_with("English_"), "非中文: {}", o.id);
        assert!(!o.id.starts_with("Japanese_"), "非中文: {}", o.id);
        assert!(!o.id.starts_with("Korean_"), "非中文: {}", o.id);
    }
}

#[test]
fn missing_voices_uses_default() {
    assert!(!Config::new(None).voices.is_empty());
}

#[test]
fn resolve_workspace_empty_defaults() {
    let s = workspace("");
    assert!(s.ends_with("Documents/ovoice"), "空应走默认 Documents/ovoice，got {s}");
    let s2 = workspace("   ");
    assert!(s2.ends_with("Documents/ovoice"), "空白应走默认 Documents/ovoice，got {s2}");
}

#[test]
fn v2_fields_have_defaults() {
    let c = Config::new(None);
    assert_eq!(c.dream_idle_secs, 7200);
    assert_eq!(c.dream_context_trigger_tokens, 300_000);
    assert_eq!(c.dream_cap_turns, 3);
    assert_eq!(c.display_window_size, 50);
    assert_eq!(c.max_tool_iters, 100);
}

#[test]
fn path_in_is_dir_config_json() {
    assert_eq!(slashed(path_in("C:/fake")), "C:/fake/config.json");
    assert_eq!(path_in("/fake"), "/fake/config.json");
}

#[test]
fn default_workspace_ends_with_documents_ovoice() {
    let s = default_workspace_dir(None, Some("/home/u"));
    assert!(s.ends_with("Documents/ovoice"), "got {s}");
    assert_eq!(default_workspace_dir(Some("/p"), Some("/home/u")), "/p/Documents/ovoice");
}

#[test]
fn resolve_workspace_empty_uses_documents_default() {
    let s = workspace("");
    assert!(s.ends_with("Documents/ovoice"), "空应走默认 Documents/ovoice，got {s}");
}

#[test]
fn resolve_workspace_absolute_passthrough() {
    assert_eq!(workspace("D:/proj"), "D:/proj");
    assert_eq!(resolve_workspace("/proj", "/data", None, None), "/proj");
    assert_eq!(resolve_workspace("\\\\srv\\proj", D, None, None), "\\\\srv\\proj");
    assert_eq!(workspace("/proj"), "C:/proj", "无盘符的根落在同一盘");
}

#[test]
fn resolve_workspace_relative_joined() {
    assert_eq!(workspace("myproj"), "C:/fake/appdata/myproj");
}

#[test]
fn resolve_cache_dir_empty_defaults_to_appdata_cache() {
    assert_eq!(cache(""), "C:/fake/appdata/cache");
    assert_eq!(cache("   "), "C:/fake/appdata/cache");
}

#[test]
fn resolve_cache_dir_absolute_passthrough() {
    assert_eq!(cache("E:/ovoice-cache"), "E:/ovoice-cache");
}

#[test]
fn resolve_cache_dir_relative_joined() {
    assert_eq!(cache("mycache"), "C:/fake/appdata/mycache");
}

#[test]
fn minimax_region_defaults_to_cn() {
    assert_eq!(Config::new(None).minimax_region, "cn");
}

#[test]
fn subagent_system_prompt_has_default() {
    let c = Config::new(None);
    assert!(c.subagent_system_prompt.contains("子代理"), "默认值: {}", c.subagent_system_prompt);
}

#[test]
fn max_subagents_defaults_to_four() {
    assert_eq!(Config::new(None).max_subagents, 4);
}

#[test]
fn dream_defaults() {
    let c = Config::new(None);
    assert_eq!(c.dream_merge_max_rounds, 5, "合并上限默认 5 回合");
    assert_eq!(c.dream_idle_secs, 7200);
    assert_eq!(c.dream_context_trigger_tokens, 300_000);
    assert_eq!(c.dream_cap_turns, 3);
}

#[test]
fn user_prompt_prefix_disabled_and_empty_by_default() {
    let c = Config::new(None);
    assert!(!c.user_prompt_prefix_enabled, "默认关闭");
    assert_eq!(c.user_prompt_prefix, "", "默认空串");
}

#[test]
fn settings_by_default() {
    let c = Config::new(Some("sk".into()));
    assert_eq!(c.api_key, "sk");
    assert_eq!(c.llm_model, "MiniMax-M3");
    assert_eq!(c.tts_model, "speech-2.8-hd");
    assert_eq!(c.voice_id, "male-qn-qingse");
    assert_eq!(c.audio_format, "mp3");
    assert_eq!(c.baidu_app_id, 0, "凭据默认值必须为空（开源仓库不携带密钥）");
    assert_eq!(c.baidu_dev_pid, 1537);
    assert_eq!(c.hold_gate_ms, 1000);
    assert_eq!(c.voice_trigger, "hold");
    assert_eq!(c.voice_action, "send");
    assert_eq!(c.pitch, 0);
    assert!(!c.bg_enabled);
    assert_eq!(c.max_attachment_mb, 30);
    assert_eq!(c.bg_path, "");
    assert_eq!(c.max_subagents, 4);
    assert_eq!(c.subagent_max_iters, 5000, "默认须覆盖数小时/数千循环的长任务");
}

#[test]
fn directories_are_settled() {
    let mut c = Config::new(None);
    c.settle_dirs(D, None, Some("/home/u"));
    assert_eq!(c.workspace_dir, "/home/u/Documents/ovoice");
    assert_eq!(c.cache_dir, "C:/fake/appdata\\cache");
}

#[test]
fn settled_dirs_stay() {
    let mut c = Config::new(None);
    c.workspace_dir = " ws ".into();
    c.settle_dirs("/data", None, Some("/home/u"));
    assert_eq!((c.workspace_dir.as_str(), c.cache_dir.as_str()), ("/data/ws", "/data/cache"));
    c.settle_dirs("/data", None, Some("/home/u"));
    assert_eq!((c.workspace_dir.as_str(), c.cache_dir.as_str()), ("/data/ws", "/data/cache"));
}

#[test]
fn settled_dirs_of_windows_stay() {
    let mut c = Config::new(None);
    c.workspace_dir = "ws".into();
    for _ in 0..2 {
        c.settle_dirs("C:\\data", Some("C:\\Users\\u"), None);
        assert_eq!(c.workspace_dir, "C:\\data\\ws");
        assert_eq!(c.cache_dir, "C:\\data\\cache");
    }
    assert_eq!(
        default_workspace_dir(Some("C:\\Users\\u"), None),
        "C:\\Users\\u\\Documents\\ovoice"
    );
}
