//! The settings: what they are by default, and where the program keeps its files.
use crate::json::Json;
use crate::paths::{
    is_absolute, is_rooted, is_verbatim, is_windows, join_path, joined, lemma_joined_name,
    lemma_prefix_kept,
};
use crate::text::{
    is_blank, is_white, lemma_trim_end_prefix, lemma_trim_start_suffix, opt_str, trim, trim_start,
    trimmed,
};
use vstd::prelude::*;

verus! {

/// A voice that can be chosen.
#[derive(Debug)]
pub struct VoiceOption {
    pub id: String,
    pub label: String,
}

/// What voices hold: the id and the label of each.
pub open spec fn voice_views(v: Seq<VoiceOption>) -> Seq<(Seq<char>, Seq<char>)> {
    v.map_values(|o: VoiceOption| (o.id@, o.label@))
}

/// The settings.
#[derive(Debug)]
pub struct Config {
    pub api_key: String,
    pub llm_model: String,
    pub system_prompt: String,
    /// Whether the prefix stands before what the user says.
    pub user_prompt_prefix_enabled: bool,
    pub user_prompt_prefix: String,
    pub tts_model: String,
    pub voice_id: String,
    pub pitch: i32,
    pub audio_format: String,
    pub baidu_app_id: i64,
    pub baidu_api_key: String,
    pub baidu_secret_key: String,
    pub baidu_dev_pid: i64,
    /// How long the key is held, in milliseconds, before recording begins.
    pub hold_gate_ms: u64,
    /// `hold` or `toggle`.
    pub voice_trigger: String,
    /// `send` or `insert`.
    pub voice_action: String,
    pub workspace_dir: String,
    pub cache_dir: String,
    pub media_roots: Vec<String>,
    pub voices: Vec<VoiceOption>,
    pub minimax_region: String,
    pub max_attachment_mb: u64,
    pub bg_enabled: bool,
    pub bg_path: String,
    /// The tools that may be called; all of them when there is none.
    pub active_tools: Option<Vec<Json>>,
    pub subagent_system_prompt: String,
    pub max_subagents: u64,
    pub subagent_max_iters: u64,
    pub dream_idle_secs: u64,
    pub dream_context_trigger_tokens: u64,
    /// How many of the user's messages the context holds.
    pub dream_cap_turns: u64,
    pub display_window_size: u64,
    pub max_tool_iters: u64,
    pub dream_merge_max_rounds: u64,
    pub dream_batch_max_events: u64,
}

/// What a subagent is told before its task.
pub const SUBAGENT_SYSTEM_PROMPT: &'static str = "你是 ovoice 的子代理：受主代理委派、在独立干净上下文中完成单一任务的执行者。你看不到主对话历史。\n\n工作区约定：workspace 根下 projects/（项目）、scripts/（脚本）、datas/（数据与文档）、render/（渲染产物），新建文件按类归位；任务若提到 AGENT.md/SOUL.md/MEMORY.md，用 read 自行查看。\n\n动手原则：用 write/read/edit/bash 完成任务；先 read 摸清现状再改，不盲写；长任务每完成一个里程碑让磁盘状态自洽（改一半的东西要么完成要么回退）。\n\n最终总结（这是主代理唯一能看到的东西，主代理没看过你读的任何文件）。格式：\n## 结论\n完成了什么；若失败，失败在哪（一句话）。\n## 改动与产出\n逐项：精确文件路径 + 做了什么。\n## 关键发现\n主代理后续需要的数字、结论、路径。\n## 遗留\n未完成项/风险/需主代理决策的点；没有写「无」。\n\n要求：具体到文件路径（必要时至行号）；给路径与摘要，不贴大段原文。";

/// What the assistant is told before anything else.
pub const SYSTEM_PROMPT: &'static str = "你是 ovoice 的 AI 助手，基于 MiniMax-M3。请用简洁、自然的中文回答。";

/// The voices that can be chosen by default.
pub open spec fn default_voices() -> Seq<(Seq<char>, Seq<char>)> {
    seq![
        ("male-qn-qingse"@, "青涩青年（男·普通话）"@),
        ("male-qn-jingying"@, "精英青年（男·普通话）"@),
        ("male-qn-badao"@, "霸道青年（男·普通话）"@),
        ("male-qn-daxuesheng"@, "青年大学生（男·普通话）"@),
        ("female-shaonv"@, "少女（普通话）"@),
        ("female-yujie"@, "御姐（普通话）"@),
        ("female-chengshu"@, "成熟女性（普通话）"@),
        ("female-tianmei"@, "甜美女性（普通话）"@),
        ("clever_boy"@, "聪明男童（普通话）"@),
        ("lovely_girl"@, "萌萌女童（普通话）"@),
        ("Chinese (Mandarin)_News_Anchor"@, "新闻女声（普通话）"@),
        ("Chinese (Mandarin)_Male_Announcer"@, "播报男声（普通话）"@),
        ("Chinese (Mandarin)_Warm_Girl"@, "温暖少女（普通话）"@),
        ("Chinese (Mandarin)_Gentleman"@, "温润男声（普通话）"@),
    ]
}

fn voice(id: &str, label: &str) -> (r: VoiceOption)
    ensures
        r.id@ == id@,
        r.label@ == label@,
{
    VoiceOption { id: id.to_owned(), label: label.to_owned() }
}

/// The voices that can be chosen by default.
pub fn d_voices() -> (r: Vec<VoiceOption>)
    ensures
        voice_views(r@) == default_voices(),
{
    let mut v: Vec<VoiceOption> = Vec::new();
    v.push(voice("male-qn-qingse", "青涩青年（男·普通话）"));
    v.push(voice("male-qn-jingying", "精英青年（男·普通话）"));
    v.push(voice("male-qn-badao", "霸道青年（男·普通话）"));
    v.push(voice("male-qn-daxuesheng", "青年大学生（男·普通话）"));
    v.push(voice("female-shaonv", "少女（普通话）"));
    v.push(voice("female-yujie", "御姐（普通话）"));
    v.push(voice("female-chengshu", "成熟女性（普通话）"));
    v.push(voice("female-tianmei", "甜美女性（普通话）"));
    v.push(voice("clever_boy", "聪明男童（普通话）"));
    v.push(voice("lovely_girl", "萌萌女童（普通话）"));
    v.push(voice("Chinese (Mandarin)_News_Anchor", "新闻女声（普通话）"));
    v.push(voice("Chinese (Mandarin)_Male_Announcer", "播报男声（普通话）"));
    v.push(voice("Chinese (Mandarin)_Warm_Girl", "温暖少女（普通话）"));
    v.push(voice("Chinese (Mandarin)_Gentleman", "温润男声（普通话）"));
    assert(voice_views(v@) =~= default_voices());
    v
}

/// What a subagent is told before its task.
pub fn d_subagent_sys() -> (r: String)
    ensures
        r@ == SUBAGENT_SYSTEM_PROMPT@,
{
    SUBAGENT_SYSTEM_PROMPT.to_owned()
}

impl Config {
    /// The settings by default, with the key that the environment gives.
    pub fn new(environment_key: Option<String>) -> (r: Config)
        ensures
            r.api_key@ == (match environment_key {
                Some(k) => k@,
                None => Seq::<char>::empty(),
            }),
            r.llm_model@ == "MiniMax-M3"@,
            r.system_prompt@ == SYSTEM_PROMPT@,
            !r.user_prompt_prefix_enabled,
            r.user_prompt_prefix@ == Seq::<char>::empty(),
            r.tts_model@ == "speech-2.8-hd"@,
            r.voice_id@ == "male-qn-qingse"@,
            r.pitch == 0,
            r.audio_format@ == "mp3"@,
            r.baidu_app_id == 0,
            r.baidu_api_key@ == Seq::<char>::empty(),
            r.baidu_secret_key@ == Seq::<char>::empty(),
            r.baidu_dev_pid == 1537,
            r.hold_gate_ms == 1000,
            r.voice_trigger@ == "hold"@,
            r.voice_action@ == "send"@,
            r.workspace_dir@ == Seq::<char>::empty(),
            r.cache_dir@ == Seq::<char>::empty(),
            r.media_roots@ == Seq::<String>::empty(),
            voice_views(r.voices@) == default_voices(),
            r.minimax_region@ == "cn"@,
            r.max_attachment_mb == 30,
            !r.bg_enabled,
            r.bg_path@ == Seq::<char>::empty(),
            r.active_tools is None,
            r.subagent_system_prompt@ == SUBAGENT_SYSTEM_PROMPT@,
            r.max_subagents == 4,
            r.subagent_max_iters == 5000,
            r.dream_idle_secs == 7200,
            r.dream_context_trigger_tokens == 300_000,
            r.dream_cap_turns == 3,
            r.display_window_size == 50,
            r.max_tool_iters == 100,
            r.dream_merge_max_rounds == 5,
            r.dream_batch_max_events == 100,
    {
        Config {
            api_key: match environment_key {
                Some(k) => k,
                None => String::new(),
            },
            llm_model: "MiniMax-M3".to_owned(),
            system_prompt: SYSTEM_PROMPT.to_owned(),
            user_prompt_prefix_enabled: false,
            user_prompt_prefix: String::new(),
            tts_model: "speech-2.8-hd".to_owned(),
            voice_id: "male-qn-qingse".to_owned(),
            pitch: 0,
            audio_format: "mp3".to_owned(),
            baidu_app_id: 0,
            baidu_api_key: String::new(),
            baidu_secret_key: String::new(),
            baidu_dev_pid: 1537,
            hold_gate_ms: 1000,
            voice_trigger: "hold".to_owned(),
            voice_action: "send".to_owned(),
            workspace_dir: String::new(),
            cache_dir: String::new(),
            media_roots: Vec::new(),
            voices: d_voices(),
            minimax_region: "cn".to_owned(),
            max_attachment_mb: 30,
            bg_enabled: false,
            bg_path: String::new(),
            active_tools: None,
            subagent_system_prompt: d_subagent_sys(),
            max_subagents: 4,
            subagent_max_iters: 5000,
            dream_idle_secs: 7200,
            dream_context_trigger_tokens: 300_000,
            dream_cap_turns: 3,
            display_window_size: 50,
            max_tool_iters: 100,
            dream_merge_max_rounds: 5,
            dream_batch_max_events: 100,
        }
    }

    /// Puts the directories that are meant in the place of those that were set.
    pub fn settle_dirs(
        &mut self,
        app_data_dir: &str,
        user_profile: Option<&str>,
        home: Option<&str>,
    )
        ensures
            final(self).workspace_dir@ == workspace_path(
                old(self).workspace_dir@,
                app_data_dir@,
                opt_str(user_profile),
                opt_str(home),
            ),
            final(self).cache_dir@ == cache_path(old(self).cache_dir@, app_data_dir@),
            *final(self) == (Config {
                workspace_dir: final(self).workspace_dir,
                cache_dir: final(self).cache_dir,
                ..*old(self)
            }),
    {
        let ws = resolve_workspace(self.workspace_dir.as_str(), app_data_dir, user_profile, home);
        let cache = resolve_cache_dir(self.cache_dir.as_str(), app_data_dir);
        self.workspace_dir = ws;
        self.cache_dir = cache;
    }
}

// ---------------------------------------------------------------------------
// Directories
// ---------------------------------------------------------------------------

/// A path that stands for itself.
pub open spec fn stands_alone(path: Seq<char>) -> bool {
    if is_windows(path) {
        is_rooted(path)
    } else {
        is_absolute(path)
    }
}

/// The file of the settings in a directory.
pub open spec fn config_file(dir: Seq<char>) -> Seq<char> {
    joined(dir, "config.json"@)
}

/// The directory for the user's files by default.
pub open spec fn default_workspace(
    user_profile: Option<Seq<char>>,
    home: Option<Seq<char>>,
) -> Seq<char> {
    let base = if user_profile is Some {
        user_profile
    } else {
        home
    };
    match base {
        Some(h) => joined(joined(h, "Documents"@), "ovoice"@),
        None => joined("."@, "ovoice"@),
    }
}

/// The directory for the user's files.
pub open spec fn workspace_path(
    field: Seq<char>,
    app_data_dir: Seq<char>,
    user_profile: Option<Seq<char>>,
    home: Option<Seq<char>>,
) -> Seq<char> {
    let t = trim(field);
    if t.len() == 0 {
        default_workspace(user_profile, home)
    } else {
        joined(app_data_dir, t)
    }
}

/// The directory for the program's own files.
pub open spec fn cache_path(field: Seq<char>, app_data_dir: Seq<char>) -> Seq<char> {
    let t = trim(field);
    if t.len() == 0 {
        joined(app_data_dir, "cache"@)
    } else {
        joined(app_data_dir, t)
    }
}

/// The file of the settings in a directory.
pub fn path_in(dir: &str) -> (r: String)
    ensures
        r@ == config_file(dir@),
{
    join_path(dir, "config.json")
}

/// The directory for the user's files by default: below the home directory.
pub fn default_workspace_dir(user_profile: Option<&str>, home: Option<&str>) -> (r: String)
    ensures
        r@ == default_workspace(opt_str(user_profile), opt_str(home)),
{
    let base = if user_profile.is_some() {
        user_profile
    } else {
        home
    };
    match base {
        Some(h) => join_path(join_path(h, "Documents").as_str(), "ovoice"),
        None => join_path(".", "ovoice"),
    }
}

/// The directory for the user's files: what was set, or the default.
pub fn resolve_workspace(
    field: &str,
    app_data_dir: &str,
    user_profile: Option<&str>,
    home: Option<&str>,
) -> (r: String)
    ensures
        r@ == workspace_path(field@, app_data_dir@, opt_str(user_profile), opt_str(home)),
{
    let t = trimmed(field);
    if t.as_str().unicode_len() == 0 {
        return default_workspace_dir(user_profile, home);
    }
    join_path(app_data_dir, t.as_str())
}

/// The directory for the program's own files: what was set, or one below the
/// program's data. It never follows the user's files.
pub fn resolve_cache_dir(field: &str, app_data_dir: &str) -> (r: String)
    ensures
        r@ == cache_path(field@, app_data_dir@),
{
    let t = trimmed(field);
    if t.as_str().unicode_len() == 0 {
        return join_path(app_data_dir, "cache");
    }
    join_path(app_data_dir, t.as_str())
}

proof fn lemma_trimmed_kept(p: Seq<char>)
    requires
        p.len() > 0,
        !is_white(p[0]),
        !is_white(p.last()),
    ensures
        trim(p) == p,
{
}

proof fn lemma_below_kept(dir: Seq<char>, rest: Seq<char>)
    requires
        stands_alone(dir),
        rest.len() > 0,
        !is_white(rest[0]),
        !is_white(rest.last()),
    ensures
        joined(dir, joined(dir, rest)) == joined(dir, rest),
        !is_verbatim(dir) ==> trim(joined(dir, rest)) == joined(dir, rest),
{
    let p = joined(dir, rest);
    if p == rest {
        lemma_trimmed_kept(p);
    } else {
        lemma_prefix_kept(dir, rest);
        assert(p[0] == dir[0]);
        if !is_verbatim(dir) {
            assert(p.last() == rest.last());
            lemma_trimmed_kept(p);
        }
    }
}

/// Directories that were settled once stay the same when the settings are kept and
/// read again.
pub proof fn lemma_settled_dirs_stay(
    field: Seq<char>,
    app_data_dir: Seq<char>,
    user_profile: Option<Seq<char>>,
    home: Option<Seq<char>>,
)
    requires
        stands_alone(app_data_dir),
        stands_alone(default_workspace(user_profile, home)),
        is_windows(app_data_dir) ==> is_windows(default_workspace(user_profile, home)),
        is_verbatim(app_data_dir) && !is_blank(field) ==> !is_white(
            joined(app_data_dir, trim(field)).last(),
        ),
    ensures
        ({
            let w = workspace_path(field, app_data_dir, user_profile, home);
            workspace_path(w, app_data_dir, user_profile, home) == w
        }),
        cache_path(cache_path(field, app_data_dir), app_data_dir) == cache_path(
            field,
            app_data_dir,
        ),
{
    reveal_strlit("ovoice");
    reveal_strlit("cache");
    let t = trim(field);
    lemma_trim_end_prefix(trim_start(field));
    lemma_trim_start_suffix(field);
    if t.len() == 0 {
        let w = default_workspace(user_profile, home);
        let base = if user_profile is Some {
            user_profile
        } else {
            home
        };
        let above = match base {
            Some(h) => joined(h, "Documents"@),
            None => "."@,
        };
        lemma_joined_name(above, "ovoice"@);
        assert(w.last() == 'e');
        lemma_trimmed_kept(w);
        lemma_below_kept(app_data_dir, "cache"@);
        lemma_joined_name(app_data_dir, "cache"@);
        let c = joined(app_data_dir, "cache"@);
        lemma_prefix_kept(app_data_dir, "cache"@);
        assert(c[0] == app_data_dir[0]);
        lemma_trimmed_kept(c);
    } else {
        assert(t[0] == trim_start(field)[0]);
        lemma_below_kept(app_data_dir, t);
        let p = joined(app_data_dir, t);
        if is_verbatim(app_data_dir) {
            if p != t {
                lemma_prefix_kept(app_data_dir, t);
                assert(p[0] == app_data_dir[0]);
            }
            lemma_trimmed_kept(p);
        }
    }
}

} // verus!
