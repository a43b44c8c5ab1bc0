//! Asking the service: what is sent, what a refusal means, and when to ask again.
use crate::cut::{can_cut, cuts_at, truncate, truncated};
use crate::decimal::{dec, parse_unsigned, read_u64, write_u64, write_usize};
use crate::json::{jsons, Json, JsonView};
use crate::pairing::{is_paired, lemma_stripped_paired, strip_unpaired_tool_calls, stripped};
use crate::purify::{
    apply_quarantine, collect_stubbed_hashes, hashes_of, lemma_stubbed_paired, screened,
    lemma_nothing_collected, stub_messages, stub_tool_results, stubbed_texts, Quarantine,
};
use crate::text::{contains, has, opt_text, to_chars, trim, trim_chars};
use vstd::prelude::*;

verus! {

/// How often a request is sent at most: once, once more for each level of
/// stand-ins, and once more for a passing fault.
pub const MAX_HTTP_ATTEMPTS: usize = 6;

/// What is told when the content filter refuses at every level.
pub const SUGGEST_OPEN_NEW_CHAT_OR_REPHRASE: &'static str = "输入内容被服务商风控拦截（敏感内容判定）：已自动省略全部工具输出并回退上下文重试仍被拦。通常是上下文累积了触发敏感词的文本（如某些安全/网络主题的搜索结果）。请换措辞重新描述任务，或重置会话";

// ---------------------------------------------------------------------------
// Refusals
// ---------------------------------------------------------------------------

/// What becomes of a refused request: it is sent again, or the turn fails with a
/// message for the user.
#[derive(Debug)]
pub enum HttpErrClass {
    Retry { reason: String },
    Fail(String),
}

/// What the class of a refusal holds.
pub enum ClassView {
    Retry { reason: Seq<char> },
    Fail(Seq<char>),
}

impl View for HttpErrClass {
    type V = ClassView;

    open spec fn view(&self) -> ClassView {
        match self {
            HttpErrClass::Retry { reason } => ClassView::Retry { reason: reason@ },
            HttpErrClass::Fail(m) => ClassView::Fail(m@),
        }
    }
}

/// The content filter refused.
pub open spec fn is_filtered(status: u16, body: Seq<char>) -> bool {
    status == 422 && contains(body, "sensitive"@)
}

/// Why a status passes: it is asked again.
pub open spec fn passing_reason(status: u16) -> Option<Seq<char>> {
    if status == 408 {
        Some("请求超时"@)
    } else if status == 429 {
        Some("账号限流"@)
    } else if status == 500 {
        Some("服务端内部错误"@)
    } else if status == 502 {
        Some("网关错误"@)
    } else if status == 503 {
        Some("服务暂不可用"@)
    } else if status == 504 {
        Some("网关超时"@)
    } else if status == 529 {
        Some("集群过载"@)
    } else if 500 <= status <= 599 {
        Some("服务端错误"@)
    } else {
        None
    }
}

/// What a status means by itself, whatever the body says.
pub open spec fn fixed_message(status: u16) -> Option<Seq<char>> {
    if status == 401 {
        Some("API Key 无效或已过期，请在「设置」里检查"@)
    } else if status == 403 {
        Some("无权限访问（API Key 权限不足或被禁用）"@)
    } else if status == 404 {
        Some("模型或端点不存在，请检查「设置 → 模型」"@)
    } else if status == 413 {
        Some("请求体过大（历史太长或附件太大），请开新会话或精简内容"@)
    } else {
        None
    }
}

/// How many bytes of the body a refusal's message shows.
pub open spec fn shown_bytes(status: u16) -> int {
    if status == 400 || status == 422 {
        300
    } else {
        600
    }
}

/// The body can be shown: nothing of it is needed, or it can be cut where it has
/// to be.
pub open spec fn is_classifiable(status: u16, body: Seq<char>) -> bool {
    ||| is_filtered(status, body)
    ||| passing_reason(status) is Some
    ||| fixed_message(status) is Some
    ||| cuts_at(body, shown_bytes(status))
}

/// The class of a refusal.
pub open spec fn classified(status: u16, body: Seq<char>) -> ClassView {
    if is_filtered(status, body) {
        ClassView::Fail(SUGGEST_OPEN_NEW_CHAT_OR_REPHRASE@)
    } else if passing_reason(status) is Some {
        ClassView::Retry { reason: passing_reason(status)->0 }
    } else if fixed_message(status) is Some {
        ClassView::Fail(fixed_message(status)->0)
    } else if status == 400 || status == 422 {
        ClassView::Fail(
            "请求参数错误（HTTP "@ + dec(status as nat) + "）: "@ + truncated(body, 300),
        )
    } else {
        ClassView::Fail("LLM HTTP "@ + dec(status as nat) + ": "@ + truncated(body, 600))
    }
}

fn passing(status: u16) -> (r: Option<&'static str>)
    ensures
        crate::text::opt_str(r) == passing_reason(status),
{
    if status == 408 {
        Some("请求超时")
    } else if status == 429 {
        Some("账号限流")
    } else if status == 500 {
        Some("服务端内部错误")
    } else if status == 502 {
        Some("网关错误")
    } else if status == 503 {
        Some("服务暂不可用")
    } else if status == 504 {
        Some("网关超时")
    } else if status == 529 {
        Some("集群过载")
    } else if 500 <= status && status <= 599 {
        Some("服务端错误")
    } else {
        None
    }
}

fn fixed(status: u16) -> (r: Option<&'static str>)
    ensures
        crate::text::opt_str(r) == fixed_message(status),
{
    if status == 401 {
        Some("API Key 无效或已过期，请在「设置」里检查")
    } else if status == 403 {
        Some("无权限访问（API Key 权限不足或被禁用）")
    } else if status == 404 {
        Some("模型或端点不存在，请检查「设置 → 模型」")
    } else if status == 413 {
        Some("请求体过大（历史太长或附件太大），请开新会话或精简内容")
    } else {
        None
    }
}

/// What passes is a timeout, a limit or any fault on the side of the service, and it
/// alone is asked again.
pub proof fn lemma_retried(status: u16, body: Seq<char>)
    ensures
        classified(status, body) is Retry <==> status == 408 || status == 429 || 500 <= status
            <= 599,
{
}

/// Whether the content filter refused.
pub fn filtered(status: u16, body: &str) -> (r: bool)
    ensures
        r == is_filtered(status, body@),
{
    status == 422 && has(body, "sensitive")
}

/// Whether a refusal can be classified.
pub fn classifiable(status: u16, body: &str) -> (r: bool)
    ensures
        r == is_classifiable(status, body@),
{
    if filtered(status, body) || passing(status).is_some() || fixed(status).is_some() {
        return true;
    }
    let n: usize = if status == 400 || status == 422 {
        300
    } else {
        600
    };
    can_cut(body, n)
}

/// Sorts a refusal: what passes is asked again, everything else is told to the
/// user at once.
pub fn classify_http_error(status: u16, body: &str) -> (r: HttpErrClass)
    requires
        is_classifiable(status, body@),
    ensures
        r@ == classified(status, body@),
{
    if filtered(status, body) {
        return HttpErrClass::Fail(SUGGEST_OPEN_NEW_CHAT_OR_REPHRASE.to_owned());
    }
    if let Some(reason) = passing(status) {
        return HttpErrClass::Retry { reason: reason.to_owned() };
    }
    if let Some(m) = fixed(status) {
        return HttpErrClass::Fail(m.to_owned());
    }
    if status == 400 || status == 422 {
        let mut m = "请求参数错误（HTTP ".to_owned();
        m.push_str(write_u64(status as u64).as_str());
        m.push_str("）: ");
        m.push_str(truncate(body, 300).as_str());
        HttpErrClass::Fail(m)
    } else {
        let mut m = "LLM HTTP ".to_owned();
        m.push_str(write_u64(status as u64).as_str());
        m.push_str(": ");
        m.push_str(truncate(body, 600).as_str());
        HttpErrClass::Fail(m)
    }
}

// ---------------------------------------------------------------------------
// Waiting
// ---------------------------------------------------------------------------

/// The seconds to wait after an attempt: twice as long each time, up to 8.
pub open spec fn backoff(attempt: nat) -> nat
    decreases attempt,
{
    if attempt <= 1 {
        1
    } else if attempt >= 4 {
        8
    } else {
        2 * backoff((attempt - 1) as nat)
    }
}

/// The seconds to wait after an attempt.
pub fn backoff_delay(attempt: usize) -> (r: u64)
    ensures
        r == backoff(attempt as nat),
{
    let before: usize = if attempt == 0 {
        0
    } else {
        attempt - 1
    };
    let shift: usize = if before < 3 {
        before
    } else {
        3
    };
    let r: u64 = 1u64 << shift;
    assert(1u64 << 0usize == 1) by (bit_vector);
    assert(1u64 << 1usize == 2) by (bit_vector);
    assert(1u64 << 2usize == 4) by (bit_vector);
    assert(1u64 << 3usize == 8) by (bit_vector);
    proof {
        reveal_with_fuel(backoff, 3);
    }
    r
}

/// The seconds that a `Retry-After` header asks for: a number of seconds counts, a
/// date does not.
pub open spec fn asked_wait(header: Option<Seq<char>>) -> Option<nat> {
    match header {
        Some(s) => parse_unsigned(trim(s), u64::MAX as nat),
        None => None,
    }
}

/// Reads a `Retry-After` header.
pub fn retry_after_secs(header: Option<&str>) -> (r: Option<u64>)
    ensures
        match r {
            Some(n) => asked_wait(crate::text::opt_str(header)) == Some(n as nat),
            None => asked_wait(crate::text::opt_str(header)) is None,
        },
{
    match header {
        Some(s) => {
            let v = to_chars(s);
            read_u64(trim_chars(v.as_slice()))
        },
        None => None,
    }
}

/// The wait never gets shorter, and never longer than 8 seconds.
pub proof fn lemma_backoff_grows(a: nat, b: nat)
    requires
        a <= b,
    ensures
        1 <= backoff(a) <= backoff(b) <= 8,
{
    reveal_with_fuel(backoff, 3);
}

// ---------------------------------------------------------------------------
// The round
// ---------------------------------------------------------------------------

/// What came of sending the request.
#[derive(Debug)]
pub enum Outcome {
    /// Nothing reached the service, or nothing came back; why.
    NetworkError(String),
    /// The service answers; the reply streams in.
    Success,
    /// The service refuses. `status_line` is the status as it is shown.
    Refused { status: u16, status_line: String, body: String, retry_after: Option<String> },
}

/// What an outcome holds.
pub enum OutcomeView {
    NetworkError(Seq<char>),
    Success,
    Refused {
        status: u16,
        status_line: Seq<char>,
        body: Seq<char>,
        retry_after: Option<Seq<char>>,
    },
}

impl View for Outcome {
    type V = OutcomeView;

    open spec fn view(&self) -> OutcomeView {
        match self {
            Outcome::NetworkError(e) => OutcomeView::NetworkError(e@),
            Outcome::Success => OutcomeView::Success,
            Outcome::Refused { status, status_line, body, retry_after } => OutcomeView::Refused {
                status: *status,
                status_line: status_line@,
                body: body@,
                retry_after: opt_text(*retry_after),
            },
        }
    }
}

/// What to do next.
#[derive(Debug)]
pub enum Next {
    /// Tell why the attempt failed, wait, and send again.
    Again { attempt: usize, reason: String, wait_secs: u64 },
    /// Keep the hashes, and listen to the reply.
    Listen { hashes: Vec<u64> },
    /// Give up, with a message for the user.
    Fail(String),
}

/// What the next thing to do holds.
pub enum NextView {
    Again { attempt: nat, reason: Seq<char>, wait_secs: nat },
    Listen { hashes: Seq<u64> },
    Fail(Seq<char>),
}

impl View for Next {
    type V = NextView;

    open spec fn view(&self) -> NextView {
        match self {
            Next::Again { attempt, reason, wait_secs } => NextView::Again {
                attempt: *attempt as nat,
                reason: reason@,
                wait_secs: *wait_secs as nat,
            },
            Next::Listen { hashes } => NextView::Listen { hashes: hashes@ },
            Next::Fail(m) => NextView::Fail(m@),
        }
    }
}

/// One question to the service: the messages, how far they are replaced by
/// stand-ins, and how often they were sent.
#[derive(Debug)]
pub struct HttpRound {
    pub messages: Vec<Json>,
    pub level: usize,
    pub attempt: usize,
}

/// What a question to the service holds.
pub struct AskView {
    pub messages: Seq<JsonView>,
    pub level: nat,
    pub attempt: nat,
}

impl View for HttpRound {
    type V = AskView;

    open spec fn view(&self) -> AskView {
        AskView {
            messages: jsons(self.messages@),
            level: self.level as nat,
            attempt: self.attempt as nat,
        }
    }
}

/// What is done after the level of stand-ins went up.
pub open spec fn ladder_step(level: nat) -> Seq<char> {
    if level <= 2 {
        "省略工具输出"@
    } else if level == 3 {
        "省略工具输出与调用参数"@
    } else {
        "回退到最近对话"@
    }
}

/// A refusal goes up the ladder.
pub open spec fn climbs(s: AskView, o: OutcomeView) -> bool {
    match o {
        OutcomeView::Refused { status, body, .. } => is_filtered(status, body) && s.level < 4,
        _ => false,
    }
}

/// What to do after an outcome.
pub open spec fn next_of(s: AskView, o: OutcomeView) -> NextView {
    let last = s.attempt == MAX_HTTP_ATTEMPTS;
    match o {
        OutcomeView::NetworkError(e) => if last {
            NextView::Fail(
                "LLM 请求失败（已重试 "@ + dec(MAX_HTTP_ATTEMPTS as nat) + " 次）: "@ + e,
            )
        } else {
            NextView::Again {
                attempt: s.attempt,
                reason: "网络错误: "@ + e,
                wait_secs: backoff(s.attempt),
            }
        },
        OutcomeView::Success => NextView::Listen {
            hashes: hashes_of(stubbed_texts(s.messages, s.level)),
        },
        OutcomeView::Refused { status, status_line, body, retry_after } => if climbs(s, o) {
            NextView::Again {
                attempt: s.attempt,
                reason: "内容风控拦截，"@ + ladder_step(s.level + 1) + "后重试"@,
                wait_secs: 0,
            }
        } else {
            match classified(status, body) {
                ClassView::Fail(m) => NextView::Fail(m),
                ClassView::Retry { reason } => if last {
                    NextView::Fail(
                        "LLM HTTP "@ + status_line + "（已重试 "@ + dec(MAX_HTTP_ATTEMPTS as nat)
                            + " 次）: "@ + truncated(body, 600),
                    )
                } else {
                    NextView::Again {
                        attempt: s.attempt,
                        reason,
                        wait_secs: match asked_wait(retry_after) {
                            Some(n) => n,
                            None => backoff(s.attempt),
                        },
                    }
                },
            }
        },
    }
}

/// The question after an outcome: one attempt later when it is sent again, and
/// one level higher when the content filter refused.
pub open spec fn asked_again(s: AskView, o: OutcomeView) -> AskView {
    if next_of(s, o) is Again {
        AskView {
            messages: s.messages,
            level: if climbs(s, o) {
                s.level + 1
            } else {
                s.level
            },
            attempt: s.attempt + 1,
        }
    } else {
        s
    }
}

/// The outcome has an answer: a refusal can be classified and, after the last
/// attempt, shown; and the content filter does not refuse the last attempt with
/// levels left.
pub open spec fn is_answerable(s: AskView, o: OutcomeView) -> bool {
    match o {
        OutcomeView::Refused { status, body, .. } => {
            let last = s.attempt == MAX_HTTP_ATTEMPTS;
            &&& climbs(s, o) ==> !last
            &&& is_classifiable(status, body)
            &&& last && passing_reason(status) is Some ==> cuts_at(body, 600)
        },
        _ => true,
    }
}

impl HttpRound {
    /// The messages are paired, the levels and attempts within their bounds, and
    /// no level was reached without an attempt.
    pub open spec fn wf(&self) -> bool {
        &&& is_paired(self@.messages)
        &&& self.level <= 4
        &&& self.level < self.attempt <= MAX_HTTP_ATTEMPTS
    }

    /// A question: what is known to be refused is replaced, and calls without
    /// answers are left out, as are answers without calls.
    pub fn new(messages: &Vec<Json>, quarantine: &Quarantine) -> (r: HttpRound)
        ensures
            r.wf(),
            r@ == (AskView {
                messages: stripped(screened(quarantine@, jsons(messages@))),
                level: 0,
                attempt: 1,
            }),
    {
        let (mut msgs, _found) = apply_quarantine(messages, quarantine);
        strip_unpaired_tool_calls(&mut msgs);
        proof {
            lemma_stripped_paired(screened(quarantine@, jsons(messages@)));
        }
        HttpRound { messages: msgs, level: 0, attempt: 1 }
    }

    /// The messages to send now.
    pub fn outgoing(&self) -> (r: Vec<Json>)
        requires
            self.wf(),
        ensures
            jsons(r@) == stub_messages(self@.messages, self@.level),
            is_paired(jsons(r@)),
    {
        proof {
            lemma_stubbed_paired(self@.messages, self@.level);
        }
        stub_tool_results(&self.messages, self.level)
    }

    /// Whether an outcome has an answer.
    pub fn answerable(&self, o: &Outcome) -> (r: bool)
        ensures
            r == is_answerable(self@, o@),
    {
        match o {
            Outcome::Refused { status, status_line: _, body, retry_after: _ } => {
                let last = self.attempt == MAX_HTTP_ATTEMPTS;
                let b = body.as_str();
                let climbing = filtered(*status, b) && self.level < 4;
                !(climbing && last) && classifiable(*status, b) && (!last || passing(
                    *status,
                ).is_none() || can_cut(b, 600))
            },
            _ => true,
        }
    }

    /// Takes in an outcome; tells what to do next.
    pub fn step(&mut self, o: &Outcome) -> (r: Next)
        requires
            old(self).wf(),
            is_answerable(old(self)@, o@),
        ensures
            final(self).wf(),
            r@ == next_of(old(self)@, o@),
            final(self)@ == asked_again(old(self)@, o@),
    {
        let last = self.attempt == MAX_HTTP_ATTEMPTS;
        let attempt: usize = self.attempt;
        match o {
            Outcome::NetworkError(e) => {
                if last {
                    let mut m = "LLM 请求失败（已重试 ".to_owned();
                    m.push_str(write_usize(MAX_HTTP_ATTEMPTS).as_str());
                    m.push_str(" 次）: ");
                    m.push_str(e.as_str());
                    return Next::Fail(m);
                }
                let mut reason = "网络错误: ".to_owned();
                reason.push_str(e.as_str());
                self.attempt = attempt + 1;
                Next::Again { attempt, reason, wait_secs: backoff_delay(attempt) }
            },
            Outcome::Success => Next::Listen {
                hashes: collect_stubbed_hashes(&self.messages, self.level),
            },
            Outcome::Refused { status, status_line, body, retry_after } => {
                let b = body.as_str();
                if filtered(*status, b) && self.level < 4 {
                    self.level = self.level + 1;
                    self.attempt = attempt + 1;
                    let action = if self.level <= 2 {
                        "省略工具输出"
                    } else if self.level == 3 {
                        "省略工具输出与调用参数"
                    } else {
                        "回退到最近对话"
                    };
                    let mut reason = "内容风控拦截，".to_owned();
                    reason.push_str(action);
                    reason.push_str("后重试");
                    return Next::Again { attempt, reason, wait_secs: 0 };
                }
                match classify_http_error(*status, b) {
                    HttpErrClass::Fail(m) => Next::Fail(m),
                    HttpErrClass::Retry { reason } => {
                        if last {
                            let mut m = "LLM HTTP ".to_owned();
                            m.push_str(status_line.as_str());
                            m.push_str("（已重试 ");
                            m.push_str(write_usize(MAX_HTTP_ATTEMPTS).as_str());
                            m.push_str(" 次）: ");
                            m.push_str(truncate(b, 600).as_str());
                            return Next::Fail(m);
                        }
                        let asked = match retry_after {
                            Some(s) => retry_after_secs(Some(s.as_str())),
                            None => None,
                        };
                        let wait_secs: u64 = match asked {
                            Some(n) => n,
                            None => backoff_delay(attempt),
                        };
                        self.attempt = attempt + 1;
                        Next::Again { attempt, reason, wait_secs }
                    },
                }
            },
        }
    }
}

/// The content filter is asked again one level higher each time, and told to the
/// user only at the last level.
pub proof fn lemma_ladder(s: AskView, status: u16, line: Seq<char>, body: Seq<char>)
    requires
        is_filtered(status, body),
        s.level <= 4,
    ensures
        ({
            let o = OutcomeView::Refused { status, status_line: line, body, retry_after: None };
            &&& s.level < 4 ==> next_of(s, o) is Again && asked_again(s, o).level == s.level + 1
                && asked_again(s, o).messages == s.messages
            &&& s.level == 4 ==> next_of(s, o) == NextView::Fail(
                SUGGEST_OPEN_NEW_CHAT_OR_REPHRASE@,
            )
        }),
{
}

/// After a success the hashes of what was replaced are kept, and without
/// stand-ins there are none.
pub proof fn lemma_success(s: AskView)
    ensures
        next_of(s, OutcomeView::Success) == (NextView::Listen {
            hashes: hashes_of(stubbed_texts(s.messages, s.level)),
        }),
        s.level == 0 ==> next_of(s, OutcomeView::Success) == (NextView::Listen {
            hashes: Seq::empty(),
        }),
{
    if s.level == 0 {
        lemma_nothing_collected(s.messages);
        assert(hashes_of(stubbed_texts(s.messages, 0)) =~= Seq::empty());
    }
}

} // verus!
