//! What is sent to the service and what its answers mean: everything is sent as it
//! stands but what the content filter refuses, and only what passes is asked again.
use super::{holds, is_answer, is_call, is_saying, lacks, lemma_members, list_in, says};
use crate::cut::{byte_len, head_within};
use crate::decimal::dec;
use crate::files::AttachmentView;
use crate::http::{
    asked_again, asked_wait, backoff, classified, next_of, AskView, ClassView, NextView,
    OutcomeView,
};
use crate::json::JsonView;
use crate::llm::{
    attachment_note, attachment_part, doc_text_capped, expand_all, expand_part, expand_parts,
    has_media, is_media_ref, loaded_text, request_body, user_message, user_parts, Expansion,
    LoadedView, MediaReadView,
};
use crate::pairing::{calls_of, is_tool, stripped};
use crate::purify::{
    after_load, hash_of, hashes_of, screen_call, screened, stub_all, stub_call, stub_messages,
    stubbed_texts, tool_count, user_places,
};
use crate::text::{contains, is_blank, occurs_at, starts_with};
use crate::wire::numbers_read;
use vstd::prelude::*;

verus! {

// ---------------------------------------------------------------------------
// Asking again
// ---------------------------------------------------------------------------

/// The wait after an attempt in seconds: one, two, four, and eight from then on.
pub proof fn lemma_waits(attempt: nat)
    ensures
        attempt <= 1 ==> backoff(attempt) == 1,
        attempt == 2 ==> backoff(attempt) == 2,
        attempt == 3 ==> backoff(attempt) == 4,
        attempt >= 4 ==> backoff(attempt) == 8,
{
    reveal_with_fuel(backoff, 4);
}

/// Where the service cannot be reached the same is sent again, five times at most, each
/// time after a longer wait; then the turn fails and says why.
pub proof fn lemma_unreachable(s: AskView, e: Seq<char>)
    requires
        1 <= s.attempt <= 6,
    ensures
        ({
            let o = OutcomeView::NetworkError(e);
            if s.attempt < 6 {
                &&& next_of(s, o) == (NextView::Again {
                    attempt: s.attempt,
                    reason: "网络错误: "@ + e,
                    wait_secs: backoff(s.attempt),
                })
                &&& asked_again(s, o) == (AskView { attempt: s.attempt + 1, ..s })
            } else {
                &&& next_of(s, o) matches NextView::Fail(m) && m == "LLM 请求失败（已重试 6 次）: "@ + e
                &&& asked_again(s, o) == s
            }
        }),
{
    reveal_strlit("LLM 请求失败（已重试 ");
    reveal_strlit(" 次）: ");
    reveal_strlit("LLM 请求失败（已重试 6 次）: ");
    assert(dec(6) =~= seq!['6']);
    assert("LLM 请求失败（已重试 "@ + dec(6) + " 次）: "@ + e =~= "LLM 请求失败（已重试 6 次）: "@ + e);
}

/// When the service answers, the reply is listened to and nothing is sent again; what
/// was replaced is remembered.
pub proof fn lemma_answered(s: AskView)
    ensures
        next_of(s, OutcomeView::Success) == (NextView::Listen {
            hashes: hashes_of(stubbed_texts(s.messages, s.level)),
        }),
        asked_again(s, OutcomeView::Success) == s,
{
}

/// What the content filter refuses is sent again at once, one level higher, up to the
/// fourth; refused there the turn fails with advice. The messages themselves stay.
pub proof fn lemma_filter_climbs(
    s: AskView,
    status_line: Seq<char>,
    body: Seq<char>,
    retry_after: Option<Seq<char>>,
)
    requires
        contains(body, "sensitive"@),
    ensures
        ({
            let o = OutcomeView::Refused { status: 422, status_line, body, retry_after };
            if s.level < 4 {
                &&& next_of(s, o) matches NextView::Again { attempt, reason, wait_secs } && attempt
                    == s.attempt && wait_secs == 0 && reason == "内容风控拦截，"@ + (if s.level < 2 {
                    "省略工具输出"@
                } else if s.level == 2 {
                    "省略工具输出与调用参数"@
                } else {
                    "回退到最近对话"@
                }) + "后重试"@
                &&& asked_again(s, o) == (AskView {
                    messages: s.messages,
                    level: s.level + 1,
                    attempt: s.attempt + 1,
                })
            } else {
                &&& next_of(s, o) == NextView::Fail(
                    crate::http::SUGGEST_OPEN_NEW_CHAT_OR_REPHRASE@,
                )
                &&& asked_again(s, o) == s
            }
        }),
{
}

/// A timeout, a limit and a fault of the service pass: the same is sent again, after
/// the time that the service asks for, or else after the usual wait; at the sixth time
/// the turn fails with the status. Any other refusal fails at once.
pub proof fn lemma_refusals(
    s: AskView,
    status: u16,
    status_line: Seq<char>,
    body: Seq<char>,
    retry_after: Option<Seq<char>>,
)
    requires
        1 <= s.attempt <= 6,
        !(status == 422 && contains(body, "sensitive"@)),
    ensures
        ({
            let o = OutcomeView::Refused { status, status_line, body, retry_after };
            if status == 408 || status == 429 || 500 <= status <= 599 {
                if s.attempt < 6 {
                    &&& next_of(s, o) matches NextView::Again { attempt, wait_secs, .. }
                        && attempt == s.attempt && (asked_wait(retry_after) is Some ==> wait_secs
                        == asked_wait(retry_after)->0) && (asked_wait(retry_after) is None
                        ==> wait_secs == backoff(s.attempt))
                    &&& asked_again(s, o) == (AskView { attempt: s.attempt + 1, ..s })
                } else {
                    &&& next_of(s, o) is Fail
                    &&& asked_again(s, o) == s
                }
            } else {
                &&& next_of(s, o) is Fail
                &&& asked_again(s, o) == s
            }
        }),
{
}

/// A refusal that passes is told with what it is.
pub proof fn lemma_passing_told(status: u16, body: Seq<char>)
    requires
        status == 408 || status == 429 || 500 <= status <= 599,
    ensures
        classified(status, body) == (ClassView::Retry {
            reason: match status {
                408 => "请求超时"@,
                429 => "账号限流"@,
                500 => "服务端内部错误"@,
                502 => "网关错误"@,
                503 => "服务暂不可用"@,
                504 => "网关超时"@,
                529 => "集群过载"@,
                _ => "服务端错误"@,
            },
        }),
{
}

/// What a refusal is told with: what to check where the status says it, otherwise the
/// status and what the service says.
pub proof fn lemma_refusal_told(status: u16, body: Seq<char>)
    ensures
        status == 401 ==> classified(status, body) == ClassView::Fail(
            "API Key 无效或已过期，请在「设置」里检查"@,
        ),
        status == 403 ==> classified(status, body) == ClassView::Fail(
            "无权限访问（API Key 权限不足或被禁用）"@,
        ),
        status == 404 ==> classified(status, body) == ClassView::Fail(
            "模型或端点不存在，请检查「设置 → 模型」"@,
        ),
        status == 413 ==> classified(status, body) == ClassView::Fail(
            "请求体过大（历史太长或附件太大），请开新会话或精简内容"@,
        ),
        status == 400 && crate::cut::byte_len(body) <= 300 ==> classified(status, body)
            == ClassView::Fail("请求参数错误（HTTP "@ + dec(status as nat) + "）: "@ + body),
        !(400 <= status <= 599) && crate::cut::byte_len(body) <= 600 ==> classified(status, body)
            == ClassView::Fail("LLM HTTP "@ + dec(status as nat) + ": "@ + body),
        status == 408 ==> classified(status, body) == (ClassView::Retry { reason: "请求超时"@ }),
        status == 429 ==> classified(status, body) == (ClassView::Retry { reason: "账号限流"@ }),
        status == 529 ==> classified(status, body) == (ClassView::Retry { reason: "集群过载"@ }),
{
}

/// The wait that the service asks for is the number of seconds in its header.
pub proof fn lemma_asked_wait(n: u64)
    ensures
        asked_wait(Some(dec(n as nat))) == Some(n as nat),
        asked_wait(None) is None,
{
    let s = dec(n as nat);
    crate::decimal::lemma_dec_reads_back(n as nat);
    crate::decimal::lemma_write_read(n);
    lemma_no_white(s);
}

proof fn lemma_no_white(s: Seq<char>)
    requires
        s.len() > 0,
        crate::decimal::all_digits(s),
    ensures
        crate::text::trim(s) == s,
{
    assert(crate::decimal::is_digit(s[0]));
    assert(crate::decimal::is_digit(s[s.len() - 1]));
    assert(!crate::text::is_white(s[0]));
    assert(!crate::text::is_white(s.last()));
}

// ---------------------------------------------------------------------------
// Stand-ins
// ---------------------------------------------------------------------------

/// How many of the messages are tools' results.
pub open spec fn results_in(msgs: Seq<JsonView>) -> nat {
    msgs.filter(|m: JsonView| says(m, "role"@, "tool"@)).len()
}

proof fn lemma_results_in(msgs: Seq<JsonView>)
    ensures
        tool_count(msgs) == results_in(msgs),
    decreases msgs.len(),
{
    reveal(Seq::filter);
    if msgs.len() > 0 {
        lemma_results_in(msgs.drop_last());
        assert(is_tool(msgs.last()) == says(msgs.last(), "role"@, "tool"@));
    }
}

/// A tool's result is sent as it is at level 0; at level 1 the newer half of the
/// results, and from level 2 on all of them, have a stand-in, under the same id.
pub proof fn lemma_results_replaced(
    msgs: Seq<JsonView>,
    level: nat,
    i: int,
    id: Seq<char>,
    result: Seq<char>,
)
    requires
        0 <= i < msgs.len(),
        is_answer(msgs[i], id, result),
        level <= 3,
    ensures
        ({
            let out = stub_messages(msgs, level);
            &&& out.len() == msgs.len()
            &&& level == 0 ==> out[i] == msgs[i]
            &&& level == 1 && results_in(msgs.take(i)) < results_in(msgs) / 2 ==> out[i] == msgs[i]
            &&& level == 1 && results_in(msgs.take(i)) >= results_in(msgs) / 2 ==> is_answer(
                out[i],
                id,
                crate::purify::TOOL_RESULT_STUB@,
            )
            &&& level >= 2 ==> is_answer(out[i], id, crate::purify::TOOL_RESULT_STUB@)
        }),
{
    lemma_members();
    lemma_results_in(msgs);
    lemma_results_in(msgs.take(i));
    assert(is_tool(msgs[i]));
}

/// What the user says and what the system says is sent as it is at every level that
/// leaves nothing out; so is what the assistant says below the third, and above it
/// where it calls nothing.
pub proof fn lemma_others_sent(msgs: Seq<JsonView>, level: nat, i: int)
    requires
        0 <= i < msgs.len(),
        level <= 3,
        !says(msgs[i], "role"@, "tool"@),
        says(msgs[i], "role"@, "assistant"@) && list_in(msgs[i], "tool_calls"@).len() > 0
            ==> level < 3,
        list_in(msgs[i], "tool_calls"@).len() == 0 ==> lacks(msgs[i], "tool_calls"@),
    ensures
        stub_messages(msgs, level)[i] == msgs[i],
{
    lemma_members();
    assert(!is_tool(msgs[i]));
}

/// From the third level on every call has a stand-in for its arguments, and keeps its id
/// and its name.
pub proof fn lemma_args_replaced(
    msgs: Seq<JsonView>,
    i: int,
    k: int,
    id: Seq<char>,
    name: Seq<char>,
    args: Seq<char>,
)
    requires
        0 <= i < msgs.len(),
        says(msgs[i], "role"@, "assistant"@),
        0 <= k < list_in(msgs[i], "tool_calls"@).len(),
        is_call(list_in(msgs[i], "tool_calls"@)[k], id, name, args),
    ensures
        ({
            let out = stub_messages(msgs, 3)[i];
            &&& says(out, "role"@, "assistant"@)
            &&& list_in(out, "tool_calls"@).len() == list_in(msgs[i], "tool_calls"@).len()
            &&& is_call(
                list_in(out, "tool_calls"@)[k],
                id,
                name,
                crate::purify::TOOL_CALL_ARGS_STUB@,
            )
        }),
{
    lemma_members();
    let calls = list_in(msgs[i], "tool_calls"@);
    assert(calls_of(msgs[i]) == Some(calls));
    let out = stub_messages(msgs, 3)[i];
    assert(list_in(out, "tool_calls"@) == calls.map_values(|c: JsonView| stub_call(c)));
    assert(list_in(out, "tool_calls"@)[k] == stub_call(calls[k]));
}

proof fn lemma_last_places(msgs: Seq<JsonView>, p: int, q: int)
    requires
        0 <= p < q < msgs.len(),
        says(msgs[p], "role"@, "user"@),
        says(msgs[q], "role"@, "user"@),
        forall|k: int|
            p < k < msgs.len() && k != q ==> !says(#[trigger] msgs[k], "role"@, "user"@),
    ensures
        user_places(msgs).len() >= 2,
        user_places(msgs)[user_places(msgs).len() - 2] == p,
        user_places(msgs) == user_places(msgs.take(p)).push(p).push(q),
    decreases msgs.len(),
{
    let t = msgs.drop_last();
    if q == msgs.len() - 1 {
        lemma_last_place(t, p);
    } else {
        assert(!says(msgs[msgs.len() - 1], "role"@, "user"@));
        assert(t[p] == msgs[p] && t[q] == msgs[q]);
        assert forall|k: int| p < k < t.len() && k != q implies !says(
            #[trigger] t[k],
            "role"@,
            "user"@,
        ) by {
            assert(t[k] == msgs[k]);
        }
        lemma_last_places(t, p, q);
        assert(t.take(p) =~= msgs.take(p));
    }
    assert(q == msgs.len() - 1 ==> t.take(p) =~= msgs.take(p));
}

proof fn lemma_last_place(msgs: Seq<JsonView>, p: int)
    requires
        0 <= p < msgs.len(),
        says(msgs[p], "role"@, "user"@),
        forall|k: int| p < k < msgs.len() ==> !says(#[trigger] msgs[k], "role"@, "user"@),
    ensures
        user_places(msgs) == user_places(msgs.take(p)).push(p),
    decreases msgs.len(),
{
    let t = msgs.drop_last();
    if p == msgs.len() - 1 {
        assert(t =~= msgs.take(p));
    } else {
        assert(!says(msgs[msgs.len() - 1], "role"@, "user"@));
        assert(t[p] == msgs[p]);
        assert forall|k: int| p < k < t.len() implies !says(#[trigger] t[k], "role"@, "user"@) by {
            assert(t[k] == msgs[k]);
        }
        lemma_last_place(t, p);
        assert(t.take(p) =~= msgs.take(p));
    }
}

proof fn lemma_some_place(msgs: Seq<JsonView>, r: int)
    requires
        0 <= r < msgs.len(),
        says(msgs[r], "role"@, "user"@),
    ensures
        user_places(msgs).len() > 0,
    decreases msgs.len(),
{
    if r < msgs.len() - 1 {
        assert(msgs.drop_last()[r] == msgs[r]);
        lemma_some_place(msgs.drop_last(), r);
    }
}

/// At the fourth level what is sent is the first message and what follows from the last
/// message but one of the user's on, with all stand-ins, paired anew.
pub proof fn lemma_last_turns_sent(msgs: Seq<JsonView>, r: int, p: int, q: int)
    requires
        0 <= r < p < q < msgs.len(),
        says(msgs[r], "role"@, "user"@),
        says(msgs[p], "role"@, "user"@),
        says(msgs[q], "role"@, "user"@),
        forall|k: int|
            p < k < msgs.len() && k != q ==> !says(#[trigger] msgs[k], "role"@, "user"@),
    ensures
        ({
            let all = stub_messages(msgs, 3);
            stub_messages(msgs, 4) == stripped(seq![all[0]] + all.skip(p))
        }),
{
    lemma_members();
    let all = stub_all(msgs, 4);
    let three = stub_all(msgs, 3);
    assert forall|i: int| 0 <= i < msgs.len() implies all[i] == three[i] by {}
    assert(all =~= three);
    assert forall|k: int| 0 <= k < msgs.len() implies says(#[trigger] all[k], "role"@, "user"@)
        == says(msgs[k], "role"@, "user"@) by {
        crate::purify::lemma_stubs_alike(msgs, 4);
        assert(crate::purify::pairs_alike(msgs[k], all[k]));
    }
    lemma_last_places(all, p, q);
    let u = all.take(p);
    assert(u[r] == all[r]);
    lemma_some_place(u, r);
}

/// What the filter refused before is not sent again: a result or arguments whose hash is
/// known have the stand-in, and everything else stays.
pub proof fn lemma_known_replaced(
    known: Set<u64>,
    msgs: Seq<JsonView>,
    i: int,
    id: Seq<char>,
    result: Seq<char>,
)
    requires
        0 <= i < msgs.len(),
        is_answer(msgs[i], id, result),
    ensures
        screened(known, msgs).len() == msgs.len(),
        known.contains(hash_of(result)) ==> is_answer(
            screened(known, msgs)[i],
            id,
            crate::purify::TOOL_RESULT_STUB@,
        ),
        !known.contains(hash_of(result)) ==> screened(known, msgs)[i] == msgs[i],
{
    lemma_members();
}

/// Arguments that the filter refused before are replaced in their call, which keeps its
/// id and its name; others stay.
pub proof fn lemma_known_args_replaced(
    known: Set<u64>,
    c: JsonView,
    id: Seq<char>,
    name: Seq<char>,
    args: Seq<char>,
)
    requires
        is_call(c, id, name, args),
    ensures
        known.contains(hash_of(args)) ==> is_call(
            screen_call(known, c),
            id,
            name,
            crate::purify::TOOL_CALL_ARGS_STUB@,
        ),
        !known.contains(hash_of(args)) ==> screen_call(known, c) == c,
{
    lemma_members();
}

/// What the user and the system say is never replaced, whatever is known.
pub proof fn lemma_said_is_not_screened(known: Set<u64>, msgs: Seq<JsonView>, i: int)
    requires
        0 <= i < msgs.len(),
        !says(msgs[i], "role"@, "tool"@),
        !says(msgs[i], "role"@, "assistant"@) || lacks(msgs[i], "tool_calls"@),
    ensures
        screened(known, msgs)[i] == msgs[i],
{
    assert(!is_tool(msgs[i]));
    assert(calls_of(msgs[i]) is None);
}

// ---------------------------------------------------------------------------
// Messages of the user
// ---------------------------------------------------------------------------

/// The names of members of parts differ.
proof fn lemma_part_names()
    ensures
        "type"@ != "text"@,
        "type"@ != "path"@,
        "text"@ != "path"@,
        "type"@ != "image_url"@,
        "type"@ != "video_url"@,
        "image_url"@ != "video_url"@,
        "text"@ != "image_ref"@,
        "text"@ != "video_ref"@,
        "image_ref"@ != "video_ref"@,
        "image"@ != "video"@,
{
    reveal_strlit("type");
    reveal_strlit("text");
    reveal_strlit("path");
    reveal_strlit("image_url");
    reveal_strlit("video_url");
    reveal_strlit("image_ref");
    reveal_strlit("video_ref");
    reveal_strlit("image");
    reveal_strlit("video");
    assert("type"@.len() == 4 && "text"@.len() == 4 && "path"@.len() == 4);
    assert("type"@[1] == 'y' && "text"@[1] == 'e' && "path"@[1] == 'a');
    assert("image_url"@.len() == 9 && "video_url"@.len() == 9);
    assert("image_ref"@.len() == 9 && "video_ref"@.len() == 9);
    assert("image_url"@[0] == 'i' && "video_url"@[0] == 'v');
    assert("image_ref"@[0] == 'i' && "video_ref"@[0] == 'v');
    assert("image"@[0] == 'i' && "video"@[0] == 'v');
}

/// The part that stands for an attachment: a picture or a video is referred to by its
/// path; of a text all that was read of it stands behind its path, of a document as much
/// as fits into its bound.
pub open spec fn stands_for(x: JsonView, a: AttachmentView, files: Seq<LoadedView>) -> bool {
    &&& a.kind == "image"@ ==> says(x, "type"@, "image_ref"@) && says(x, "path"@, a.staged_path)
    &&& a.kind == "video"@ ==> says(x, "type"@, "video_ref"@) && says(x, "path"@, a.staged_path)
    &&& a.kind == "text"@ || a.kind == "markdown"@ || a.kind == "csv"@ ==> says(
        x,
        "type"@,
        "text"@,
    ) && says(
        x,
        "text"@,
        "[用户上传了 "@ + a.staged_path + "]\n"@ + match loaded_text(files, a.staged_path, a.kind) {
            Some(t) => t,
            None => Seq::empty(),
        },
    )
    &&& a.kind == "pdf"@ || a.kind == "docx"@ ==> says(x, "type"@, "text"@) && match loaded_text(
        files,
        a.staged_path,
        a.kind,
    ) {
        Some(t) => if is_blank(t) {
            tells_path(x, a.staged_path)
        } else {
            exists|kept: Seq<char>|
                tells_document(x, a, kept) && (byte_len(t) <= 204800 ==> kept == t) && (byte_len(t)
                    > 204800 ==> starts_with(kept, head_within(t, 204800)))
        },
        None => tells_path(x, a.staged_path),
    }
}

/// A part that is a text with a path in it.
pub open spec fn tells_path(x: JsonView, path: Seq<char>) -> bool {
    super::text_in(x, "text"@) matches Some(t) && contains(t, path)
}

/// A part that is the text of a document behind its path and its kind.
pub open spec fn tells_document(x: JsonView, a: AttachmentView, kept: Seq<char>) -> bool {
    says(x, "text"@, "[用户上传了 "@ + a.staged_path + " ("@ + a.kind + ")]\n"@ + kept)
}

proof fn lemma_document_part(a: AttachmentView, files: Seq<LoadedView>)
    requires
        a.kind == "pdf"@ || a.kind == "docx"@,
    ensures
        stands_for(attachment_part(a, files), a, files),
{
    lemma_members();
    lemma_part_names();
    lemma_kinds(a.kind);
    let x = attachment_part(a, files);
    match loaded_text(files, a.staged_path, a.kind) {
        Some(t) if !is_blank(t) => {
            let kept = doc_text_capped(t);
            let head = head_within(t, 204800);
            assert(tells_document(x, a, kept));
            if byte_len(t) > 204800 {
                let n = head.len() as int;
                assert(kept.subrange(0, n) =~= head);
            }
        },
        _ => {
            let p = "[用户上传了 "@;
            let text = attachment_note(a, files);
            let n = p.len() as int;
            assert(text.subrange(n, n + a.staged_path.len()) =~= a.staged_path);
            assert(occurs_at(text, a.staged_path, n));
        },
    }
}

/// What the user says is one text when nothing is attached; otherwise it is the text, if
/// there is any, and behind it one part for each attachment, in their order.
pub proof fn lemma_user_message(text: Seq<char>, atts: Seq<AttachmentView>, files: Seq<LoadedView>, i: int)
    ensures
        ({
            let m = user_message(text, atts, files);
            let parts = list_in(m, "content"@);
            let n: int = if text.len() == 0 {
                0
            } else {
                1
            };
            &&& says(m, "role"@, "user"@)
            &&& atts.len() == 0 ==> is_saying(m, "user"@, text)
            &&& atts.len() > 0 && text.len() > 0 ==> parts.len() == 1 + atts.len() && says(
                parts[0],
                "type"@,
                "text"@,
            ) && says(parts[0], "text"@, text)
            &&& text.len() > 0 && 0 <= i < atts.len() ==> stands_for(parts[n + i], atts[i], files)
        }),
{
    lemma_members();
    lemma_part_names();
    let parts = user_parts(text, atts, files);
    let head = if text.len() == 0 {
        Seq::<JsonView>::empty()
    } else {
        seq![crate::llm::text_part(text)]
    };
    let tail = atts.map_values(|a: AttachmentView| attachment_part(a, files));
    assert(parts == head + tail);
    if atts.len() == 0 {
        assert(parts =~= head);
    }
    if 0 <= i < atts.len() {
        assert(tail[i] == attachment_part(atts[i], files));
        lemma_kinds(atts[i].kind);
        if atts[i].kind == "pdf"@ || atts[i].kind == "docx"@ {
            lemma_document_part(atts[i], files);
        }
    }
}

/// Pictures alone are sent as references, one for each, in their order.
pub proof fn lemma_pictures_alone(atts: Seq<AttachmentView>, files: Seq<LoadedView>, i: int)
    requires
        0 <= i < atts.len(),
        forall|k: int| 0 <= k < atts.len() ==> (#[trigger] atts[k]).kind == "image"@,
    ensures
        ({
            let parts = list_in(user_message(Seq::empty(), atts, files), "content"@);
            parts.len() == atts.len() && stands_for(parts[i], atts[i], files)
        }),
{
    lemma_members();
    lemma_part_names();
    let none = Seq::<char>::empty();
    let parts = user_parts(none, atts, files);
    let tail = atts.map_values(|a: AttachmentView| attachment_part(a, files));
    assert(parts =~= tail);
    assert(atts[0].kind == "image"@ && atts[i].kind == "image"@);
    assert(says(tail[0], "type"@, "image_ref"@));
    assert(says(crate::llm::text_part(none), "type"@, "text"@));
    lemma_kinds(atts[i].kind);
}

proof fn lemma_kinds(kind: Seq<char>)
    ensures
        kind == "image"@ || kind == "video"@ ==> kind != "text"@ && kind != "markdown"@ && kind
            != "csv"@ && kind != "pdf"@ && kind != "docx"@,
        kind == "text"@ || kind == "markdown"@ || kind == "csv"@ ==> kind != "pdf"@ && kind
            != "docx"@,
{
    reveal_strlit("image");
    reveal_strlit("video");
    reveal_strlit("text");
    reveal_strlit("markdown");
    reveal_strlit("csv");
    reveal_strlit("pdf");
    reveal_strlit("docx");
    assert("image"@.len() == 5 && "video"@.len() == 5 && "text"@.len() == 4);
    assert("markdown"@.len() == 8 && "csv"@.len() == 3 && "pdf"@.len() == 3);
    assert("docx"@.len() == 4 && "docx"@[0] == 'd' && "text"@[0] == 't');
    assert("csv"@[0] == 'c' && "pdf"@[0] == 'p');
}

/// What was read of a file is found by its path and kind; the first reading counts.
pub proof fn lemma_loaded_found(v: Seq<LoadedView>, i: int)
    requires
        0 <= i < v.len(),
        forall|k: int|
            0 <= k < i ==> !((#[trigger] v[k]).path == v[i].path && v[k].kind == v[i].kind),
    ensures
        loaded_text(v, v[i].path, v[i].kind) == v[i].text,
    decreases v.len(),
{
    if i > 0 {
        let t = v.skip(1);
        assert(!(v[0].path == v[i].path && v[0].kind == v[i].kind));
        assert(t[i - 1] == v[i]);
        assert forall|k: int| 0 <= k < i - 1 implies !((#[trigger] t[k]).path == t[i - 1].path
            && t[k].kind == t[i - 1].kind) by {
            assert(t[k] == v[k + 1]);
        }
        lemma_loaded_found(t, i - 1);
    }
}

// ---------------------------------------------------------------------------
// Sending
// ---------------------------------------------------------------------------

/// How many of the parts refer to a file.
pub open spec fn refs_in(parts: Seq<JsonView>) -> nat {
    parts.filter(
        |p: JsonView| says(p, "type"@, "image_ref"@) || says(p, "type"@, "video_ref"@),
    ).len()
}

/// A part with a file in it: its URL holds the bytes, encoded.
pub open spec fn carries(x: JsonView, p: JsonView, bytes: Seq<u8>) -> bool {
    let key = if says(p, "type"@, "image_ref"@) {
        "image_url"@
    } else {
        "video_url"@
    };
    &&& says(x, "type"@, key)
    &&& x matches JsonView::Obj(f) && f.contains_key(key) && (text_at_url(f[key]) matches Some(url)
        && exists|mime: Seq<char>|
        url == #[trigger] data_url(mime, crate::llm::base64_text(bytes)))
}

/// The text under `url`.
pub open spec fn text_at_url(o: JsonView) -> Option<Seq<char>> {
    super::text_in(o, "url"@)
}

/// A URL that holds data.
pub open spec fn data_url(mime: Seq<char>, encoded: Seq<char>) -> Seq<char> {
    "data:"@ + mime + ";base64,"@ + encoded
}

proof fn lemma_parts_sent(
    used: nat,
    total: u64,
    parts: Seq<JsonView>,
    reads: Seq<MediaReadView>,
    j: int,
)
    requires
        0 <= j < parts.len() || parts.len() == 0,
    ensures
        ({
            let st = Expansion::Going { out: Seq::empty(), used, total };
            expand_parts(st, parts, reads) matches Expansion::Going { out, used: u, .. } ==> {
                &&& out.len() == parts.len()
                &&& u == used + refs_in(parts)
                &&& parts.len() > 0 && !is_media_ref(parts[j]) ==> out[j] == parts[j]
                &&& parts.len() > 0 && is_media_ref(parts[j]) ==> (reads[(used + refs_in(
                    parts.take(j),
                )) as int] matches MediaReadView::Bytes(b) && carries(out[j], parts[j], b))
            }
        }),
    decreases parts.len(),
{
    reveal(Seq::filter);
    lemma_part_names();
    let f = |p: JsonView| says(p, "type"@, "image_ref"@) || says(p, "type"@, "video_ref"@);
    let st = Expansion::Going { out: Seq::empty(), used, total };
    if parts.len() > 0 {
        let t = parts.drop_last();
        let p = parts.last();
        assert(is_media_ref(p) == f(p));
        if j < t.len() {
            lemma_parts_sent(used, total, t, reads, j);
            assert(t[j] == parts[j]);
            assert(t.take(j) =~= parts.take(j));
        } else {
            lemma_parts_sent(used, total, t, reads, 0);
            assert(parts.take(j) =~= t);
        }
        if let Expansion::Going { out, used: u, total: sum } = expand_parts(st, t, reads) {
            if is_media_ref(p) {
                if let MediaReadView::Bytes(b) = reads[u as int] {
                    let path = p.text_at("path"@);
                    let mime = crate::files::mime_of(crate::files::ext_of(path));
                    let x = crate::llm::media_part(p.text_at("type"@), path, b);
                    let url = data_url(mime, crate::llm::base64_text(b));
                    reveal_strlit("url");
                    assert(carries(x, p, b)) by {
                        let key = if says(p, "type"@, "image_ref"@) {
                            "image_url"@
                        } else {
                            "video_url"@
                        };
                        let g = x->Obj_0;
                        assert(text_at_url(g[key]) == Some(url));
                    }
                }
            }
        }
    }
}

/// A message without references is sent as it is, and no message is left out or put in.
pub proof fn lemma_messages_sent(msgs: Seq<JsonView>, reads: Seq<MediaReadView>, i: int)
    requires
        0 <= i < msgs.len(),
    ensures
        expand_all(msgs, reads) matches Expansion::Going { out, .. } ==> {
            &&& out.len() == msgs.len()
            &&& !has_media(msgs[i]) ==> out[i] == msgs[i]
        },
    decreases msgs.len(),
{
    lemma_sent_len(msgs.drop_last(), reads);
    if i < msgs.len() - 1 {
        let t = msgs.drop_last();
        assert(t[i] == msgs[i]);
        lemma_messages_sent(t, reads, i);
    }
}

proof fn lemma_sent_len(msgs: Seq<JsonView>, reads: Seq<MediaReadView>)
    ensures
        expand_all(msgs, reads) matches Expansion::Going { out, .. } ==> out.len() == msgs.len(),
    decreases msgs.len(),
{
    if msgs.len() > 0 {
        lemma_sent_len(msgs.drop_last(), reads);
    }
}

/// In a message with pictures every reference is sent as the file that was read for it:
/// the files are used in the order of the references. The text and everything else in
/// the message stays.
pub proof fn lemma_pictures_sent(m: JsonView, reads: Seq<MediaReadView>, j: int)
    requires
        says(m, "role"@, "user"@),
        has_media(m),
        0 <= j < list_in(m, "content"@).len(),
    ensures
        expand_all(seq![m], reads) matches Expansion::Going { out, .. } ==> {
            let parts = list_in(m, "content"@);
            let sent = list_in(out[0], "content"@);
            &&& out.len() == 1
            &&& says(out[0], "role"@, "user"@)
            &&& sent.len() == parts.len()
            &&& !is_media_ref(parts[j]) ==> sent[j] == parts[j]
            &&& is_media_ref(parts[j]) ==> (reads[refs_in(parts.take(j)) as int]
                matches MediaReadView::Bytes(b) && carries(sent[j], parts[j], b))
        },
{
    lemma_members();
    reveal_with_fuel(expand_all, 2);
    assert(seq![m].drop_last() =~= Seq::<JsonView>::empty());
    assert(seq![m].last() == m);
    lemma_parts_sent(0, 0, list_in(m, "content"@), reads, j);
}

/// A request asks the model that is set for an answer to the messages, with the tools,
/// as a stream that tells its usage.
pub proof fn lemma_request(model: Seq<char>, msgs: Seq<JsonView>, tools: Seq<JsonView>)
    ensures
        ({
            let b = request_body(model, msgs, tools);
            &&& says(b, "model"@, model)
            &&& holds(b, "messages"@, JsonView::Arr(msgs))
            &&& holds(b, "tools"@, JsonView::Arr(tools))
            &&& says(b, "tool_choice"@, "auto"@)
            &&& holds(b, "stream"@, JsonView::Bool(true))
            &&& holds(b, "reasoning_split"@, JsonView::Bool(true))
            &&& b matches JsonView::Obj(f) && f.contains_key("stream_options"@) && holds(
                f["stream_options"@],
                "include_usage"@,
                JsonView::Bool(true),
            )
        }),
{
    reveal_strlit("model");
    reveal_strlit("messages");
    reveal_strlit("tools");
    reveal_strlit("tool_choice");
    reveal_strlit("reasoning_split");
    reveal_strlit("stream");
    reveal_strlit("stream_options");
    assert("model"@.len() == 5 && "messages"@.len() == 8 && "tools"@.len() == 5);
    assert("tool_choice"@.len() == 11 && "reasoning_split"@.len() == 15);
    assert("stream"@.len() == 6 && "stream_options"@.len() == 14);
    assert("model"@[0] == 'm' && "tools"@[0] == 't');
}

/// What was known to be refused stays known, and what is read from the list is known too;
/// a list that cannot be read changes nothing.
pub proof fn lemma_list_read(set: Set<u64>, text: Seq<char>, n: u64)
    ensures
        set.contains(n) ==> after_load(set, text).contains(n),
        numbers_read(text) matches Some(v) ==> (after_load(set, text).contains(n) <==> set.contains(
            n,
        ) || v.contains(n)),
        numbers_read(text) is None ==> after_load(set, text) == set,
{
}

/// A file is sent while all that is sent, encoded, fits into fifty-eight megabytes, and
/// from then on nothing is; one that cannot be read stops the request, and what is no
/// file goes as it stands.
pub proof fn lemma_files_bounded(
    out: Seq<JsonView>,
    used: nat,
    total: u64,
    p: JsonView,
    bytes: Seq<u8>,
    why: Seq<char>,
    reads: Seq<MediaReadView>,
)
    requires
        used < reads.len(),
    ensures
        ({
            let st = Expansion::Going { out, used, total };
            let media = says(p, "type"@, "image_ref"@) || says(p, "type"@, "video_ref"@);
            let sum = total + byte_len(crate::llm::base64_text(bytes));
            let next = expand_part(st, p, reads);
            &&& media && reads[used as int] == MediaReadView::Bytes(bytes) ==> {
                &&& sum <= 58 * 1024 * 1024 ==> (next matches Expansion::Going {
                    out: o,
                    used: u,
                    total: n,
                } && o.len() == out.len() + 1 && u == used + 1 && n == sum)
                &&& sum > 58 * 1024 * 1024 ==> next is Failed
            }
            &&& media && reads[used as int] == MediaReadView::Failed(why) ==> (
            next matches Expansion::Failed(e) && contains(e, why))
            &&& !media ==> next == (Expansion::Going { out: out.push(p), used, total })
        }),
{
    lemma_members();
    lemma_part_names();
    let media = says(p, "type"@, "image_ref"@) || says(p, "type"@, "video_ref"@);
    assert(is_media_ref(p) == media);
    if media && reads[used as int] == MediaReadView::Failed(why) {
        let head = "附件文件已丢失，请重新添加: "@ + p.text_at("path"@) + ": "@;
        let e = Seq::<char>::empty();
        super::lemma_within(head, why, e);
        assert(head + why + e =~= head + why);
    }
}

} // verus!
