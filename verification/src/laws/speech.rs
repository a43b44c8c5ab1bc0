//! What is sent to the speech service holds the sound and the keys, and what comes back
//! is put together in order.
use super::{lemma_contains_head, lemma_contains_tail, lemma_within};
use crate::baidu::asr::{request_text, ShortAsrRequest};
use crate::baidu::auth::{keeps, token_address, usable_token, CachedToken, TokenResponse};
use crate::baidu::errors::{error_message, short_meaning, ErrorView};
use crate::decimal::{dec, dec_int};
use crate::lines::join;
use crate::text::{contains, starts_with};
use crate::wire::quoted;
use vstd::prelude::*;

verus! {

/// A text that is an object in which a member with a value is written.
pub open spec fn writes(text: Seq<char>, member: Seq<char>, value: Seq<char>) -> bool {
    contains(text, "\""@ + member + "\":"@ + value)
}

proof fn lemma_grouped(a: Seq<char>, b: Seq<char>, c: Seq<char>)
    ensures
        a + (b + c) == a + b + c,
{
    assert(a + (b + c) =~= a + b + c);
}

proof fn lemma_written(
    a: Seq<char>,
    sep: Seq<char>,
    member: Seq<char>,
    value: Seq<char>,
    open: Seq<char>,
)
    requires
        sep == open + ("\""@ + member + "\":"@),
    ensures
        writes(a + sep + value, member, value),
{
    let m = "\""@ + member + "\":"@;
    let e = Seq::<char>::empty();
    lemma_within(e, m + value, e);
    assert(e + (m + value) + e =~= m + value);
    lemma_contains_tail(a + open, m + value, m + value);
    lemma_grouped(a, open, m);
    lemma_grouped(a + open, m, value);
}

proof fn lemma_member_names()
    ensures
        "{\"format\":"@ == "{"@ + ("\""@ + "format"@ + "\":"@),
        ",\"rate\":"@ == ","@ + ("\""@ + "rate"@ + "\":"@),
        ",\"channel\":"@ == ","@ + ("\""@ + "channel"@ + "\":"@),
        ",\"cuid\":"@ == ","@ + ("\""@ + "cuid"@ + "\":"@),
        ",\"token\":"@ == ","@ + ("\""@ + "token"@ + "\":"@),
        ",\"speech\":"@ == ","@ + ("\""@ + "speech"@ + "\":"@),
        ",\"len\":"@ == ","@ + ("\""@ + "len"@ + "\":"@),
        ",\"dev_pid\":"@ == ","@ + ("\""@ + "dev_pid"@ + "\":"@),
{
    reveal_strlit("\"");
    reveal_strlit("\":");
    reveal_strlit("{");
    reveal_strlit(",");
    reveal_strlit("format");
    reveal_strlit("rate");
    reveal_strlit("channel");
    reveal_strlit("cuid");
    reveal_strlit("token");
    reveal_strlit("speech");
    reveal_strlit("len");
    reveal_strlit("dev_pid");
    reveal_strlit("{\"format\":");
    reveal_strlit(",\"rate\":");
    reveal_strlit(",\"channel\":");
    reveal_strlit(",\"cuid\":");
    reveal_strlit(",\"token\":");
    reveal_strlit(",\"speech\":");
    reveal_strlit(",\"len\":");
    reveal_strlit(",\"dev_pid\":");
    assert("{\"format\":"@ =~= "{"@ + ("\""@ + "format"@ + "\":"@));
    assert(",\"rate\":"@ =~= ","@ + ("\""@ + "rate"@ + "\":"@));
    assert(",\"channel\":"@ =~= ","@ + ("\""@ + "channel"@ + "\":"@));
    assert(",\"cuid\":"@ =~= ","@ + ("\""@ + "cuid"@ + "\":"@));
    assert(",\"token\":"@ =~= ","@ + ("\""@ + "token"@ + "\":"@));
    assert(",\"speech\":"@ =~= ","@ + ("\""@ + "speech"@ + "\":"@));
    assert(",\"len\":"@ =~= ","@ + ("\""@ + "len"@ + "\":"@));
    assert(",\"dev_pid\":"@ =~= ","@ + ("\""@ + "dev_pid"@ + "\":"@));
}

/// A request holds the sound, how much of it there is, what it is, who sends it and the
/// token, each under its name.
pub proof fn lemma_speech_sent(r: ShortAsrRequest)
    ensures
        ({
            let t = request_text(r);
            &&& writes(t, "format"@, quoted(r.format@))
            &&& writes(t, "rate"@, dec(r.rate as nat))
            &&& writes(t, "channel"@, dec(r.channel as nat))
            &&& writes(t, "cuid"@, quoted(r.cuid@))
            &&& writes(t, "token"@, quoted(r.token@))
            &&& writes(t, "speech"@, quoted(r.speech@))
            &&& writes(t, "len"@, dec(r.len as nat))
            &&& writes(t, "dev_pid"@, dec_int(r.dev_pid as int))
        }),
{
    lemma_member_names();
    let e = Seq::<char>::empty();
    let a1 = "{\"format\":"@ + quoted(r.format@);
    let s2 = a1 + ",\"rate\":"@;
    let a2 = s2 + dec(r.rate as nat);
    let s3 = a2 + ",\"channel\":"@;
    let a3 = s3 + dec(r.channel as nat);
    let s4 = a3 + ",\"cuid\":"@;
    let a4 = s4 + quoted(r.cuid@);
    let s5 = a4 + ",\"token\":"@;
    let a5 = s5 + quoted(r.token@);
    let s6 = a5 + ",\"speech\":"@;
    let a6 = s6 + quoted(r.speech@);
    let s7 = a6 + ",\"len\":"@;
    let a7 = s7 + dec(r.len as nat);
    let s8 = a7 + ",\"dev_pid\":"@;
    let a8 = s8 + dec_int(r.dev_pid as int);
    let t = a8 + "}"@;
    assert(t == request_text(r));
    lemma_written(e, "{\"format\":"@, "format"@, quoted(r.format@), "{"@);
    assert(e + "{\"format\":"@ + quoted(r.format@) =~= a1);
    lemma_written(a1, ",\"rate\":"@, "rate"@, dec(r.rate as nat), ","@);
    lemma_written(a2, ",\"channel\":"@, "channel"@, dec(r.channel as nat), ","@);
    lemma_written(a3, ",\"cuid\":"@, "cuid"@, quoted(r.cuid@), ","@);
    lemma_written(a4, ",\"token\":"@, "token"@, quoted(r.token@), ","@);
    lemma_written(a5, ",\"speech\":"@, "speech"@, quoted(r.speech@), ","@);
    lemma_written(a6, ",\"len\":"@, "len"@, dec(r.len as nat), ","@);
    lemma_written(a7, ",\"dev_pid\":"@, "dev_pid"@, dec_int(r.dev_pid as int), ","@);
    lemma_stays(a1, ",\"rate\":"@, dec(r.rate as nat));
    lemma_stays(a2, ",\"channel\":"@, dec(r.channel as nat));
    lemma_stays(a3, ",\"cuid\":"@, quoted(r.cuid@));
    lemma_stays(a4, ",\"token\":"@, quoted(r.token@));
    lemma_stays(a5, ",\"speech\":"@, quoted(r.speech@));
    lemma_stays(a6, ",\"len\":"@, dec(r.len as nat));
    lemma_stays(a7, ",\"dev_pid\":"@, dec_int(r.dev_pid as int));
    lemma_stays(a8, "}"@, e);
    assert(a8 + "}"@ + e =~= t);
}

proof fn lemma_stays(a: Seq<char>, b: Seq<char>, c: Seq<char>)
    ensures
        forall|m: Seq<char>, v: Seq<char>|
            writes(a, m, v) ==> #[trigger] writes(a + b + c, m, v),
{
    assert forall|m: Seq<char>, v: Seq<char>| writes(a, m, v) implies #[trigger] writes(
        a + b + c,
        m,
        v,
    ) by {
        lemma_contains_head(a, b, "\""@ + m + "\":"@ + v);
        lemma_contains_head(a + b, c, "\""@ + m + "\":"@ + v);
    }
}

/// A token is asked for with both keys, each in its place.
pub proof fn lemma_keys_sent(api_key: Seq<char>, secret_key: Seq<char>)
    ensures
        contains(token_address(api_key, secret_key), "client_id="@ + api_key + "&"@),
        ({
            let tail = "&client_secret="@ + secret_key;
            let a = token_address(api_key, secret_key);
            tail.len() <= a.len() && a.skip(a.len() - tail.len()) == tail
        }),
{
    let a = token_address(api_key, secret_key);
    let p = "https://aip.baidubce.com/oauth/2.0/token?grant_type=client_credentials&"@;
    let q = "client_secret="@ + secret_key;
    reveal_strlit("https://aip.baidubce.com/oauth/2.0/token?grant_type=client_credentials&");
    reveal_strlit("https://aip.baidubce.com/oauth/2.0/token?grant_type=client_credentials&client_id=");
    reveal_strlit("client_id=");
    reveal_strlit("&");
    reveal_strlit("&client_secret=");
    reveal_strlit("client_secret=");
    assert("https://aip.baidubce.com/oauth/2.0/token?grant_type=client_credentials&client_id="@
        =~= p + "client_id="@);
    assert("&client_secret="@ =~= "&"@ + "client_secret="@);
    lemma_within(p, "client_id="@ + api_key + "&"@, q);
    assert(a =~= p + ("client_id="@ + api_key + "&"@) + q);
    let tail = "&client_secret="@ + secret_key;
    assert(a.skip(a.len() - tail.len()) =~= tail);
}

/// A token that was just given for so many seconds is used until an hour before they are
/// over, and not from then on.
pub proof fn lemma_token_lasts(
    cache: Option<CachedToken>,
    resp: TokenResponse,
    asked: u64,
    now: u64,
)
    requires
        keeps(cache, resp, asked),
        asked + resp.expires_in <= u64::MAX,
        asked <= now,
    ensures
        now + 3600 < asked + resp.expires_in ==> usable_token(cache, now) == Some(
            resp.access_token@,
        ),
        now + 3600 >= asked + resp.expires_in ==> usable_token(cache, now) is None,
        usable_token(None, now) is None,
{
}

/// What is heard in pieces is their texts, one behind the other.
pub proof fn lemma_pieces_joined(v: Seq<Seq<char>>, piece: Seq<char>)
    ensures
        join(v.push(piece), ""@) == join(v, ""@) + piece,
{
    reveal_strlit("");
    let w = v.push(piece);
    assert(w.drop_last() =~= v);
    assert(""@ =~= Seq::<char>::empty());
    assert(join(v, ""@) + ""@ =~= join(v, ""@));
    if v.len() == 0 {
        assert(Seq::<char>::empty() + piece =~= piece);
    }
}

/// An error of the service is told with its number and its message.
pub proof fn lemma_error_told(code: i64, message: Seq<char>)
    ensures
        contains(error_message(ErrorView::Api { code, message }), dec_int(code as int)),
        contains(error_message(ErrorView::Api { code, message }), message),
        contains(error_message(ErrorView::Auth { code, message }), dec_int(code as int)),
        contains(error_message(ErrorView::Auth { code, message }), message),
        contains(error_message(ErrorView::Http(message)), message),
        contains(error_message(ErrorView::Parse(message)), message),
        contains(error_message(ErrorView::Internal(message)), message),
{
    let e = Seq::<char>::empty();
    let d = dec_int(code as int);
    lemma_within(e, message, e);
    assert(e + message + e =~= message);
    lemma_within(e, d, e);
    assert(e + d + e =~= d);
    let api = "百度返回错误: code="@;
    let auth = "鉴权失败 (百度): code="@;
    lemma_contains_tail(api, d, d);
    lemma_contains_head(api + d, " "@, d);
    lemma_contains_head(api + d + " "@, message, d);
    lemma_contains_tail(api + d + " "@, message, message);
    lemma_contains_tail(auth, d, d);
    lemma_contains_head(auth + d, " "@, d);
    lemma_contains_head(auth + d + " "@, message, d);
    lemma_contains_tail(auth + d + " "@, message, message);
    lemma_contains_tail("网络请求失败: "@, message, message);
    lemma_contains_tail("解析响应失败: "@, message, message);
    lemma_contains_tail("内部错误: "@, message, message);
}

/// Numbers that are about the keys say so, and only these.
pub proof fn lemma_keys_blamed(n: i64)
    ensures
        starts_with(short_meaning(n), "鉴权失败"@) <==> n == 3302 || n == 3304,
{
    reveal_strlit("鉴权失败");
    reveal_strlit("请求参数缺失");
    reveal_strlit("音频质量差（识别错误）");
    reveal_strlit("鉴权失败：token 或 appkey 无效");
    reveal_strlit("语音后端识别错误：音频时长过短");
    reveal_strlit("鉴权失败：请检查 API Key/Secret Key 或额度");
    reveal_strlit("请求超配额（QPS 或频次限制）");
    reveal_strlit("服务端内部错误（请联系百度）");
    reveal_strlit("音频过长（请压缩到 60 秒内）");
    reveal_strlit("音频数据错误");
    reveal_strlit("未知百度错误");
    let s = short_meaning(n);
    if n == 3302 || n == 3304 {
        assert(s.subrange(0, 4) =~= "鉴权失败"@);
    } else {
        assert(s.len() >= 4 && s[0] != '鉴');
        assert(s.subrange(0, 4)[0] == s[0]);
    }
}

} // verus!
