use ovoice::asr::{check_recording, credentials, same_credentials, NO_CREDENTIALS};
use ovoice::audio::new_cuid;
use ovoice::baidu::asr::{parse_short_response, ShortAsrRequest, ShortAsrResponse};
use ovoice::baidu::auth::{
    accept_token, HttpTokenFetcher, MockTokenFetcher, TokenProvider, TokenResponse,
};
use ovoice::baidu::errors::{friendly_short_msg, BaiduError};
use ovoice::config::Config;
use ovoice::wire::parse_json;

/// Reads a reply of the service.
fn reply(body: &str) -> Result<ShortAsrResponse, String> {
    let v = parse_json(body)?;
    Ok(ShortAsrResponse {
        err_no: v.get("err_no").and_then(|x| x.as_i64()).unwrap_or(0),
        err_msg: v.str_at("err_msg").map(|s| s.to_string()),
        result: v
            .array_at("result")
            .map(|a| a.iter().filter_map(|x| x.as_str()).map(|s| s.to_string()).collect()),
    })
}

#[test]
fn request_body_has_correct_fields_and_len() {
    let pcm = vec![1u8, 2, 3, 4];
    let req = ShortAsrRequest::new(&pcm, "TOK", "cuid-1", 1537);
    let json = req.to_json();
    assert!(json.contains("\"format\":\"pcm\""));
    assert!(json.contains("\"rate\":16000"));
    assert!(json.contains("\"channel\":1"));
    assert!(json.contains("\"token\":\"TOK\""));
    assert!(json.contains("\"len\":4"));
    assert!(json.contains("\"dev_pid\":1537"));
    assert!(json.contains(r#""cuid":"cuid-1""#));
    assert!(json.contains(r#""speech":"AQIDBA==""#));
}

#[test]
fn parses_success_result() {
    let body = r#"{"err_no":0,"err_msg":"success.","result":["你好世界"]}"#;
    assert_eq!(parse_short_response(reply(body)).unwrap(), "你好世界");
}

#[test]
fn joins_multi_result() {
    let body = r#"{"err_no":0,"err_msg":"success.","result":["你好","世界"]}"#;
    assert_eq!(parse_short_response(reply(body)).unwrap(), "你好世界");
}

#[test]
fn maps_error_code() {
    let body = r#"{"err_no":3301,"err_msg":"audio quality error.","result":[]}"#;
    let e = parse_short_response(reply(body)).unwrap_err();
    let msg = e.to_text();
    assert!(msg.contains("3301"));
    assert!(msg.contains("音频质量差"));
}

#[test]
fn a_reply_that_cannot_be_read_is_an_error() {
    assert!(matches!(
        parse_short_response(Err("eof".into())),
        Err(BaiduError::Parse(_))
    ));
    let none = ShortAsrResponse { err_no: 0, err_msg: None, result: None };
    assert!(parse_short_response(Ok(none)).is_ok());
    assert!(friendly_short_msg(3301).contains("音频质量差"));
}

fn token(p: &mut TokenProvider, m: &mut MockTokenFetcher, now: u64) -> String {
    p.get_token(m, now).unwrap()
}

fn fetcher(expires_in: u64) -> MockTokenFetcher {
    MockTokenFetcher { calls: 0, token: "tok-1".into(), expires_in }
}

#[test]
fn caches_token_and_skips_refetch() {
    let mut p = TokenProvider::new();
    let mut m = fetcher(86400);
    assert_eq!(token(&mut p, &mut m, 1000), "tok-1");
    assert_eq!(token(&mut p, &mut m, 1000), "tok-1");
    assert_eq!(m.calls, 1, "应只 fetch 一次");
}

#[test]
fn refreshes_each_call_when_expired() {
    let mut p = TokenProvider::new();
    let mut m = fetcher(0);
    token(&mut p, &mut m, 1000);
    token(&mut p, &mut m, 1000);
    assert_eq!(m.calls, 2, "过期则每次都 fetch");
}

#[test]
fn refreshes_when_within_margin() {
    let mut p = TokenProvider::new();
    let mut m = fetcher(100);
    token(&mut p, &mut m, 1000);
    token(&mut p, &mut m, 1000);
    assert_eq!(m.calls, 2, "当 expires_in <= margin 时应每次 fetch");
}

#[test]
fn an_empty_token_is_refused() {
    let r = TokenResponse { access_token: "".into(), expires_in: 10 };
    assert!(matches!(accept_token(r), Err(BaiduError::Auth { .. })));
    let r = TokenResponse { access_token: "t".into(), expires_in: 10 };
    assert!(accept_token(r).is_ok());
    let f = HttpTokenFetcher::new("ak".into(), "sk".into());
    assert!(f.url().contains("client_id=ak"), "{}", f.url());
    assert!(f.url().contains("client_secret=sk"), "{}", f.url());
}

#[test]
fn credentials_must_be_set() {
    let mut cfg = Config::new(None);
    assert_eq!(credentials(&cfg), Err(NO_CREDENTIALS.to_string()));
    cfg.baidu_api_key = "ak".into();
    cfg.baidu_secret_key = "sk".into();
    let s = credentials(&cfg).unwrap();
    assert!(same_credentials(&credentials(&cfg).ok(), &s));
    assert!(!same_credentials(&None, &s));
    cfg.baidu_api_key = "ak|s".into();
    cfg.baidu_secret_key = "k".into();
    let a = credentials(&cfg).unwrap();
    cfg.baidu_api_key = "ak".into();
    cfg.baidu_secret_key = "s|k".into();
    let b = credentials(&cfg).unwrap();
    assert!(!same_credentials(&Some(a), &b), "凭证变更应重建");
    assert!(check_recording(&[]).is_err());
    assert!(check_recording(&[0u8; 8]).is_ok());
}

#[test]
fn devices_have_names_of_their_own() {
    let a = new_cuid();
    let b = new_cuid();
    assert_ne!(a, b);
    assert!(!a.is_empty());
}

#[test]
fn a_token_is_used_until_an_hour_is_left() {
    let mut p = TokenProvider::new();
    let mut m = fetcher(5400);
    assert_eq!(token(&mut p, &mut m, 1000), "tok-1");
    assert_eq!(token(&mut p, &mut m, 1001), "tok-1");
    assert_eq!(m.calls, 1);
    assert_eq!(p.cached_token(1000).as_deref(), Some("tok-1"));
    assert_eq!(p.cached_token(2799).as_deref(), Some("tok-1"));
    assert_eq!(p.cached_token(2800), None);
}

#[test]
fn token_without_end_is_kept() {
    let mut p = TokenProvider::new();
    let mut m = fetcher(u64::MAX);
    token(&mut p, &mut m, 1000);
    token(&mut p, &mut m, 2_000_000_000);
    assert_eq!(m.calls, 1);
}
