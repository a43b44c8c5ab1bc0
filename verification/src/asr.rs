//! Recognising what was recorded: which credentials count, and when a token is
//! kept for them.
use crate::config::Config;
use crate::text::{str_eq, trim, trimmed};
use vstd::prelude::*;

verus! {

/// What is told when there are no credentials.
pub const NO_CREDENTIALS: &'static str = "未配置百度语音凭证（请在「设置」填写 AppID / API Key / Secret Key）";

/// The credentials of the service.
#[derive(Debug, PartialEq, Eq)]
pub struct Credentials {
    pub app_id: i64,
    pub api_key: String,
    pub secret_key: String,
}

/// What credentials hold.
pub struct CredentialsView {
    pub app_id: i64,
    pub api_key: Seq<char>,
    pub secret_key: Seq<char>,
}

impl View for Credentials {
    type V = CredentialsView;

    open spec fn view(&self) -> CredentialsView {
        CredentialsView {
            app_id: self.app_id,
            api_key: self.api_key@,
            secret_key: self.secret_key@,
        }
    }
}

/// The credentials of the settings, when there are any.
pub fn credentials(cfg: &Config) -> (r: Result<Credentials, String>)
    ensures
        r is Ok <==> trim(cfg.baidu_api_key@).len() > 0 && trim(cfg.baidu_secret_key@).len() > 0,
        r matches Ok(c) ==> c@ == (CredentialsView {
            app_id: cfg.baidu_app_id,
            api_key: cfg.baidu_api_key@,
            secret_key: cfg.baidu_secret_key@,
        }),
        r matches Err(e) ==> e@ == NO_CREDENTIALS@,
{
    if trimmed(cfg.baidu_api_key.as_str()).as_str().unicode_len() == 0 || trimmed(
        cfg.baidu_secret_key.as_str(),
    ).as_str().unicode_len() == 0 {
        return Err(NO_CREDENTIALS.to_owned());
    }
    Ok(
        Credentials {
            app_id: cfg.baidu_app_id,
            api_key: cfg.baidu_api_key.clone(),
            secret_key: cfg.baidu_secret_key.clone(),
        },
    )
}

/// Whether a token that is kept for some credentials is one for these: any that
/// differ ask for a new one.
pub fn same_credentials(kept: &Option<Credentials>, now: &Credentials) -> (r: bool)
    ensures
        r == (kept matches Some(k) && k@ == now@),
{
    match kept {
        Some(k) => k.app_id == now.app_id && str_eq(k.api_key.as_str(), now.api_key.as_str())
            && str_eq(k.secret_key.as_str(), now.secret_key.as_str()),
        None => false,
    }
}

/// Refuses a recording without sound.
pub fn check_recording(bytes: &[u8]) -> (r: Result<(), String>)
    ensures
        r is Ok <==> bytes@.len() > 0,
        r matches Err(e) ==> e@ == "录音为空"@,
{
    if bytes.len() == 0 {
        return Err("录音为空".to_owned());
    }
    Ok(())
}

} // verus!
