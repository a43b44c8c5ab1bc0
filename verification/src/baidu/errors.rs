//! What goes wrong with speech recognition.
use crate::decimal::{dec_int, write_i64};
use vstd::prelude::*;

verus! {

/// What goes wrong with speech recognition.
#[derive(Debug)]
pub enum BaiduError {
    /// Nothing reached the service, or nothing came back.
    Http(String),
    /// The reply cannot be read.
    Parse(String),
    /// The service gives no token.
    Auth { code: i64, message: String },
    /// The service refuses.
    Api { code: i64, message: String },
    /// Something else.
    Internal(String),
}

/// What an error holds.
pub enum ErrorView {
    Http(Seq<char>),
    Parse(Seq<char>),
    Auth { code: i64, message: Seq<char> },
    Api { code: i64, message: Seq<char> },
    Internal(Seq<char>),
}

impl View for BaiduError {
    type V = ErrorView;

    open spec fn view(&self) -> ErrorView {
        match self {
            BaiduError::Http(e) => ErrorView::Http(e@),
            BaiduError::Parse(e) => ErrorView::Parse(e@),
            BaiduError::Auth { code, message } => ErrorView::Auth {
                code: *code,
                message: message@,
            },
            BaiduError::Api { code, message } => ErrorView::Api { code: *code, message: message@ },
            BaiduError::Internal(e) => ErrorView::Internal(e@),
        }
    }
}

/// How an error reads.
pub open spec fn error_message(e: ErrorView) -> Seq<char> {
    match e {
        ErrorView::Http(s) => "网络请求失败: "@ + s,
        ErrorView::Parse(s) => "解析响应失败: "@ + s,
        ErrorView::Auth { code, message } => "鉴权失败 (百度): code="@ + dec_int(code as int) + " "@
            + message,
        ErrorView::Api { code, message } => "百度返回错误: code="@ + dec_int(code as int) + " "@
            + message,
        ErrorView::Internal(s) => "内部错误: "@ + s,
    }
}

impl BaiduError {
    /// How the error reads.
    pub fn to_text(&self) -> (r: String)
        ensures
            r@ == error_message(self@),
    {
        match self {
            BaiduError::Http(s) => {
                let mut m = "网络请求失败: ".to_owned();
                m.push_str(s.as_str());
                m
            },
            BaiduError::Parse(s) => {
                let mut m = "解析响应失败: ".to_owned();
                m.push_str(s.as_str());
                m
            },
            BaiduError::Auth { code, message } => {
                let mut m = "鉴权失败 (百度): code=".to_owned();
                m.push_str(write_i64(*code).as_str());
                m.push_str(" ");
                m.push_str(message.as_str());
                m
            },
            BaiduError::Api { code, message } => {
                let mut m = "百度返回错误: code=".to_owned();
                m.push_str(write_i64(*code).as_str());
                m.push_str(" ");
                m.push_str(message.as_str());
                m
            },
            BaiduError::Internal(s) => {
                let mut m = "内部错误: ".to_owned();
                m.push_str(s.as_str());
                m
            },
        }
    }
}

/// What a number of the short speech service means.
pub open spec fn short_meaning(err_no: i64) -> Seq<char> {
    if err_no == 3300 {
        "请求参数缺失"@
    } else if err_no == 3301 {
        "音频质量差（识别错误）"@
    } else if err_no == 3302 {
        "鉴权失败：token 或 appkey 无效"@
    } else if err_no == 3303 {
        "语音后端识别错误：音频时长过短"@
    } else if err_no == 3304 {
        "鉴权失败：请检查 API Key/Secret Key 或额度"@
    } else if err_no == 3305 {
        "请求超配额（QPS 或频次限制）"@
    } else if err_no == 3307 {
        "服务端内部错误（请联系百度）"@
    } else if err_no == 3308 {
        "音频过长（请压缩到 60 秒内）"@
    } else if err_no == 3309 {
        "音频数据错误"@
    } else {
        "未知百度错误"@
    }
}

/// What a number of the short speech service means.
pub fn friendly_short_msg(err_no: i64) -> (r: &'static str)
    ensures
        r@ == short_meaning(err_no),
{
    if err_no == 3300 {
        "请求参数缺失"
    } else if err_no == 3301 {
        "音频质量差（识别错误）"
    } else if err_no == 3302 {
        "鉴权失败：token 或 appkey 无效"
    } else if err_no == 3303 {
        "语音后端识别错误：音频时长过短"
    } else if err_no == 3304 {
        "鉴权失败：请检查 API Key/Secret Key 或额度"
    } else if err_no == 3305 {
        "请求超配额（QPS 或频次限制）"
    } else if err_no == 3307 {
        "服务端内部错误（请联系百度）"
    } else if err_no == 3308 {
        "音频过长（请压缩到 60 秒内）"
    } else if err_no == 3309 {
        "音频数据错误"
    } else {
        "未知百度错误"
    }
}

} // verus!
