//! One request of the short speech service, and its reply.
use super::errors::{friendly_short_msg, short_meaning, BaiduError, ErrorView};
use crate::decimal::{dec, dec_int, write_i64, write_u64};
use crate::lines::{join, join_strs};
use crate::llm::{base64_encode, base64_text};
use crate::text::{opt_text, text_or_empty, texts};
use crate::wire::{quote, quoted};
use vstd::prelude::*;

verus! {

/// Where speech is sent.
pub const SERVER_API: &'static str = "https://vop.baidu.com/server_api";

/// One request: sound, and what it is.
#[derive(Debug)]
pub struct ShortAsrRequest {
    pub format: String,
    pub rate: u32,
    pub channel: u16,
    pub cuid: String,
    pub token: String,
    /// The sound in base64.
    pub speech: String,
    /// How many bytes of sound there are.
    pub len: u64,
    pub dev_pid: i64,
}

/// The text of a request.
pub open spec fn request_text(r: ShortAsrRequest) -> Seq<char> {
    "{\"format\":"@ + quoted(r.format@) + ",\"rate\":"@ + dec(r.rate as nat) + ",\"channel\":"@
        + dec(r.channel as nat) + ",\"cuid\":"@ + quoted(r.cuid@) + ",\"token\":"@ + quoted(
        r.token@,
    ) + ",\"speech\":"@ + quoted(r.speech@) + ",\"len\":"@ + dec(r.len as nat)
        + ",\"dev_pid\":"@ + dec_int(r.dev_pid as int) + "}"@
}

impl ShortAsrRequest {
    /// A request on sound of 16000 samples of 16 bits a second, on one channel.
    pub fn new(pcm: &Vec<u8>, token: &str, cuid: &str, dev_pid: i64) -> (r: ShortAsrRequest)
        ensures
            r.format@ == "pcm"@,
            r.rate == 16000,
            r.channel == 1,
            r.cuid@ == cuid@,
            r.token@ == token@,
            r.speech@ == base64_text(pcm@),
            r.len == pcm@.len(),
            r.dev_pid == dev_pid,
    {
        ShortAsrRequest {
            format: "pcm".to_owned(),
            rate: 16000,
            channel: 1,
            cuid: cuid.to_owned(),
            token: token.to_owned(),
            speech: base64_encode(pcm.as_slice()),
            len: pcm.len() as u64,
            dev_pid,
        }
    }

    /// The text of the request.
    pub fn to_json(&self) -> (r: String)
        ensures
            r@ == request_text(*self),
    {
        let mut s = "{\"format\":".to_owned();
        s.push_str(quote(self.format.as_str()).as_str());
        s.push_str(",\"rate\":");
        s.push_str(write_u64(self.rate as u64).as_str());
        s.push_str(",\"channel\":");
        s.push_str(write_u64(self.channel as u64).as_str());
        s.push_str(",\"cuid\":");
        s.push_str(quote(self.cuid.as_str()).as_str());
        s.push_str(",\"token\":");
        s.push_str(quote(self.token.as_str()).as_str());
        s.push_str(",\"speech\":");
        s.push_str(quote(self.speech.as_str()).as_str());
        s.push_str(",\"len\":");
        s.push_str(write_u64(self.len).as_str());
        s.push_str(",\"dev_pid\":");
        s.push_str(write_i64(self.dev_pid).as_str());
        s.push_str("}");
        s
    }
}

/// A reply as it was read.
#[derive(Debug)]
pub struct ShortAsrResponse {
    pub err_no: i64,
    pub err_msg: Option<String>,
    pub result: Option<Vec<String>>,
}

/// The pieces of text in a reply.
pub open spec fn reply_pieces(r: ShortAsrResponse) -> Seq<Seq<char>> {
    match r.result {
        Some(v) => texts(v@),
        None => Seq::empty(),
    }
}

/// The text that a reply gives, or what is wrong with it. `parsed` is the reply as
/// it was read, or why it could not be.
pub fn parse_short_response(parsed: Result<ShortAsrResponse, String>) -> (r: Result<
    String,
    BaiduError,
>)
    ensures
        r is Ok <==> (parsed matches Ok(p) && p.err_no == 0),
        r matches Ok(s) ==> s@ == join(reply_pieces(parsed->Ok_0), ""@),
        r matches Err(e) ==> e@ == (match parsed {
            Ok(p) => ErrorView::Api {
                code: p.err_no,
                message: short_meaning(p.err_no) + "（"@ + text_or_empty(opt_text(p.err_msg))
                    + "）"@,
            },
            Err(m) => ErrorView::Parse(m@),
        }),
{
    match parsed {
        Err(m) => Err(BaiduError::Parse(m)),
        Ok(p) => {
            if p.err_no != 0 {
                let mut message = friendly_short_msg(p.err_no).to_owned();
                message.push_str("（");
                if let Some(m) = &p.err_msg {
                    message.push_str(m.as_str());
                } else {
                    assert(message@ + Seq::<char>::empty() =~= message@);
                }
                message.push_str("）");
                return Err(BaiduError::Api { code: p.err_no, message });
            }
            let none: Vec<String> = Vec::new();
            assert(texts(none@) =~= Seq::empty());
            let pieces = match p.result {
                Some(v) => v,
                None => none,
            };
            Ok(join_strs(&pieces, ""))
        },
    }
}

} // verus!
