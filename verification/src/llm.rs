//! Requests to the language model: the messages as they are kept, and the form
//! in which they are sent.
use crate::cut::{byte_len, bytes_of, head_str, head_within};
use crate::decimal::{dec, write_usize};
use crate::files::{attachments, ext_of, mime_from_ext, mime_of, AttachmentRef, AttachmentView};
use crate::json::{
    clone_jsons, jsons, lemma_jsons_at, lemma_jsons_len, lemma_jsons_push, make_message, message,
    Fields, Json, JsonView,
};
use crate::text::{blank, is_blank, opt_str, opt_text, str_eq, to_chars, trim, trimmed};
use vstd::prelude::*;

verus! {

/// The service's address.
pub const API_BASE: &'static str = "https://api.minimaxi.com/v1";

/// How many bytes of a document's text are sent at most.
pub const DOC_TEXT_MAX: usize = 204800;

/// How many bytes of encoded media one request may carry.
pub const REQUEST_BUDGET_BYTES: u64 = 60817408;

/// The key for the service: the configured one, else the one of the
/// environment. White space around the configured one is left out; a key of
/// white space alone counts as none.
pub fn api_key(configured: &str, environment: Option<String>) -> (r: Result<String, String>)
    ensures
        match r {
            Ok(k) => if !is_blank(configured@) {
                k@ == trim(configured@)
            } else {
                opt_text(environment) == Some(k@) && !is_blank(k@)
            },
            Err(e) => {
                &&& is_blank(configured@)
                &&& (opt_text(environment) matches Some(k) ==> is_blank(k))
                &&& e@ == "MINIMAX_API_KEY 未设置（请在「设置」里填写，或写入 src-tauri/.env）"@
            },
        },
{
    if !blank(configured) {
        return Ok(trimmed(configured));
    }
    if let Some(k) = environment {
        if !blank(k.as_str()) {
            return Ok(k);
        }
    }
    Err("MINIMAX_API_KEY 未设置（请在「设置」里填写，或写入 src-tauri/.env）".to_owned())
}

/// A kind of text that goes into a message as it is.
pub open spec fn is_inline_kind(kind: Seq<char>) -> bool {
    kind == "text"@ || kind == "markdown"@ || kind == "csv"@
}

/// Whether a kind of attachment goes into a message as it is.
pub fn is_inline_text_kind(kind: &str) -> (r: bool)
    ensures
        r == is_inline_kind(kind@),
{
    str_eq(kind, "text") || str_eq(kind, "markdown") || str_eq(kind, "csv")
}

/// A kind of document whose text is extracted.
pub open spec fn is_doc_kind(kind: Seq<char>) -> bool {
    kind == "pdf"@ || kind == "docx"@
}

fn doc_kind(kind: &str) -> (r: bool)
    ensures
        r == is_doc_kind(kind@),
{
    str_eq(kind, "pdf") || str_eq(kind, "docx")
}

/// A document's text of more than `DOC_TEXT_MAX` bytes cut to what fits, with a
/// note of how much there was; a shorter one as it is.
pub open spec fn doc_text_capped(t: Seq<char>) -> Seq<char> {
    if byte_len(t) <= DOC_TEXT_MAX {
        t
    } else {
        let head = head_within(t, DOC_TEXT_MAX as int);
        head + "\n\n[…已截断，原文约 "@ + dec(t.len()) + " 字，仅取前 "@ + dec(head.len())
            + " 字…]"@
    }
}

/// Cuts a document's text to `DOC_TEXT_MAX` bytes, with a note of how much there
/// was.
pub fn cap_doc_text(t: &str) -> (r: String)
    ensures
        r@ == doc_text_capped(t@),
{
    if bytes_of(t) <= DOC_TEXT_MAX {
        return t.to_owned();
    }
    let head = head_str(t, DOC_TEXT_MAX);
    let total: usize = to_chars(t).len();
    let kept: usize = to_chars(head.as_str()).len();
    let mut s = head;
    s.push_str("\n\n[…已截断，原文约 ");
    s.push_str(write_usize(total).as_str());
    s.push_str(" 字，仅取前 ");
    s.push_str(write_usize(kept).as_str());
    s.push_str(" 字…]");
    s
}

// ---------------------------------------------------------------------------
// What attachments hold
// ---------------------------------------------------------------------------

/// What was read of one attachment's file: the text of a text file, or the text
/// extracted from a document.
#[derive(Debug)]
pub struct LoadedFile {
    pub path: String,
    pub kind: String,
    pub text: Option<String>,
}

/// What a read file holds.
pub struct LoadedView {
    pub path: Seq<char>,
    pub kind: Seq<char>,
    pub text: Option<Seq<char>>,
}

impl View for LoadedFile {
    type V = LoadedView;

    open spec fn view(&self) -> LoadedView {
        LoadedView { path: self.path@, kind: self.kind@, text: opt_text(self.text) }
    }
}

/// What a list of read files holds.
pub open spec fn loaded(v: Seq<LoadedFile>) -> Seq<LoadedView> {
    v.map_values(|f: LoadedFile| f@)
}

/// The text of an attachment among the files that were read: the first entry
/// for its path and kind counts.
pub open spec fn loaded_text(v: Seq<LoadedView>, path: Seq<char>, kind: Seq<char>) -> Option<Seq<char>>
    decreases v.len(),
{
    if v.len() == 0 {
        None
    } else if v[0].path == path && v[0].kind == kind {
        v[0].text
    } else {
        loaded_text(v.skip(1), path, kind)
    }
}

fn find_loaded<'a>(v: &'a Vec<LoadedFile>, path: &str, kind: &str) -> (r: Option<&'a str>)
    ensures
        opt_str(r) == loaded_text(loaded(v@), path@, kind@),
{
    let mut i: usize = 0;
    proof {
        assert(loaded(v@).skip(0) =~= loaded(v@));
    }
    while i < v.len()
        invariant
            i <= v@.len(),
            loaded_text(loaded(v@), path@, kind@) == loaded_text(
                loaded(v@).skip(i as int),
                path@,
                kind@,
            ),
        decreases v@.len() - i,
    {
        assert(loaded(v@).skip(i as int)[0] == v@[i as int]@);
        if str_eq(v[i].path.as_str(), path) && str_eq(v[i].kind.as_str(), kind) {
            return match &v[i].text {
                Some(t) => Some(t.as_str()),
                None => None,
            };
        }
        assert(loaded(v@).skip(i as int).skip(1) =~= loaded(v@).skip(i + 1));
        i = i + 1;
    }
    None
}

/// A part of a message's content that is text.
pub open spec fn text_part(text: Seq<char>) -> JsonView {
    JsonView::Obj(map!["type"@ => JsonView::Str("text"@), "text"@ => JsonView::Str(text)])
}

/// A part of a message's content that refers to a file.
pub open spec fn ref_part(kind: Seq<char>, path: Seq<char>) -> JsonView {
    JsonView::Obj(map!["type"@ => JsonView::Str(kind), "path"@ => JsonView::Str(path)])
}

/// The text that stands for an attachment which is neither an image nor a
/// video.
pub open spec fn attachment_note(a: AttachmentView, files: Seq<LoadedView>) -> Seq<char> {
    let text = loaded_text(files, a.staged_path, a.kind);
    if is_doc_kind(a.kind) {
        match text {
            Some(t) => if is_blank(t) {
                "[用户上传了 "@ + a.staged_path + " ("@ + a.kind
                    + ")，无法抽取文本，可用 read/display 处理]"@
            } else {
                "[用户上传了 "@ + a.staged_path + " ("@ + a.kind + ")]\n"@ + doc_text_capped(t)
            },
            None => "[用户上传了 "@ + a.staged_path + " ("@ + a.kind
                + ")，无法抽取文本，可用 read/display 处理]"@,
        }
    } else if is_inline_kind(a.kind) {
        "[用户上传了 "@ + a.staged_path + "]\n"@ + (match text {
            Some(t) => t,
            None => Seq::empty(),
        })
    } else {
        "[用户上传了 "@ + a.staged_path + "，可用 read/display 处理]"@
    }
}

/// The part of a message's content that stands for an attachment. Images and
/// videos are referred to; they are read when the message is sent.
pub open spec fn attachment_part(a: AttachmentView, files: Seq<LoadedView>) -> JsonView {
    if a.kind == "image"@ {
        ref_part("image_ref"@, a.staged_path)
    } else if a.kind == "video"@ {
        ref_part("video_ref"@, a.staged_path)
    } else {
        text_part(attachment_note(a, files))
    }
}

/// The parts of a user message: its text, unless it is empty, and one part for
/// each attachment.
pub open spec fn user_parts(text: Seq<char>, atts: Seq<AttachmentView>, files: Seq<LoadedView>) -> Seq<
    JsonView,
> {
    let head = if text.len() == 0 {
        Seq::<JsonView>::empty()
    } else {
        seq![text_part(text)]
    };
    head + atts.map_values(|a: AttachmentView| attachment_part(a, files))
}

/// A user message: plain text when there is nothing else to it, otherwise its
/// parts.
pub open spec fn user_message(text: Seq<char>, atts: Seq<AttachmentView>, files: Seq<LoadedView>) -> JsonView {
    let parts = user_parts(text, atts, files);
    if parts.len() == 0 || (parts.len() == 1 && parts[0] == text_part(text)) {
        message("user"@, JsonView::Str(text))
    } else {
        message("user"@, JsonView::Arr(parts))
    }
}

fn make_text_part(text: &str) -> (r: Json)
    ensures
        r@ == text_part(text@),
{
    let mut f = Fields::new();
    f.insert("type", Json::str("text"));
    f.insert("text", Json::str(text));
    Json::Obj(f)
}

fn make_ref_part(kind: &str, path: &str) -> (r: Json)
    ensures
        r@ == ref_part(kind@, path@),
{
    let mut f = Fields::new();
    f.insert("type", Json::str(kind));
    f.insert("path", Json::str(path));
    Json::Obj(f)
}

fn make_note(a: &AttachmentRef, files: &Vec<LoadedFile>) -> (r: String)
    ensures
        r@ == attachment_note(a@, loaded(files@)),
{
    let text = find_loaded(files, a.staged_path.as_str(), a.kind.as_str());
    let mut s = "[用户上传了 ".to_owned();
    s.push_str(a.staged_path.as_str());
    if doc_kind(a.kind.as_str()) {
        s.push_str(" (");
        s.push_str(a.kind.as_str());
        if let Some(t) = text {
            if !blank(t) {
                s.push_str(")]\n");
                s.push_str(cap_doc_text(t).as_str());
                return s;
            }
        }
        s.push_str(")，无法抽取文本，可用 read/display 处理]");
        s
    } else if is_inline_text_kind(a.kind.as_str()) {
        s.push_str("]\n");
        match text {
            Some(t) => {
                s.push_str(t);
            },
            None => {
                assert(s@ =~= s@ + Seq::<char>::empty());
            },
        }
        s
    } else {
        s.push_str("，可用 read/display 处理]");
        s
    }
}

fn make_attachment_part(a: &AttachmentRef, files: &Vec<LoadedFile>) -> (r: Json)
    ensures
        r@ == attachment_part(a@, loaded(files@)),
{
    if str_eq(a.kind.as_str(), "image") {
        make_ref_part("image_ref", a.staged_path.as_str())
    } else if str_eq(a.kind.as_str(), "video") {
        make_ref_part("video_ref", a.staged_path.as_str())
    } else {
        make_text_part(make_note(a, files).as_str())
    }
}

proof fn lemma_part_types(text: Seq<char>, kind: Seq<char>, path: Seq<char>)
    ensures
        text_part(text).str_at("type"@) == Some("text"@),
        text_part(text).str_at("text"@) == Some(text),
        ref_part(kind, path).str_at("type"@) == Some(kind),
        ref_part(kind, path).str_at("path"@) == Some(path),
{
    reveal_strlit("type");
    reveal_strlit("text");
    reveal_strlit("path");
    assert("type"@[1] == 'y' && "text"@[1] == 'e' && "path"@[1] == 'a');
}

/// Puts a user message together out of its text, its attachments and what was
/// read of their files.
pub fn user_message_with_attachments(
    text: &str,
    atts: &Vec<AttachmentRef>,
    files: &Vec<LoadedFile>,
) -> (r: Json)
    ensures
        r@ == user_message(text@, attachments(atts@), loaded(files@)),
{
    let mut parts: Vec<Json> = Vec::new();
    let ghost f = |a: AttachmentView| attachment_part(a, loaded(files@));
    if !text.is_empty() {
        parts.push(make_text_part(text));
    }
    let ghost head = jsons(parts@);
    proof {
        lemma_jsons_len(parts@);
        if text@.len() > 0 {
            lemma_jsons_at(parts@, 0);
        }
        assert(head =~= (if text@.len() == 0 {
            Seq::<JsonView>::empty()
        } else {
            seq![text_part(text@)]
        }));
        assert(head =~= head + attachments(atts@).take(0).map_values(f));
    }
    let mut i: usize = 0;
    while i < atts.len()
        invariant
            i <= atts@.len(),
            f == (|a: AttachmentView| attachment_part(a, loaded(files@))),
            jsons(parts@) == head + attachments(atts@).take(i as int).map_values(f),
        decreases atts@.len() - i,
    {
        let p = make_attachment_part(&atts[i], files);
        proof {
            lemma_jsons_push(parts@, p);
            assert(attachments(atts@).take(i + 1).map_values(f) =~= attachments(atts@).take(
                i as int,
            ).map_values(f).push(p@));
        }
        parts.push(p);
        assert(jsons(parts@) =~= head + attachments(atts@).take(i + 1).map_values(f));
        i = i + 1;
    }
    proof {
        assert(attachments(atts@).take(i as int) =~= attachments(atts@));
        assert(jsons(parts@) == user_parts(text@, attachments(atts@), loaded(files@)));
        lemma_jsons_len(parts@);
    }
    if parts.len() == 0 {
        return make_message("user", Json::str(text));
    }
    let mut plain = false;
    if parts.len() == 1 {
        proof {
            lemma_jsons_at(parts@, 0);
            let views = attachments(atts@);
            if text@.len() == 0 && views.len() > 0 {
                assert(jsons(parts@)[0] == attachment_part(views[0], loaded(files@)));
                let a = views[0];
                lemma_part_types(attachment_note(a, loaded(files@)), "image_ref"@, a.staged_path);
                lemma_part_types(text@, "video_ref"@, a.staged_path);
            } else {
                assert(jsons(parts@)[0] == text_part(text@));
            }
            reveal_strlit("text");
            reveal_strlit("image_ref");
            reveal_strlit("video_ref");
            assert("text"@.len() == 4 && "image_ref"@.len() == 9 && "video_ref"@.len() == 9);
        }
        if parts[0].is_at("type", "text") {
            if let Some(t) = parts[0].str_at("text") {
                plain = str_eq(t, text);
            }
        }
        proof {
            lemma_part_types(text@, "text"@, text@);
        }
    }
    if plain {
        make_message("user", Json::str(text))
    } else {
        make_message("user", Json::array(parts))
    }
}

// ---------------------------------------------------------------------------
// The form in which messages are sent
// ---------------------------------------------------------------------------

/// The base64 text of bytes, with padding.
pub uninterp spec fn base64_text(bytes: Seq<u8>) -> Seq<char>;

/// `base64::engine::general_purpose::STANDARD.encode`: the base64 text, named by
/// `base64_text`. Every three bytes, or the one or two that are left at the end,
/// make four ASCII characters.
#[verifier::external_body]
pub(crate) fn base64_encode(bytes: &[u8]) -> (r: String)
    ensures
        r@ == base64_text(bytes@),
        r@.len() == (bytes@.len() + 2) / 3 * 4,
        vstd::utf8::is_ascii_chars(r@),
{
    base64::Engine::encode(&base64::engine::general_purpose::STANDARD, bytes)
}

/// What reading the file behind a reference came to: its bytes, or the error's
/// text.
#[derive(Debug)]
pub enum MediaRead {
    Bytes(Vec<u8>),
    Failed(String),
}

/// What a read file holds.
pub enum MediaReadView {
    Bytes(Seq<u8>),
    Failed(Seq<char>),
}

impl View for MediaRead {
    type V = MediaReadView;

    open spec fn view(&self) -> MediaReadView {
        match self {
            MediaRead::Bytes(b) => MediaReadView::Bytes(b@),
            MediaRead::Failed(e) => MediaReadView::Failed(e@),
        }
    }
}

/// What a list of read files holds.
pub open spec fn media_reads(v: Seq<MediaRead>) -> Seq<MediaReadView> {
    v.map_values(|r: MediaRead| r@)
}

/// A part that refers to an image or a video.
pub open spec fn is_media_ref(p: JsonView) -> bool {
    p.str_at("type"@) == Some("image_ref"@) || p.str_at("type"@) == Some("video_ref"@)
}

fn media_ref(p: &Json) -> (r: bool)
    ensures
        r == is_media_ref(p@),
{
    p.is_at("type", "image_ref") || p.is_at("type", "video_ref")
}

/// One of the parts refers to an image or a video.
pub open spec fn any_media_ref(parts: Seq<JsonView>) -> bool {
    exists|i: int| 0 <= i < parts.len() && is_media_ref(#[trigger] parts[i])
}

/// A user message with a part that refers to an image or a video.
pub open spec fn has_media(m: JsonView) -> bool {
    m.str_at("role"@) == Some("user"@) && match m.array_at("content"@) {
        Some(parts) => any_media_ref(parts),
        None => false,
    }
}

fn message_has_media(m: &Json) -> (r: bool)
    ensures
        r == has_media(m@),
{
    if !m.is_at("role", "user") {
        return false;
    }
    let parts: &Vec<Json> = match m.array_at("content") {
        Some(v) => v,
        None => {
            return false;
        },
    };
    proof {
        lemma_jsons_len(parts@);
    }
    let mut i: usize = 0;
    while i < parts.len()
        invariant
            m@.str_at("role"@) == Some("user"@),
            m@.array_at("content"@) == Some(jsons(parts@)),
            jsons(parts@).len() == parts@.len(),
            i <= parts@.len(),
            forall|k: int| 0 <= k < i ==> !is_media_ref(#[trigger] jsons(parts@)[k]),
        decreases parts@.len() - i,
    {
        proof {
            lemma_jsons_at(parts@, i as int);
        }
        if media_ref(&parts[i]) {
            assert(any_media_ref(jsons(parts@)));
            return true;
        }
        i = i + 1;
    }
    false
}

/// The references in a list of parts.
pub open spec fn part_refs(parts: Seq<JsonView>) -> Seq<Seq<char>>
    decreases parts.len(),
{
    if parts.len() == 0 {
        Seq::empty()
    } else {
        let head = part_refs(parts.drop_last());
        if is_media_ref(parts.last()) {
            head.push(parts.last().text_at("path"@))
        } else {
            head
        }
    }
}

/// The paths that the references in a list of messages name, in order: these
/// files are read before the messages are sent.
pub open spec fn media_refs(msgs: Seq<JsonView>) -> Seq<Seq<char>>
    decreases msgs.len(),
{
    if msgs.len() == 0 {
        Seq::empty()
    } else {
        let head = media_refs(msgs.drop_last());
        let m = msgs.last();
        if has_media(m) {
            head + part_refs(m.array_at("content"@)->0)
        } else {
            head
        }
    }
}

/// How far the expansion of messages has come: the messages or parts made, how
/// many files were used, and how many bytes of encoded media there are. Or why
/// it failed.
pub enum Expansion {
    Going { out: Seq<JsonView>, used: nat, total: u64 },
    Failed(Seq<char>),
}

/// The part that carries a file itself.
pub open spec fn media_part(kind: Seq<char>, path: Seq<char>, bytes: Seq<u8>) -> JsonView {
    let key = if kind == "image_ref"@ {
        "image_url"@
    } else {
        "video_url"@
    };
    let url = "data:"@ + mime_of(ext_of(path)) + ";base64,"@ + base64_text(bytes);
    JsonView::Obj(
        map![
        "type"@ => JsonView::Str(key),
        key => JsonView::Obj(map!["url"@ => JsonView::Str(url)])],
    )
}

/// Two sizes together, at most the largest that can be told.
pub open spec fn saturating_sum(a: u64, b: nat) -> u64 {
    if a + b > u64::MAX {
        u64::MAX
    } else {
        (a + b) as u64
    }
}

/// One part more: a reference becomes the file that it names, unless that could
/// not be read or the media together grow too large; any other part stays as it
/// is.
pub open spec fn expand_part(st: Expansion, p: JsonView, reads: Seq<MediaReadView>) -> Expansion {
    match st {
        Expansion::Going { out, used, total } => if is_media_ref(p) {
            let path = p.text_at("path"@);
            match reads[used as int] {
                MediaReadView::Failed(e) => Expansion::Failed(
                    "附件文件已丢失，请重新添加: "@ + path + ": "@ + e,
                ),
                MediaReadView::Bytes(b) => {
                    let sum = saturating_sum(total, byte_len(base64_text(b)));
                    if sum > REQUEST_BUDGET_BYTES {
                        Expansion::Failed("历史媒体过大（超 58MB 上限），请开新会话或移除旧图/视频"@)
                    } else {
                        Expansion::Going {
                            out: out.push(media_part(p.text_at("type"@), path, b)),
                            used: used + 1,
                            total: sum,
                        }
                    }
                },
            }
        } else {
            Expansion::Going { out: out.push(p), used, total }
        },
        Expansion::Failed(e) => st,
    }
}

/// The parts of one message, one after the other.
pub open spec fn expand_parts(st: Expansion, parts: Seq<JsonView>, reads: Seq<MediaReadView>) -> Expansion
    decreases parts.len(),
{
    if parts.len() == 0 {
        st
    } else {
        expand_part(expand_parts(st, parts.drop_last(), reads), parts.last(), reads)
    }
}

/// One message more: a message with media gets its parts expanded, any other
/// stays as it is.
pub open spec fn expand_message(st: Expansion, m: JsonView, reads: Seq<MediaReadView>) -> Expansion {
    match st {
        Expansion::Going { out, used, total } => if has_media(m) {
            let inner = expand_parts(
                Expansion::Going { out: Seq::empty(), used, total },
                m.array_at("content"@)->0,
                reads,
            );
            match inner {
                Expansion::Going { out: parts, used: u, total: t } => Expansion::Going {
                    out: out.push(m.with("content"@, JsonView::Arr(parts))),
                    used: u,
                    total: t,
                },
                Expansion::Failed(e) => inner,
            }
        } else {
            Expansion::Going { out: out.push(m), used, total }
        },
        Expansion::Failed(e) => st,
    }
}

/// The messages, one after the other.
pub open spec fn expand_all(msgs: Seq<JsonView>, reads: Seq<MediaReadView>) -> Expansion
    decreases msgs.len(),
{
    if msgs.len() == 0 {
        Expansion::Going { out: Seq::empty(), used: 0, total: 0 }
    } else {
        expand_message(expand_all(msgs.drop_last(), reads), msgs.last(), reads)
    }
}

fn make_media_part(kind: &str, path: &str, encoded: &str) -> (r: Json)
    ensures
        forall|b: Seq<u8>|
            #![trigger base64_text(b)]
            base64_text(b) == encoded@ ==> r@ == media_part(kind@, path@, b),
{
    let key: &str = if str_eq(kind, "image_ref") {
        "image_url"
    } else {
        "video_url"
    };
    let mut url = "data:".to_owned();
    url.push_str(mime_from_ext(path));
    url.push_str(";base64,");
    url.push_str(encoded);
    let mut inner = Fields::new();
    inner.insert("url", Json::Str(url));
    let mut f = Fields::new();
    f.insert("type", Json::str(key));
    f.insert(key, Json::Obj(inner));
    Json::Obj(f)
}

/// A failed part fails all that follow.
proof fn lemma_failed_parts(st: Expansion, parts: Seq<JsonView>, reads: Seq<MediaReadView>, n: int)
    requires
        0 <= n <= parts.len(),
        expand_parts(st, parts.take(n), reads) is Failed,
    ensures
        expand_parts(st, parts, reads) == expand_parts(st, parts.take(n), reads),
    decreases parts.len() - n,
{
    if n == parts.len() {
        assert(parts.take(n) =~= parts);
    } else {
        assert(parts.take(n + 1).drop_last() =~= parts.take(n));
        lemma_failed_parts(st, parts, reads, n + 1);
    }
}

proof fn lemma_failed_messages(msgs: Seq<JsonView>, reads: Seq<MediaReadView>, n: int)
    requires
        0 <= n <= msgs.len(),
        expand_all(msgs.take(n), reads) is Failed,
    ensures
        expand_all(msgs, reads) == expand_all(msgs.take(n), reads),
    decreases msgs.len() - n,
{
    if n == msgs.len() {
        assert(msgs.take(n) =~= msgs);
    } else {
        assert(msgs.take(n + 1).drop_last() =~= msgs.take(n));
        lemma_failed_messages(msgs, reads, n + 1);
    }
}

/// Each part that was made used as many files as it has references.
proof fn lemma_parts_used(st: Expansion, parts: Seq<JsonView>, reads: Seq<MediaReadView>)
    ensures
        st matches Expansion::Going { used, .. } ==> (expand_parts(st, parts, reads) matches Expansion::Going {
            used: u,
            ..
        } ==> u == used + part_refs(parts).len()),
    decreases parts.len(),
{
    if parts.len() > 0 {
        lemma_parts_used(st, parts.drop_last(), reads);
    }
}

proof fn lemma_messages_used(msgs: Seq<JsonView>, reads: Seq<MediaReadView>)
    ensures
        expand_all(msgs, reads) matches Expansion::Going { used, .. } ==> used == media_refs(
            msgs,
        ).len(),
    decreases msgs.len(),
{
    if msgs.len() > 0 {
        let head = expand_all(msgs.drop_last(), reads);
        lemma_messages_used(msgs.drop_last(), reads);
        let m = msgs.last();
        if let Expansion::Going { out, used, total } = head {
            if has_media(m) {
                lemma_parts_used(
                    Expansion::Going { out: Seq::empty(), used, total },
                    m.array_at("content"@)->0,
                    reads,
                );
            }
        }
    }
}

proof fn lemma_refs_prefix(parts: Seq<JsonView>, n: int)
    requires
        0 <= n <= parts.len(),
    ensures
        part_refs(parts.take(n)).len() <= part_refs(parts).len(),
        n < parts.len() && is_media_ref(parts[n]) ==> part_refs(parts.take(n)).len() < part_refs(
            parts,
        ).len(),
    decreases parts.len() - n,
{
    if n < parts.len() {
        lemma_refs_prefix(parts, n + 1);
        assert(parts.take(n + 1).drop_last() =~= parts.take(n));
    } else {
        assert(parts.take(n) =~= parts);
    }
}

proof fn lemma_media_refs_prefix(msgs: Seq<JsonView>, n: int)
    requires
        0 <= n <= msgs.len(),
    ensures
        media_refs(msgs.take(n)).len() <= media_refs(msgs).len(),
        n < msgs.len() && has_media(msgs[n]) ==> media_refs(msgs.take(n)).len() + part_refs(
            msgs[n].array_at("content"@)->0,
        ).len() <= media_refs(msgs).len(),
    decreases msgs.len() - n,
{
    if n < msgs.len() {
        lemma_media_refs_prefix(msgs, n + 1);
        assert(msgs.take(n + 1).drop_last() =~= msgs.take(n));
    } else {
        assert(msgs.take(n) =~= msgs);
    }
}

/// The paths of the files that a list of messages refers to, in order.
pub fn media_paths(msgs: &Vec<Json>) -> (r: Vec<String>)
    ensures
        crate::text::texts(r@) == media_refs(jsons(msgs@)),
{
    let mut out: Vec<String> = Vec::new();
    let mut i: usize = 0;
    proof {
        lemma_jsons_len(msgs@);
    }
    while i < msgs.len()
        invariant
            i <= msgs@.len(),
            jsons(msgs@).len() == msgs@.len(),
            crate::text::texts(out@) == media_refs(jsons(msgs@).take(i as int)),
        decreases msgs@.len() - i,
    {
        let m = &msgs[i];
        proof {
            lemma_jsons_at(msgs@, i as int);
            let t = jsons(msgs@).take(i + 1);
            assert(t.drop_last() =~= jsons(msgs@).take(i as int));
            assert(t.last() == m@);
        }
        if message_has_media(m) {
            if let Some(parts) = m.array_at("content") {
                let ghost before = crate::text::texts(out@);
                let mut k: usize = 0;
                proof {
                    lemma_jsons_len(parts@);
                    assert(before + part_refs(jsons(parts@).take(0)) =~= before);
                }
                while k < parts.len()
                    invariant
                        k <= parts@.len(),
                        jsons(parts@).len() == parts@.len(),
                        crate::text::texts(out@) == before + part_refs(
                            jsons(parts@).take(k as int),
                        ),
                    decreases parts@.len() - k,
                {
                    proof {
                        lemma_jsons_at(parts@, k as int);
                        let t = jsons(parts@).take(k + 1);
                        assert(t.drop_last() =~= jsons(parts@).take(k as int));
                        assert(t.last() == parts@[k as int]@);
                    }
                    if media_ref(&parts[k]) {
                        let ghost prev = out@;
                        let p = parts[k].text_at("path");
                        out.push(p.to_owned());
                        assert(crate::text::texts(out@) =~= crate::text::texts(prev).push(p@));
                        assert(crate::text::texts(out@) =~= before + part_refs(
                            jsons(parts@).take(k + 1),
                        ));
                    }
                    k = k + 1;
                }
                assert(jsons(parts@).take(k as int) =~= jsons(parts@));
            }
        }
        i = i + 1;
    }
    assert(jsons(msgs@).take(i as int) =~= jsons(msgs@));
    out
}

/// Replaces the references in messages by the files that they name. `reads`
/// holds what reading each file of `media_paths` came to.
pub fn expand_messages_for_send(msgs: &Vec<Json>, reads: &Vec<MediaRead>) -> (r: Result<
    Vec<Json>,
    String,
>)
    requires
        reads@.len() == media_refs(jsons(msgs@)).len(),
    ensures
        match r {
            Ok(v) => expand_all(jsons(msgs@), media_reads(reads@)) matches Expansion::Going {
                out,
                ..
            } && out == jsons(v@),
            Err(e) => expand_all(jsons(msgs@), media_reads(reads@)) == Expansion::Failed(e@),
        },
{
    let mut out: Vec<Json> = Vec::new();
    let mut used: usize = 0;
    let mut total: u64 = 0;
    let mut i: usize = 0;
    let count: usize = reads.len();
    let ghost all = jsons(msgs@);
    let ghost got = media_reads(reads@);
    proof {
        lemma_jsons_len(msgs@);
    }
    while i < msgs.len()
        invariant
            all == jsons(msgs@),
            all.len() == msgs@.len(),
            got == media_reads(reads@),
            count == reads@.len(),
            reads@.len() == media_refs(all).len(),
            i <= msgs@.len(),
            expand_all(all.take(i as int), got) == (Expansion::Going {
                out: jsons(out@),
                used: used as nat,
                total,
            }),
        decreases msgs@.len() - i,
    {
        let m = &msgs[i];
        proof {
            lemma_jsons_at(msgs@, i as int);
            let t = all.take(i + 1);
            assert(t.drop_last() =~= all.take(i as int));
            assert(t.last() == m@);
            lemma_messages_used(all.take(i as int), got);
            lemma_media_refs_prefix(all, i as int);
        }
        if !message_has_media(m) {
            let c = m.clone();
            proof {
                lemma_jsons_push(out@, c);
            }
            out.push(c);
            i = i + 1;
            continue;
        }
        if let Some(parts) = m.array_at("content") {
            let ghost start = Expansion::Going { out: Seq::empty(), used: used as nat, total };
            let ghost views = jsons(parts@);
            let ghost used0 = used;
            let mut new_parts: Vec<Json> = Vec::new();
            let mut k: usize = 0;
            proof {
                lemma_jsons_len(parts@);
                assert(jsons(new_parts@) =~= Seq::empty());
            }
            while k < parts.len()
                invariant
                    all == jsons(msgs@),
                    got == media_reads(reads@),
                    count == reads@.len(),
                    reads@.len() == media_refs(all).len(),
                    i < msgs@.len(),
                    all.len() == msgs@.len(),
                    all[i as int] == m@,
                    has_media(m@),
                    m@.array_at("content"@) == Some(jsons(parts@)),
                    expand_all(all.take(i as int), got) == (Expansion::Going {
                        out: jsons(out@),
                        used: used0 as nat,
                        total: start->total,
                    }),
                    views == jsons(parts@),
                    views.len() == parts@.len(),
                    k <= parts@.len(),
                    used0 + part_refs(views).len() <= reads@.len(),
                    start == (Expansion::Going {
                        out: Seq::empty(),
                        used: used0 as nat,
                        total: start->total,
                    }),
                    expand_parts(start, views.take(k as int), got) == (Expansion::Going {
                        out: jsons(new_parts@),
                        used: used as nat,
                        total,
                    }),
                decreases parts@.len() - k,
            {
                let p = &parts[k];
                proof {
                    lemma_jsons_at(parts@, k as int);
                    let t = views.take(k + 1);
                    assert(t.drop_last() =~= views.take(k as int));
                    assert(t.last() == p@);
                    lemma_parts_used(start, views.take(k as int), got);
                    lemma_refs_prefix(views, k as int);
                }
                if media_ref(p) {
                    let path = p.text_at("path");
                    let kind = p.text_at("type");
                    assert(got[used as int] == reads@[used as int]@);
                    match &reads[used] {
                        MediaRead::Failed(e) => {
                            let mut s = "附件文件已丢失，请重新添加: ".to_owned();
                            s.push_str(path);
                            s.push_str(": ");
                            s.push_str(e.as_str());
                            proof {
                                lemma_failed_parts(start, views, got, k + 1);
                                assert(all.take(i + 1).drop_last() =~= all.take(i as int));
                                lemma_failed_messages(all, got, i + 1);
                            }
                            return Err(s);
                        },
                        MediaRead::Bytes(b) => {
                            let encoded = base64_encode(b.as_slice());
                            let size: u64 = bytes_of(encoded.as_str()) as u64;
                            let sum: u64 = total.saturating_add(size);
                            if sum > REQUEST_BUDGET_BYTES {
                                proof {
                                    lemma_failed_parts(start, views, got, k + 1);
                                    assert(all.take(i + 1).drop_last() =~= all.take(i as int));
                                    lemma_failed_messages(all, got, i + 1);
                                }
                                return Err(
                                    "历史媒体过大（超 58MB 上限），请开新会话或移除旧图/视频".to_owned(),
                                );
                            }
                            total = sum;
                            let c = make_media_part(kind, path, encoded.as_str());
                            proof {
                                assert(base64_text(b@) == encoded@);
                                lemma_jsons_push(new_parts@, c);
                            }
                            new_parts.push(c);
                            used = used + 1;
                        },
                    }
                } else {
                    let c = p.clone();
                    proof {
                        lemma_jsons_push(new_parts@, c);
                    }
                    new_parts.push(c);
                }
                k = k + 1;
            }
            assert(views.take(k as int) =~= views);
            let nm = m.with("content", Json::array(new_parts));
            proof {
                lemma_jsons_push(out@, nm);
            }
            out.push(nm);
        }
        i = i + 1;
    }
    assert(all.take(i as int) =~= all);
    Ok(out)
}

/// The body of a request.
pub open spec fn request_body(model: Seq<char>, msgs: Seq<JsonView>, tools: Seq<JsonView>) -> JsonView {
    JsonView::Obj(
        map![
        "model"@ => JsonView::Str(model),
        "messages"@ => JsonView::Arr(msgs),
        "tools"@ => JsonView::Arr(tools),
        "tool_choice"@ => JsonView::Str("auto"@),
        "reasoning_split"@ => JsonView::Bool(true),
        "stream"@ => JsonView::Bool(true),
        "stream_options"@ => JsonView::Obj(map!["include_usage"@ => JsonView::Bool(true)])],
    )
}

/// Puts the body of a request together: the expanded messages, and the tools
/// that are active, or else all of them.
pub fn build_body(
    msgs: &Vec<Json>,
    reads: &Vec<MediaRead>,
    model: &str,
    active_tools: &Option<Vec<Json>>,
    schemas: &Vec<Json>,
) -> (r: Result<Json, String>)
    requires
        reads@.len() == media_refs(jsons(msgs@)).len(),
    ensures
        match r {
            Ok(body) => expand_all(jsons(msgs@), media_reads(reads@)) matches Expansion::Going {
                out,
                ..
            } && body@ == request_body(
                model@,
                out,
                match *active_tools {
                    Some(t) => jsons(t@),
                    None => jsons(schemas@),
                },
            ),
            Err(e) => expand_all(jsons(msgs@), media_reads(reads@)) == Expansion::Failed(e@),
        },
{
    let expanded = match expand_messages_for_send(msgs, reads) {
        Ok(v) => v,
        Err(e) => {
            return Err(e);
        },
    };
    let tools = match active_tools {
        Some(t) => clone_jsons(t),
        None => clone_jsons(schemas),
    };
    let mut options = Fields::new();
    options.insert("include_usage", Json::Bool(true));
    let mut f = Fields::new();
    f.insert("model", Json::str(model));
    f.insert("messages", Json::array(expanded));
    f.insert("tools", Json::array(tools));
    f.insert("tool_choice", Json::str("auto"));
    f.insert("reasoning_split", Json::Bool(true));
    f.insert("stream", Json::Bool(true));
    f.insert("stream_options", Json::Obj(options));
    Ok(Json::Obj(f))
}

/// Messages without media are sent as they are.
pub proof fn lemma_expand_plain(msgs: Seq<JsonView>, reads: Seq<MediaReadView>)
    requires
        forall|i: int| 0 <= i < msgs.len() ==> !has_media(#[trigger] msgs[i]),
    ensures
        expand_all(msgs, reads) == (Expansion::Going { out: msgs, used: 0, total: 0 }),
    decreases msgs.len(),
{
    if msgs.len() > 0 {
        let head = msgs.drop_last();
        assert forall|i: int| 0 <= i < head.len() implies !has_media(#[trigger] head[i]) by {
            assert(head[i] == msgs[i]);
        }
        lemma_expand_plain(head, reads);
        assert(!has_media(msgs[msgs.len() - 1]));
        assert(head.push(msgs.last()) =~= msgs);
    } else {
        assert(msgs =~= Seq::empty());
    }
}

/// What is sent carries no more encoded media than the budget.
pub proof fn lemma_expand_budget(msgs: Seq<JsonView>, reads: Seq<MediaReadView>)
    ensures
        expand_all(msgs, reads) matches Expansion::Going { total, .. } ==> total
            <= REQUEST_BUDGET_BYTES,
    decreases msgs.len(),
{
    if msgs.len() > 0 {
        lemma_expand_budget(msgs.drop_last(), reads);
        let m = msgs.last();
        if let Expansion::Going { out, used, total } = expand_all(msgs.drop_last(), reads) {
            if has_media(m) {
                lemma_parts_budget(
                    Expansion::Going { out: Seq::empty(), used, total },
                    m.array_at("content"@)->0,
                    reads,
                );
            }
        }
    }
}

proof fn lemma_parts_budget(st: Expansion, parts: Seq<JsonView>, reads: Seq<MediaReadView>)
    requires
        st matches Expansion::Going { total, .. } ==> total <= REQUEST_BUDGET_BYTES,
    ensures
        expand_parts(st, parts, reads) matches Expansion::Going { total, .. } ==> total
            <= REQUEST_BUDGET_BYTES,
    decreases parts.len(),
{
    if parts.len() > 0 {
        lemma_parts_budget(st, parts.drop_last(), reads);
    }
}

} // verus!
