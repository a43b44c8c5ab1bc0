//! Files by their names: kinds, content types, caching, and the ranges in which
//! they are served.
use crate::decimal::{dec, parse_unsigned, read_u64, write_u64, write_usize};
use crate::paths::{extension, extension_of, lies_within, within};
use crate::sse::bytes_text;
use crate::text::{
    char_index, char_index_chars, from_chars, list_has, opt_str, opt_text, str_eq, strip_prefix,
    strip_prefix_chars, texts, to_chars, trim, trim_chars,
};
use vstd::prelude::*;
use vstd::slice::slice_subrange;
use vstd::utf8::encode_utf8;

verus! {

/// An attachment that a message refers to.
#[derive(Debug)]
pub struct AttachmentRef {
    pub staged_path: String,
    pub kind: String,
}

/// What an attachment reference holds.
pub struct AttachmentView {
    pub staged_path: Seq<char>,
    pub kind: Seq<char>,
}

impl View for AttachmentRef {
    type V = AttachmentView;

    open spec fn view(&self) -> AttachmentView {
        AttachmentView { staged_path: self.staged_path@, kind: self.kind@ }
    }
}

impl Clone for AttachmentRef {
    fn clone(&self) -> (r: Self)
        ensures
            r@ == self@,
    {
        AttachmentRef { staged_path: self.staged_path.clone(), kind: self.kind.clone() }
    }
}

/// What a list of attachment references holds.
pub open spec fn attachments(v: Seq<AttachmentRef>) -> Seq<AttachmentView> {
    v.map_values(|a: AttachmentRef| a@)
}

/// The outcome of staging one file.
#[derive(Debug)]
pub struct StagedFile {
    pub ok: bool,
    pub staged_path: String,
    pub kind: String,
    pub original_name: String,
    pub size: u64,
    pub text: Option<String>,
    pub error: Option<String>,
}

/// The kinds of media.
#[derive(Debug, Clone, Copy, PartialEq, Eq, Structural)]
pub enum MediaKind {
    Image,
    Video,
    Audio,
    Unsupported,
}

/// The kinds of documents.
#[derive(Debug, Clone, Copy, PartialEq, Eq, Structural)]
pub enum DocKind {
    Html,
    Pdf,
    Docx,
    Csv,
    Markdown,
    Text,
    Unsupported,
}

/// The kinds of files.
#[derive(Debug, Clone, Copy, PartialEq, Eq, Structural)]
pub enum FileKind {
    Image,
    Video,
    Audio,
    Html,
    Pdf,
    Docx,
    Csv,
    Markdown,
    Text,
    Unsupported,
}

/// A character with an ASCII capital made small.
pub open spec fn ascii_lower(c: char) -> char {
    if 'A' <= c <= 'Z' {
        (c as u32 + 32) as char
    } else {
        c
    }
}

/// A text with its ASCII capitals made small.
pub open spec fn lower_ascii(s: Seq<char>) -> Seq<char> {
    s.map_values(|c: char| ascii_lower(c))
}

/// Makes the ASCII capitals of a string small.
pub fn to_ascii_lower(s: &str) -> (r: String)
    ensures
        r@ == lower_ascii(s@),
{
    let v = to_chars(s);
    let mut out = String::new();
    let mut i: usize = 0;
    while i < v.len()
        invariant
            v@ == s@,
            i <= v@.len(),
            out@.len() == i,
            forall|k: int| 0 <= k < i ==> out@[k] == ascii_lower(v@[k]),
        decreases v@.len() - i,
    {
        let c = v[i];
        if 'A' <= c && c <= 'Z' {
            out.push((c as u8 + 32) as char);
        } else {
            out.push(c);
        }
        i = i + 1;
    }
    assert(out@ =~= lower_ascii(s@));
    out
}

/// The extension of a path in small letters.
pub open spec fn ext_of(path: Seq<char>) -> Option<Seq<char>> {
    match extension(path) {
        Some(e) => Some(lower_ascii(e)),
        None => None,
    }
}

fn lower_extension(path: &str) -> (r: Option<String>)
    ensures
        opt_text(r) == ext_of(path@),
{
    match extension_of(path) {
        Some(e) => Some(to_ascii_lower(e.as_str())),
        None => None,
    }
}

/// The extensions of images.
pub open spec fn is_image_ext(e: Seq<char>) -> bool {
    ||| e == "png"@
    ||| e == "jpg"@
    ||| e == "jpeg"@
    ||| e == "webp"@
    ||| e == "gif"@
    ||| e == "bmp"@
    ||| e == "svg"@
    ||| e == "ico"@
}

fn image_ext(e: &str) -> (r: bool)
    ensures
        r == is_image_ext(e@),
{
    str_eq(e, "png") || str_eq(e, "jpg") || str_eq(e, "jpeg") || str_eq(e, "webp") || str_eq(e, "gif") || str_eq(e, "bmp") || str_eq(e, "svg") || str_eq(e, "ico")
}

/// The extensions of videos.
pub open spec fn is_video_ext(e: Seq<char>) -> bool {
    ||| e == "mp4"@
    ||| e == "webm"@
    ||| e == "mov"@
    ||| e == "mkv"@
    ||| e == "m4v"@
}

fn video_ext(e: &str) -> (r: bool)
    ensures
        r == is_video_ext(e@),
{
    str_eq(e, "mp4") || str_eq(e, "webm") || str_eq(e, "mov") || str_eq(e, "mkv") || str_eq(e, "m4v")
}

/// The extensions of sounds.
pub open spec fn is_audio_ext(e: Seq<char>) -> bool {
    ||| e == "mp3"@
    ||| e == "wav"@
    ||| e == "flac"@
    ||| e == "ogg"@
    ||| e == "m4a"@
    ||| e == "aac"@
    ||| e == "opus"@
}

fn audio_ext(e: &str) -> (r: bool)
    ensures
        r == is_audio_ext(e@),
{
    str_eq(e, "mp3") || str_eq(e, "wav") || str_eq(e, "flac") || str_eq(e, "ogg") || str_eq(e, "m4a") || str_eq(e, "aac") || str_eq(e, "opus")
}

/// The kind of media that a path's extension stands for.
pub open spec fn media_kind(path: Seq<char>) -> MediaKind {
    match ext_of(path) {
        Some(e) => if is_image_ext(e) {
            MediaKind::Image
        } else if is_video_ext(e) {
            MediaKind::Video
        } else if is_audio_ext(e) {
            MediaKind::Audio
        } else {
            MediaKind::Unsupported
        },
        None => MediaKind::Unsupported,
    }
}

/// Tells the kind of media by the extension.
pub fn media_kind_from_ext(path: &str) -> (r: MediaKind)
    ensures
        r == media_kind(path@),
{
    match lower_extension(path) {
        Some(e) => if image_ext(e.as_str()) {
            MediaKind::Image
        } else if video_ext(e.as_str()) {
            MediaKind::Video
        } else if audio_ext(e.as_str()) {
            MediaKind::Audio
        } else {
            MediaKind::Unsupported
        },
        None => MediaKind::Unsupported,
    }
}

/// The extensions of web pages.
pub open spec fn is_html_ext(e: Seq<char>) -> bool {
    ||| e == "html"@
    ||| e == "htm"@
}

fn html_ext(e: &str) -> (r: bool)
    ensures
        r == is_html_ext(e@),
{
    str_eq(e, "html") || str_eq(e, "htm")
}

/// The extensions of Markdown texts.
pub open spec fn is_markdown_ext(e: Seq<char>) -> bool {
    ||| e == "md"@
    ||| e == "markdown"@
}

fn markdown_ext(e: &str) -> (r: bool)
    ensures
        r == is_markdown_ext(e@),
{
    str_eq(e, "md") || str_eq(e, "markdown")
}

/// The extensions of plain texts, configuration and source code.
pub open spec fn is_text_ext(e: Seq<char>) -> bool {
    ||| e == "txt"@
    ||| e == "text"@
    ||| e == "log"@
    ||| e == "toml"@
    ||| e == "yaml"@
    ||| e == "yml"@
    ||| e == "ini"@
    ||| e == "cfg"@
    ||| e == "conf"@
    ||| e == "properties"@
    ||| e == "env"@
    ||| e == "json"@
    ||| e == "xml"@
    ||| e == "py"@
    ||| e == "js"@
    ||| e == "mjs"@
    ||| e == "ts"@
    ||| e == "tsx"@
    ||| e == "jsx"@
    ||| e == "rs"@
    ||| e == "go"@
    ||| e == "java"@
    ||| e == "kt"@
    ||| e == "c"@
    ||| e == "h"@
    ||| e == "cpp"@
    ||| e == "hpp"@
    ||| e == "cs"@
    ||| e == "rb"@
    ||| e == "php"@
    ||| e == "swift"@
    ||| e == "sh"@
    ||| e == "bash"@
    ||| e == "zsh"@
    ||| e == "bat"@
    ||| e == "cmd"@
    ||| e == "ps1"@
    ||| e == "css"@
    ||| e == "scss"@
    ||| e == "less"@
}

fn text_ext(e: &str) -> (r: bool)
    ensures
        r == is_text_ext(e@),
{
    str_eq(e, "txt") || str_eq(e, "text") || str_eq(e, "log") || str_eq(e, "toml") || str_eq(e, "yaml") || str_eq(e, "yml") || str_eq(e, "ini") || str_eq(e, "cfg") || str_eq(e, "conf") || str_eq(e, "properties") || str_eq(e, "env") || str_eq(e, "json") || str_eq(e, "xml") || str_eq(e, "py") || str_eq(e, "js") || str_eq(e, "mjs") || str_eq(e, "ts") || str_eq(e, "tsx") || str_eq(e, "jsx") || str_eq(e, "rs") || str_eq(e, "go") || str_eq(e, "java") || str_eq(e, "kt") || str_eq(e, "c") || str_eq(e, "h") || str_eq(e, "cpp") || str_eq(e, "hpp") || str_eq(e, "cs") || str_eq(e, "rb") || str_eq(e, "php") || str_eq(e, "swift") || str_eq(e, "sh") || str_eq(e, "bash") || str_eq(e, "zsh") || str_eq(e, "bat") || str_eq(e, "cmd") || str_eq(e, "ps1") || str_eq(e, "css") || str_eq(e, "scss") || str_eq(e, "less")
}

/// The kind of document that a path's extension stands for.
pub open spec fn doc_kind(path: Seq<char>) -> DocKind {
    match ext_of(path) {
        Some(e) => if is_html_ext(e) {
            DocKind::Html
        } else if e == "pdf"@ {
            DocKind::Pdf
        } else if e == "docx"@ {
            DocKind::Docx
        } else if e == "csv"@ {
            DocKind::Csv
        } else if is_markdown_ext(e) {
            DocKind::Markdown
        } else if is_text_ext(e) {
            DocKind::Text
        } else {
            DocKind::Unsupported
        },
        None => DocKind::Unsupported,
    }
}

/// Tells the kind of document by the extension.
pub fn doc_kind_from_ext(path: &str) -> (r: DocKind)
    ensures
        r == doc_kind(path@),
{
    match lower_extension(path) {
        Some(e) => if html_ext(e.as_str()) {
            DocKind::Html
        } else if str_eq(e.as_str(), "pdf") {
            DocKind::Pdf
        } else if str_eq(e.as_str(), "docx") {
            DocKind::Docx
        } else if str_eq(e.as_str(), "csv") {
            DocKind::Csv
        } else if markdown_ext(e.as_str()) {
            DocKind::Markdown
        } else if text_ext(e.as_str()) {
            DocKind::Text
        } else {
            DocKind::Unsupported
        },
        None => DocKind::Unsupported,
    }
}

/// The kind of file that a path's extension stands for: the media kinds come
/// before the document kinds.
pub open spec fn kind_of_file(path: Seq<char>) -> FileKind {
    match media_kind(path) {
        MediaKind::Image => FileKind::Image,
        MediaKind::Video => FileKind::Video,
        MediaKind::Audio => FileKind::Audio,
        MediaKind::Unsupported => match doc_kind(path) {
            DocKind::Html => FileKind::Html,
            DocKind::Pdf => FileKind::Pdf,
            DocKind::Docx => FileKind::Docx,
            DocKind::Csv => FileKind::Csv,
            DocKind::Markdown => FileKind::Markdown,
            DocKind::Text => FileKind::Text,
            DocKind::Unsupported => FileKind::Unsupported,
        },
    }
}

/// Tells the kind of file by the extension.
pub fn file_kind(path: &str) -> (r: FileKind)
    ensures
        r == kind_of_file(path@),
{
    match media_kind_from_ext(path) {
        MediaKind::Image => FileKind::Image,
        MediaKind::Video => FileKind::Video,
        MediaKind::Audio => FileKind::Audio,
        MediaKind::Unsupported => match doc_kind_from_ext(path) {
            DocKind::Html => FileKind::Html,
            DocKind::Pdf => FileKind::Pdf,
            DocKind::Docx => FileKind::Docx,
            DocKind::Csv => FileKind::Csv,
            DocKind::Markdown => FileKind::Markdown,
            DocKind::Text => FileKind::Text,
            DocKind::Unsupported => FileKind::Unsupported,
        },
    }
}

/// The word for a kind of file.
pub open spec fn kind_word(k: FileKind) -> Seq<char> {
    match k {
        FileKind::Image => "image"@,
        FileKind::Video => "video"@,
        FileKind::Audio => "audio"@,
        FileKind::Html => "html"@,
        FileKind::Pdf => "pdf"@,
        FileKind::Docx => "docx"@,
        FileKind::Csv => "csv"@,
        FileKind::Markdown => "markdown"@,
        FileKind::Text => "text"@,
        FileKind::Unsupported => "unsupported"@,
    }
}

/// The word for a kind of file, as messages carry it.
pub fn file_kind_str(k: FileKind) -> (r: &'static str)
    ensures
        r@ == kind_word(k),
{
    match k {
        FileKind::Image => "image",
        FileKind::Video => "video",
        FileKind::Audio => "audio",
        FileKind::Html => "html",
        FileKind::Pdf => "pdf",
        FileKind::Docx => "docx",
        FileKind::Csv => "csv",
        FileKind::Markdown => "markdown",
        FileKind::Text => "text",
        FileKind::Unsupported => "unsupported",
    }
}

/// How long a file may be kept: a text that is edited is fetched anew each
/// time, anything else for an hour.
pub open spec fn cache_rule(path: Seq<char>) -> Seq<char> {
    match kind_of_file(path) {
        FileKind::Markdown | FileKind::Text => "no-store"@,
        _ => "public, max-age=3600"@,
    }
}

/// The `cache-control` value for a file.
pub fn cache_control_for(path: &str) -> (r: &'static str)
    ensures
        r@ == cache_rule(path@),
{
    match file_kind(path) {
        FileKind::Markdown => "no-store",
        FileKind::Text => "no-store",
        _ => "public, max-age=3600",
    }
}

/// The content type that a small-letter extension stands for.
pub open spec fn mime_of(e: Option<Seq<char>>) -> Seq<char> {
    match e {
        Some(e) => if e == "png"@ {
            "image/png"@
        } else if e == "jpg"@ || e == "jpeg"@ {
            "image/jpeg"@
        } else if e == "webp"@ {
            "image/webp"@
        } else if e == "gif"@ {
            "image/gif"@
        } else if e == "bmp"@ {
            "image/bmp"@
        } else if e == "svg"@ {
            "image/svg+xml"@
        } else if e == "ico"@ {
            "image/x-icon"@
        } else if e == "mp4"@ {
            "video/mp4"@
        } else if e == "webm"@ {
            "video/webm"@
        } else if e == "mov"@ {
            "video/quicktime"@
        } else if e == "mkv"@ {
            "video/x-matroska"@
        } else if e == "m4v"@ {
            "video/x-m4v"@
        } else if e == "mp3"@ {
            "audio/mpeg"@
        } else if e == "wav"@ {
            "audio/wav"@
        } else if e == "flac"@ {
            "audio/flac"@
        } else if e == "ogg"@ {
            "audio/ogg"@
        } else if e == "m4a"@ {
            "audio/mp4"@
        } else if e == "aac"@ {
            "audio/aac"@
        } else if e == "opus"@ {
            "audio/ogg"@
        } else if e == "html"@ || e == "htm"@ {
            "text/html"@
        } else if e == "pdf"@ {
            "application/pdf"@
        } else if e == "csv"@ {
            "text/csv"@
        } else if e == "docx"@ {
            "application/vnd.openxmlformats-officedocument.wordprocessingml.document"@
        } else if e == "md"@ || e == "markdown"@ {
            "text/markdown"@
        } else if e == "txt"@ || e == "text"@ || e == "log"@ {
            "text/plain"@
        } else {
            "application/octet-stream"@
        },
        None => "application/octet-stream"@,
    }
}

/// The content type of a file, by its extension.
pub fn mime_from_ext(path: &str) -> (r: &'static str)
    ensures
        r@ == mime_of(ext_of(path@)),
{
    match lower_extension(path) {
        Some(x) => {
            let e: &str = x.as_str();
            if str_eq(e, "png") {
                "image/png"
            } else if str_eq(e, "jpg") || str_eq(e, "jpeg") {
                "image/jpeg"
            } else if str_eq(e, "webp") {
                "image/webp"
            } else if str_eq(e, "gif") {
                "image/gif"
            } else if str_eq(e, "bmp") {
                "image/bmp"
            } else if str_eq(e, "svg") {
                "image/svg+xml"
            } else if str_eq(e, "ico") {
                "image/x-icon"
            } else if str_eq(e, "mp4") {
                "video/mp4"
            } else if str_eq(e, "webm") {
                "video/webm"
            } else if str_eq(e, "mov") {
                "video/quicktime"
            } else if str_eq(e, "mkv") {
                "video/x-matroska"
            } else if str_eq(e, "m4v") {
                "video/x-m4v"
            } else if str_eq(e, "mp3") {
                "audio/mpeg"
            } else if str_eq(e, "wav") {
                "audio/wav"
            } else if str_eq(e, "flac") {
                "audio/flac"
            } else if str_eq(e, "ogg") {
                "audio/ogg"
            } else if str_eq(e, "m4a") {
                "audio/mp4"
            } else if str_eq(e, "aac") {
                "audio/aac"
            } else if str_eq(e, "opus") {
                "audio/ogg"
            } else if str_eq(e, "html") || str_eq(e, "htm") {
                "text/html"
            } else if str_eq(e, "pdf") {
                "application/pdf"
            } else if str_eq(e, "csv") {
                "text/csv"
            } else if str_eq(e, "docx") {
                "application/vnd.openxmlformats-officedocument.wordprocessingml.document"
            } else if str_eq(e, "md") || str_eq(e, "markdown") {
                "text/markdown"
            } else if str_eq(e, "txt") || str_eq(e, "text") || str_eq(e, "log") {
                "text/plain"
            } else {
                "application/octet-stream"
            }
        },
        None => "application/octet-stream",
    }
}

/// Whether a path lies in one of the roots. A path or root that does not exist
/// has no resolved form; such a root holds nothing.
pub open spec fn in_roots(path: Option<Seq<char>>, roots: Seq<Option<Seq<char>>>) -> bool {
    match path {
        Some(p) => exists|i: int|
            0 <= i < roots.len() && (#[trigger] roots[i] matches Some(r) && lies_within(p, r)),
        None => false,
    }
}

/// The resolved forms of a list of roots.
pub open spec fn root_texts(v: Seq<Option<String>>) -> Seq<Option<Seq<char>>> {
    v.map_values(|o: Option<String>| opt_text(o))
}

/// Whether a resolved path lies in one of the resolved roots.
pub fn is_within_roots(path: Option<&str>, roots: &Vec<Option<String>>) -> (r: bool)
    ensures
        r == in_roots(opt_str(path), root_texts(roots@)),
{
    let p: &str = match path {
        Some(p) => p,
        None => {
            return false;
        },
    };
    let mut i: usize = 0;
    while i < roots.len()
        invariant
            opt_str(path) == Some(p@),
            i <= roots@.len(),
            forall|k: int|
                0 <= k < i ==> !(#[trigger] root_texts(roots@)[k] matches Some(r) && lies_within(
                    p@,
                    r,
                )),
        decreases roots@.len() - i,
    {
        assert(root_texts(roots@)[i as int] == opt_text(roots@[i as int]));
        if let Some(r) = &roots[i] {
            if within(p, r.as_str()) {
                return true;
            }
        }
        i = i + 1;
    }
    false
}

/// The range that a `Range` header asks for of a file of `total` bytes, as the
/// first and the last byte: `bytes=a-b`, `bytes=a-`, or `bytes=-n` for the last
/// `n` bytes. A last byte past the end is the end.
pub open spec fn range_of(header: Seq<char>, total: u64) -> Option<(u64, u64)> {
    match strip_prefix(header, "bytes="@) {
        Some(rest) => {
            let h = trim(rest);
            match char_index(h, '-') {
                Some(i) => {
                    let first = parse_unsigned(trim(h.take(i)), u64::MAX as nat);
                    let e = trim(h.skip(i + 1));
                    let last = parse_unsigned(e, u64::MAX as nat);
                    if total == 0 {
                        None
                    } else if i == 0 {
                        match last {
                            Some(n) => if n == 0 {
                                None
                            } else if n >= total {
                                Some((0u64, (total - 1) as u64))
                            } else {
                                Some(((total - n) as u64, (total - 1) as u64))
                            },
                            None => None,
                        }
                    } else {
                        match first {
                            Some(a) => if a >= total {
                                None
                            } else if e.len() == 0 {
                                Some((a as u64, (total - 1) as u64))
                            } else {
                                match last {
                                    Some(b) => if b < a {
                                        None
                                    } else if b >= total {
                                        Some((a as u64, (total - 1) as u64))
                                    } else {
                                        Some((a as u64, b as u64))
                                    },
                                    None => None,
                                }
                            },
                            None => None,
                        }
                    }
                },
                None => None,
            }
        },
        None => None,
    }
}

/// Reads a `Range` header against the size of the file.
pub fn parse_range(header: &str, total: u64) -> (r: Option<(u64, u64)>)
    ensures
        r == range_of(header@, total),
        r matches Some((first, last)) ==> first <= last < total,
{
    if total == 0 {
        return None;
    }
    let v = to_chars(header);
    let p = to_chars("bytes=");
    let rest = match strip_prefix_chars(v.as_slice(), p.as_slice()) {
        Some(t) => t,
        None => {
            return None;
        },
    };
    let h = trim_chars(rest);
    let n: usize = h.len();
    let i: usize = match char_index_chars(h, '-') {
        Some(i) => i,
        None => {
            return None;
        },
    };
    proof {
        assert(h@.subrange(0, i as int) =~= h@.take(i as int));
        assert(h@.subrange(i + 1, n as int) =~= h@.skip(i + 1));
    }
    let e = trim_chars(slice_subrange(h, i + 1, n));
    if i == 0 {
        let count: u64 = match read_u64(e) {
            Some(c) => c,
            None => {
                return None;
            },
        };
        if count == 0 {
            return None;
        }
        let first: u64 = if count >= total {
            0
        } else {
            total - count
        };
        return Some((first, total - 1));
    }
    let first: u64 = match read_u64(trim_chars(slice_subrange(h, 0, i))) {
        Some(a) => a,
        None => {
            return None;
        },
    };
    if first >= total {
        return None;
    }
    if e.len() == 0 {
        return Some((first, total - 1));
    }
    match read_u64(e) {
        Some(b) => {
            let last: u64 = if b < total {
                b
            } else {
                total - 1
            };
            if last < first {
                None
            } else {
                Some((first, last))
            }
        },
        None => None,
    }
}

// ---------------------------------------------------------------------------
// Serving a file
// ---------------------------------------------------------------------------

/// The value of a digit in base 16.
pub open spec fn hex_value(b: u8) -> Option<int> {
    if 0x30 <= b <= 0x39 {
        Some(b - 0x30)
    } else if 0x41 <= b <= 0x46 {
        Some(b - 0x41 + 10)
    } else if 0x61 <= b <= 0x66 {
        Some(b - 0x61 + 10)
    } else {
        None
    }
}

/// Bytes with each percent sign and two digits in base 16 behind it as the byte that
/// the digits give.
pub open spec fn percent_bytes(v: Seq<u8>) -> Seq<u8>
    decreases v.len(),
{
    if v.len() == 0 {
        Seq::empty()
    } else if v[0] == 0x25 && v.len() >= 3 && hex_value(v[1]) is Some && hex_value(v[2]) is Some {
        seq![(16 * hex_value(v[1])->0 + hex_value(v[2])->0) as u8] + percent_bytes(v.skip(3))
    } else {
        seq![v[0]] + percent_bytes(v.skip(1))
    }
}

/// What percent-decoding a text gives: the text of its bytes, decoded.
pub open spec fn percent_decoded(text: Seq<char>) -> Seq<char> {
    bytes_text(percent_bytes(encode_utf8(text)))
}

/// `percent_encoding::percent_decode_str(..).decode_utf8_lossy()`: the bytes of the
/// text, with each percent sign and two digits in base 16 behind it as one byte, read
/// as `String::from_utf8_lossy` reads them.
#[verifier::external_body]
fn percent_decode(text: &str) -> (r: String)
    ensures
        r@ == percent_decoded(text@),
{
    percent_encoding::percent_decode_str(text).decode_utf8_lossy().into_owned()
}

/// A text without the slashes that it begins with.
pub open spec fn without_leading_slashes(s: Seq<char>) -> Seq<char>
    decreases s.len(),
{
    if s.len() > 0 && s[0] == '/' {
        without_leading_slashes(s.skip(1))
    } else {
        s
    }
}

/// `text` without the slashes that it begins with.
pub fn strip_leading_slashes(text: &str) -> (r: String)
    ensures
        r@ == without_leading_slashes(text@),
{
    let v = to_chars(text);
    let mut i: usize = 0;
    proof {
        assert(v@.skip(0) =~= v@);
    }
    while i < v.len() && v[i] == '/'
        invariant
            v@ == text@,
            i <= v@.len(),
            without_leading_slashes(text@) == without_leading_slashes(v@.skip(i as int)),
        decreases v@.len() - i,
    {
        assert(v@.skip(i as int).skip(1) =~= v@.skip(i + 1));
        i = i + 1;
    }
    assert(v@.subrange(i as int, v@.len() as int) =~= v@.skip(i as int));
    from_chars(slice_subrange(v.as_slice(), i, v.len()))
}

/// The file that a media address asks for: the address's path without its
/// leading slashes, percent-decoded.
pub fn media_path(raw: &str) -> (r: String)
    ensures
        r@ == percent_decoded(without_leading_slashes(raw@)),
{
    let encoded = strip_leading_slashes(raw);
    percent_decode(encoded.as_str())
}

/// The origin to which an answer is opened: the one that asked, when it is one of
/// the program's own. An empty one and `null` never are.
pub fn media_origin(origin: Option<&str>, own: &Vec<String>) -> (r: Option<String>)
    ensures
        opt_text(r) == (match opt_str(origin) {
            Some(o) => if o.len() == 0 || o == "null"@ || !texts(own@).contains(o) {
                None
            } else {
                Some(o)
            },
            None => None,
        }),
{
    match origin {
        Some(o) => if o.is_empty() || str_eq(o, "null") || !list_has(own, o) {
            None
        } else {
            Some(o.to_owned())
        },
        None => None,
    }
}

/// How a request for a file is answered.
#[derive(Debug, Clone, Copy, PartialEq, Eq, Structural)]
pub enum MediaPlan {
    NotFound,
    Forbidden,
    Whole,
    Part { first: u64, last: u64 },
}

/// How a request for a file is answered, by the resolved path, the resolved
/// roots, the file's size and the `Range` header, as far as there are any.
pub open spec fn media_answer(
    path: Option<Seq<char>>,
    roots: Seq<Option<Seq<char>>>,
    size: Option<u64>,
    range: Option<Seq<char>>,
) -> MediaPlan {
    if path is None {
        MediaPlan::NotFound
    } else if !in_roots(path, roots) {
        MediaPlan::Forbidden
    } else {
        match size {
            Some(total) => match range {
                Some(h) => match range_of(h, total) {
                    Some((first, last)) => MediaPlan::Part { first, last },
                    None => MediaPlan::Whole,
                },
                None => MediaPlan::Whole,
            },
            None => MediaPlan::NotFound,
        }
    }
}

/// Decides how a request for a file is answered.
pub fn media_plan(
    path: Option<&str>,
    roots: &Vec<Option<String>>,
    size: Option<u64>,
    range: Option<&str>,
) -> (r: MediaPlan)
    ensures
        r == media_answer(opt_str(path), root_texts(roots@), size, opt_str(range)),
{
    if path.is_none() {
        return MediaPlan::NotFound;
    }
    if !is_within_roots(path, roots) {
        return MediaPlan::Forbidden;
    }
    match size {
        Some(total) => match range {
            Some(h) => match parse_range(h, total) {
                Some((first, last)) => MediaPlan::Part { first, last },
                None => MediaPlan::Whole,
            },
            None => MediaPlan::Whole,
        },
        None => MediaPlan::NotFound,
    }
}

/// No file outside the roots is served, whatever the request says.
pub proof fn lemma_served_within_roots(
    path: Option<Seq<char>>,
    roots: Seq<Option<Seq<char>>>,
    size: Option<u64>,
    range: Option<Seq<char>>,
)
    ensures
        media_answer(path, roots, size, range) is Whole || media_answer(path, roots, size, range) is Part
            ==> in_roots(path, roots),
{
}

/// The status of an answer.
pub fn media_status(plan: MediaPlan) -> (r: u16)
    ensures
        r == (match plan {
            MediaPlan::NotFound => 404u16,
            MediaPlan::Forbidden => 403u16,
            MediaPlan::Whole => 200u16,
            MediaPlan::Part { .. } => 206u16,
        }),
{
    match plan {
        MediaPlan::NotFound => 404,
        MediaPlan::Forbidden => 403,
        MediaPlan::Whole => 200,
        MediaPlan::Part { .. } => 206,
    }
}

/// The text with which a request that is refused is answered.
pub fn refusal_text(plan: MediaPlan) -> (r: &'static str)
    ensures
        r@ == (match plan {
            MediaPlan::NotFound => "not found"@,
            MediaPlan::Forbidden => "forbidden"@,
            _ => ""@,
        }),
{
    match plan {
        MediaPlan::NotFound => "not found",
        MediaPlan::Forbidden => "forbidden",
        _ => "",
    }
}

/// A header with its value.
pub open spec fn header(name: Seq<char>, value: Seq<char>) -> (Seq<char>, Seq<char>) {
    (name, value)
}

/// The headers of a list.
pub open spec fn headers(v: Seq<(String, String)>) -> Seq<(Seq<char>, Seq<char>)> {
    v.map_values(|h: (String, String)| (h.0@, h.1@))
}

/// The headers of an answer that carries a file or a part of it.
pub open spec fn media_header_list(
    path: Seq<char>,
    plan: MediaPlan,
    total: u64,
    body_len: nat,
    origin: Option<Seq<char>>,
) -> Seq<(Seq<char>, Seq<char>)> {
    let base = seq![
        header("content-type"@, mime_of(ext_of(path))),
        header("accept-ranges"@, "bytes"@),
        header("content-length"@, dec(body_len)),
        header("cache-control"@, cache_rule(path)),
    ];
    let opened = match origin {
        Some(o) => base + seq![
            header("access-control-allow-origin"@, o),
            header("vary"@, "Origin"@),
        ],
        None => base,
    };
    match plan {
        MediaPlan::Part { first, last } => opened + seq![
            header(
                "content-range"@,
                "bytes "@ + dec(first as nat) + "-"@ + dec(last as nat) + "/"@ + dec(total as nat),
            ),
        ],
        _ => opened,
    }
}

fn push_header(v: &mut Vec<(String, String)>, name: &str, value: &str)
    ensures
        headers(final(v)@) == headers(old(v)@).push((name@, value@)),
{
    v.push((name.to_owned(), value.to_owned()));
    assert(headers(v@) =~= headers(old(v)@).push((name@, value@)));
}

/// The headers of an answer that carries a file or a part of it.
pub fn media_headers(
    path: &str,
    plan: MediaPlan,
    total: u64,
    body_len: usize,
    origin: Option<&str>,
) -> (r: Vec<(String, String)>)
    ensures
        headers(r@) == media_header_list(path@, plan, total, body_len as nat, opt_str(origin)),
{
    let mut v: Vec<(String, String)> = Vec::new();
    push_header(&mut v, "content-type", mime_from_ext(path));
    push_header(&mut v, "accept-ranges", "bytes");
    let len = write_usize(body_len);
    push_header(&mut v, "content-length", len.as_str());
    push_header(&mut v, "cache-control", cache_control_for(path));
    if let Some(o) = origin {
        push_header(&mut v, "access-control-allow-origin", o);
        push_header(&mut v, "vary", "Origin");
    }
    if let MediaPlan::Part { first, last } = plan {
        let mut s = "bytes ".to_owned();
        s.push_str(write_u64(first).as_str());
        s.push_str("-");
        s.push_str(write_u64(last).as_str());
        s.push_str("/");
        s.push_str(write_u64(total).as_str());
        push_header(&mut v, "content-range", s.as_str());
    }
    assert(headers(v@) =~= media_header_list(path@, plan, total, body_len as nat, opt_str(origin)));
    v
}

/// How many bytes a part has.
pub fn part_len(first: u64, last: u64) -> (r: u64)
    requires
        first <= last,
        last - first < u64::MAX,
    ensures
        r == last - first + 1,
{
    last - first + 1
}

} // verus!
