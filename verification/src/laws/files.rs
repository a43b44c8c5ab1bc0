//! What is served of a file: the bytes that were asked for, under the type that the file
//! has, and nothing from outside the roots.
use crate::decimal::{all_digits, dec, is_digit, lemma_dec_reads_back, lemma_write_read};
use crate::files::{
    cache_rule, ext_of, header, kind_of_file, lower_ascii, media_answer, media_header_list,
    mime_of, percent_bytes, range_of, without_leading_slashes, FileKind, MediaPlan,
};
use crate::paths::{extension, lies_within};
use crate::text::{char_index, is_white, lemma_char_index_is, strip_prefix, trim};
use vstd::prelude::*;

verus! {

// ---------------------------------------------------------------------------
// Kinds
// ---------------------------------------------------------------------------

/// What a file is goes by its extension alone, and capitals make no difference.
pub proof fn lemma_capitals_do_not_matter(a: Seq<char>, b: Seq<char>)
    requires
        extension(a) is Some,
        extension(b) is Some,
        lower_ascii(extension(a)->0) == lower_ascii(extension(b)->0),
    ensures
        kind_of_file(a) == kind_of_file(b),
        mime_of(ext_of(a)) == mime_of(ext_of(b)),
        cache_rule(a) == cache_rule(b),
{
}


proof fn lemma_media_types()
    ensures
        "image/"@.is_prefix_of("image/png"@),
        "image/"@.is_prefix_of("image/jpeg"@),
        "image/"@.is_prefix_of("image/webp"@),
        "image/"@.is_prefix_of("image/gif"@),
        "image/"@.is_prefix_of("image/bmp"@),
        "image/"@.is_prefix_of("image/svg+xml"@),
        "image/"@.is_prefix_of("image/x-icon"@),
        "video/"@.is_prefix_of("video/mp4"@),
        "video/"@.is_prefix_of("video/webm"@),
        "video/"@.is_prefix_of("video/quicktime"@),
        "video/"@.is_prefix_of("video/x-matroska"@),
        "video/"@.is_prefix_of("video/x-m4v"@),
        "audio/"@.is_prefix_of("audio/mpeg"@),
        "audio/"@.is_prefix_of("audio/wav"@),
        "audio/"@.is_prefix_of("audio/flac"@),
        "audio/"@.is_prefix_of("audio/ogg"@),
        "audio/"@.is_prefix_of("audio/mp4"@),
        "audio/"@.is_prefix_of("audio/aac"@),
{
    reveal_strlit("image/");
    reveal_strlit("video/");
    reveal_strlit("audio/");
    reveal_strlit("image/png");
    reveal_strlit("image/jpeg");
    reveal_strlit("image/webp");
    reveal_strlit("image/gif");
    reveal_strlit("image/bmp");
    reveal_strlit("image/svg+xml");
    reveal_strlit("image/x-icon");
    reveal_strlit("video/mp4");
    reveal_strlit("video/webm");
    reveal_strlit("video/quicktime");
    reveal_strlit("video/x-matroska");
    reveal_strlit("video/x-m4v");
    reveal_strlit("audio/mpeg");
    reveal_strlit("audio/wav");
    reveal_strlit("audio/flac");
    reveal_strlit("audio/ogg");
    reveal_strlit("audio/mp4");
    reveal_strlit("audio/aac");
    assert("image/png"@.take(6) =~= "image/"@);
    assert("image/jpeg"@.take(6) =~= "image/"@);
    assert("image/webp"@.take(6) =~= "image/"@);
    assert("image/gif"@.take(6) =~= "image/"@);
    assert("image/bmp"@.take(6) =~= "image/"@);
    assert("image/svg+xml"@.take(6) =~= "image/"@);
    assert("image/x-icon"@.take(6) =~= "image/"@);
    assert("video/mp4"@.take(6) =~= "video/"@);
    assert("video/webm"@.take(6) =~= "video/"@);
    assert("video/quicktime"@.take(6) =~= "video/"@);
    assert("video/x-matroska"@.take(6) =~= "video/"@);
    assert("video/x-m4v"@.take(6) =~= "video/"@);
    assert("audio/mpeg"@.take(6) =~= "audio/"@);
    assert("audio/wav"@.take(6) =~= "audio/"@);
    assert("audio/flac"@.take(6) =~= "audio/"@);
    assert("audio/ogg"@.take(6) =~= "audio/"@);
    assert("audio/mp4"@.take(6) =~= "audio/"@);
    assert("audio/aac"@.take(6) =~= "audio/"@);
}

proof fn lemma_media_extensions(e: Seq<char>)
    ensures
        crate::files::is_video_ext(e) ==> !crate::files::is_image_ext(e),
        crate::files::is_audio_ext(e) ==> !crate::files::is_image_ext(e)
            && !crate::files::is_video_ext(e),
{
    reveal_strlit("png");
    reveal_strlit("jpg");
    reveal_strlit("jpeg");
    reveal_strlit("webp");
    reveal_strlit("gif");
    reveal_strlit("bmp");
    reveal_strlit("svg");
    reveal_strlit("ico");
    reveal_strlit("mp4");
    reveal_strlit("webm");
    reveal_strlit("mov");
    reveal_strlit("mkv");
    reveal_strlit("m4v");
    reveal_strlit("mp3");
    reveal_strlit("wav");
    reveal_strlit("flac");
    reveal_strlit("ogg");
    reveal_strlit("m4a");
    reveal_strlit("aac");
    reveal_strlit("opus");
    assert("png"@.len() == 3 && "png"@[0] == 'p' && "jpg"@.len() == 3 && "jpg"@[0] == 'j');
    assert("jpeg"@.len() == 4 && "jpeg"@[0] == 'j' && "webp"@.len() == 4 && "webp"@[3] == 'p');
    assert("gif"@[0] == 'g' && "bmp"@[0] == 'b' && "svg"@[0] == 's' && "ico"@[0] == 'i');
    assert("gif"@.len() == 3 && "bmp"@.len() == 3 && "svg"@.len() == 3 && "ico"@.len() == 3);
    assert("mp4"@.len() == 3 && "mp4"@[0] == 'm' && "mp4"@[1] == 'p' && "mp4"@[2] == '4');
    assert("webm"@.len() == 4 && "webm"@[0] == 'w' && "webm"@[3] == 'm' && "webp"@[0] == 'w');
    assert("mov"@.len() == 3 && "mov"@[0] == 'm' && "mov"@[1] == 'o');
    assert("mkv"@.len() == 3 && "mkv"@[0] == 'm' && "mkv"@[1] == 'k');
    assert("m4v"@.len() == 3 && "m4v"@[0] == 'm' && "m4v"@[1] == '4' && "m4v"@[2] == 'v');
    assert("mp3"@.len() == 3 && "mp3"@[0] == 'm' && "mp3"@[1] == 'p' && "mp3"@[2] == '3');
    assert("wav"@.len() == 3 && "wav"@[0] == 'w' && "flac"@.len() == 4 && "flac"@[0] == 'f');
    assert("ogg"@.len() == 3 && "ogg"@[0] == 'o' && "aac"@.len() == 3 && "aac"@[0] == 'a');
    assert("m4a"@.len() == 3 && "m4a"@[0] == 'm' && "m4a"@[1] == '4' && "m4a"@[2] == 'a');
    assert("opus"@.len() == 4 && "opus"@[0] == 'o');
}

/// A picture, a video and a sound are served under a type of their kind; a text that is
/// edited is fetched anew each time.
pub proof fn lemma_types_agree(path: Seq<char>)
    ensures
        kind_of_file(path) == FileKind::Image ==> "image/"@.is_prefix_of(mime_of(ext_of(path))),
        kind_of_file(path) == FileKind::Video ==> "video/"@.is_prefix_of(mime_of(ext_of(path))),
        kind_of_file(path) == FileKind::Audio ==> "audio/"@.is_prefix_of(mime_of(ext_of(path))),
        kind_of_file(path) == FileKind::Text || kind_of_file(path) == FileKind::Markdown
            <==> cache_rule(path) == "no-store"@,
{
    lemma_media_types();
    if let Some(e) = ext_of(path) {
        lemma_media_extensions(e);
    }
    reveal_strlit("no-store");
    reveal_strlit("public, max-age=3600");
    assert("no-store"@.len() == 8 && "public, max-age=3600"@.len() == 20);
}

/// Files with the usual extensions are what these say.
pub proof fn lemma_usual_kinds(path: Seq<char>)
    requires
        extension(path) is Some,
    ensures
        ({
            let e = lower_ascii(extension(path)->0);
            &&& e == "png"@ || e == "jpg"@ || e == "jpeg"@ || e == "webp"@ || e == "gif"@ || e
                == "bmp"@ || e == "svg"@ || e == "ico"@ <==> kind_of_file(path) == FileKind::Image
            &&& e == "mp4"@ || e == "webm"@ || e == "mov"@ || e == "mkv"@ || e == "m4v"@
                <==> kind_of_file(path) == FileKind::Video
            &&& e == "mp3"@ || e == "wav"@ || e == "flac"@ || e == "ogg"@ || e == "m4a"@ || e
                == "aac"@ || e == "opus"@ <==> kind_of_file(path) == FileKind::Audio
        }),
{
    lemma_media_extensions(lower_ascii(extension(path)->0));
}

proof fn lemma_document_extensions(e: Seq<char>)
    requires
        crate::files::is_html_ext(e) || e == "pdf"@ || e == "docx"@ || e == "csv"@
            || crate::files::is_markdown_ext(e) || crate::files::is_text_ext(e),
    ensures
        !crate::files::is_image_ext(e) && !crate::files::is_video_ext(e)
            && !crate::files::is_audio_ext(e),
        e == "pdf"@ ==> !crate::files::is_html_ext(e),
        e == "docx"@ ==> !crate::files::is_html_ext(e) && e != "pdf"@,
        e == "csv"@ ==> !crate::files::is_html_ext(e) && e != "pdf"@ && e != "docx"@,
        crate::files::is_markdown_ext(e) ==> !crate::files::is_html_ext(e) && e != "pdf"@ && e
            != "docx"@ && e != "csv"@,
        crate::files::is_text_ext(e) ==> !crate::files::is_html_ext(e) && e != "pdf"@ && e
            != "docx"@ && e != "csv"@ && !crate::files::is_markdown_ext(e),
{
    reveal_strlit("png");
    reveal_strlit("jpg");
    reveal_strlit("jpeg");
    reveal_strlit("webp");
    reveal_strlit("gif");
    reveal_strlit("bmp");
    reveal_strlit("svg");
    reveal_strlit("ico");
    reveal_strlit("mp4");
    reveal_strlit("webm");
    reveal_strlit("mov");
    reveal_strlit("mkv");
    reveal_strlit("m4v");
    reveal_strlit("mp3");
    reveal_strlit("wav");
    reveal_strlit("flac");
    reveal_strlit("ogg");
    reveal_strlit("m4a");
    reveal_strlit("aac");
    reveal_strlit("opus");
    reveal_strlit("html");
    reveal_strlit("htm");
    reveal_strlit("pdf");
    reveal_strlit("docx");
    reveal_strlit("csv");
    reveal_strlit("md");
    reveal_strlit("markdown");
    reveal_strlit("txt");
    reveal_strlit("text");
    reveal_strlit("log");
    reveal_strlit("toml");
    reveal_strlit("yaml");
    reveal_strlit("yml");
    reveal_strlit("ini");
    reveal_strlit("cfg");
    reveal_strlit("conf");
    reveal_strlit("properties");
    reveal_strlit("env");
    reveal_strlit("json");
    reveal_strlit("xml");
    reveal_strlit("py");
    reveal_strlit("js");
    reveal_strlit("mjs");
    reveal_strlit("ts");
    reveal_strlit("tsx");
    reveal_strlit("jsx");
    reveal_strlit("rs");
    reveal_strlit("go");
    reveal_strlit("java");
    reveal_strlit("kt");
    reveal_strlit("c");
    reveal_strlit("h");
    reveal_strlit("cpp");
    reveal_strlit("hpp");
    reveal_strlit("cs");
    reveal_strlit("rb");
    reveal_strlit("php");
    reveal_strlit("swift");
    reveal_strlit("sh");
    reveal_strlit("bash");
    reveal_strlit("zsh");
    reveal_strlit("bat");
    reveal_strlit("cmd");
    reveal_strlit("ps1");
    reveal_strlit("css");
    reveal_strlit("scss");
    reveal_strlit("less");
    assert("png"@.len() == 3 && "png"@[0] == 'p' && "png"@[1] == 'n' && "png"@[2] == 'g');
    assert("jpg"@.len() == 3 && "jpg"@[0] == 'j' && "jpg"@[1] == 'p' && "jpg"@[2] == 'g');
    assert("jpeg"@.len() == 4 && "jpeg"@[0] == 'j' && "jpeg"@[1] == 'p' && "jpeg"@[2] == 'e'
        && "jpeg"@[3] == 'g');
    assert("webp"@.len() == 4 && "webp"@[0] == 'w' && "webp"@[1] == 'e' && "webp"@[2] == 'b'
        && "webp"@[3] == 'p');
    assert("gif"@.len() == 3 && "gif"@[0] == 'g' && "gif"@[1] == 'i' && "gif"@[2] == 'f');
    assert("bmp"@.len() == 3 && "bmp"@[0] == 'b' && "bmp"@[1] == 'm' && "bmp"@[2] == 'p');
    assert("svg"@.len() == 3 && "svg"@[0] == 's' && "svg"@[1] == 'v' && "svg"@[2] == 'g');
    assert("ico"@.len() == 3 && "ico"@[0] == 'i' && "ico"@[1] == 'c' && "ico"@[2] == 'o');
    assert("mp4"@.len() == 3 && "mp4"@[0] == 'm' && "mp4"@[1] == 'p' && "mp4"@[2] == '4');
    assert("webm"@.len() == 4 && "webm"@[0] == 'w' && "webm"@[1] == 'e' && "webm"@[2] == 'b'
        && "webm"@[3] == 'm');
    assert("mov"@.len() == 3 && "mov"@[0] == 'm' && "mov"@[1] == 'o' && "mov"@[2] == 'v');
    assert("mkv"@.len() == 3 && "mkv"@[0] == 'm' && "mkv"@[1] == 'k' && "mkv"@[2] == 'v');
    assert("m4v"@.len() == 3 && "m4v"@[0] == 'm' && "m4v"@[1] == '4' && "m4v"@[2] == 'v');
    assert("mp3"@.len() == 3 && "mp3"@[0] == 'm' && "mp3"@[1] == 'p' && "mp3"@[2] == '3');
    assert("wav"@.len() == 3 && "wav"@[0] == 'w' && "wav"@[1] == 'a' && "wav"@[2] == 'v');
    assert("flac"@.len() == 4 && "flac"@[0] == 'f' && "flac"@[1] == 'l' && "flac"@[2] == 'a'
        && "flac"@[3] == 'c');
    assert("ogg"@.len() == 3 && "ogg"@[0] == 'o' && "ogg"@[1] == 'g' && "ogg"@[2] == 'g');
    assert("m4a"@.len() == 3 && "m4a"@[0] == 'm' && "m4a"@[1] == '4' && "m4a"@[2] == 'a');
    assert("aac"@.len() == 3 && "aac"@[0] == 'a' && "aac"@[1] == 'a' && "aac"@[2] == 'c');
    assert("opus"@.len() == 4 && "opus"@[0] == 'o' && "opus"@[1] == 'p' && "opus"@[2] == 'u'
        && "opus"@[3] == 's');
    assert("html"@.len() == 4 && "html"@[0] == 'h' && "html"@[1] == 't' && "html"@[2] == 'm'
        && "html"@[3] == 'l');
    assert("htm"@.len() == 3 && "htm"@[0] == 'h' && "htm"@[1] == 't' && "htm"@[2] == 'm');
    assert("pdf"@.len() == 3 && "pdf"@[0] == 'p' && "pdf"@[1] == 'd' && "pdf"@[2] == 'f');
    assert("docx"@.len() == 4 && "docx"@[0] == 'd' && "docx"@[1] == 'o' && "docx"@[2] == 'c'
        && "docx"@[3] == 'x');
    assert("csv"@.len() == 3 && "csv"@[0] == 'c' && "csv"@[1] == 's' && "csv"@[2] == 'v');
    assert("md"@.len() == 2 && "md"@[0] == 'm' && "md"@[1] == 'd');
    assert("markdown"@.len() == 8 && "markdown"@[0] == 'm' && "markdown"@[1] == 'a'
        && "markdown"@[2] == 'r' && "markdown"@[3] == 'k' && "markdown"@[4] == 'd'
        && "markdown"@[5] == 'o' && "markdown"@[6] == 'w' && "markdown"@[7] == 'n');
    assert("txt"@.len() == 3 && "txt"@[0] == 't' && "txt"@[1] == 'x' && "txt"@[2] == 't');
    assert("text"@.len() == 4 && "text"@[0] == 't' && "text"@[1] == 'e' && "text"@[2] == 'x'
        && "text"@[3] == 't');
    assert("log"@.len() == 3 && "log"@[0] == 'l' && "log"@[1] == 'o' && "log"@[2] == 'g');
    assert("toml"@.len() == 4 && "toml"@[0] == 't' && "toml"@[1] == 'o' && "toml"@[2] == 'm'
        && "toml"@[3] == 'l');
    assert("yaml"@.len() == 4 && "yaml"@[0] == 'y' && "yaml"@[1] == 'a' && "yaml"@[2] == 'm'
        && "yaml"@[3] == 'l');
    assert("yml"@.len() == 3 && "yml"@[0] == 'y' && "yml"@[1] == 'm' && "yml"@[2] == 'l');
    assert("ini"@.len() == 3 && "ini"@[0] == 'i' && "ini"@[1] == 'n' && "ini"@[2] == 'i');
    assert("cfg"@.len() == 3 && "cfg"@[0] == 'c' && "cfg"@[1] == 'f' && "cfg"@[2] == 'g');
    assert("conf"@.len() == 4 && "conf"@[0] == 'c' && "conf"@[1] == 'o' && "conf"@[2] == 'n'
        && "conf"@[3] == 'f');
    assert("properties"@.len() == 10 && "properties"@[0] == 'p' && "properties"@[1] == 'r'
        && "properties"@[2] == 'o' && "properties"@[3] == 'p' && "properties"@[4] == 'e'
        && "properties"@[5] == 'r' && "properties"@[6] == 't' && "properties"@[7] == 'i'
        && "properties"@[8] == 'e' && "properties"@[9] == 's');
    assert("env"@.len() == 3 && "env"@[0] == 'e' && "env"@[1] == 'n' && "env"@[2] == 'v');
    assert("json"@.len() == 4 && "json"@[0] == 'j' && "json"@[1] == 's' && "json"@[2] == 'o'
        && "json"@[3] == 'n');
    assert("xml"@.len() == 3 && "xml"@[0] == 'x' && "xml"@[1] == 'm' && "xml"@[2] == 'l');
    assert("py"@.len() == 2 && "py"@[0] == 'p' && "py"@[1] == 'y');
    assert("js"@.len() == 2 && "js"@[0] == 'j' && "js"@[1] == 's');
    assert("mjs"@.len() == 3 && "mjs"@[0] == 'm' && "mjs"@[1] == 'j' && "mjs"@[2] == 's');
    assert("ts"@.len() == 2 && "ts"@[0] == 't' && "ts"@[1] == 's');
    assert("tsx"@.len() == 3 && "tsx"@[0] == 't' && "tsx"@[1] == 's' && "tsx"@[2] == 'x');
    assert("jsx"@.len() == 3 && "jsx"@[0] == 'j' && "jsx"@[1] == 's' && "jsx"@[2] == 'x');
    assert("rs"@.len() == 2 && "rs"@[0] == 'r' && "rs"@[1] == 's');
    assert("go"@.len() == 2 && "go"@[0] == 'g' && "go"@[1] == 'o');
    assert("java"@.len() == 4 && "java"@[0] == 'j' && "java"@[1] == 'a' && "java"@[2] == 'v'
        && "java"@[3] == 'a');
    assert("kt"@.len() == 2 && "kt"@[0] == 'k' && "kt"@[1] == 't');
    assert("c"@.len() == 1 && "c"@[0] == 'c');
    assert("h"@.len() == 1 && "h"@[0] == 'h');
    assert("cpp"@.len() == 3 && "cpp"@[0] == 'c' && "cpp"@[1] == 'p' && "cpp"@[2] == 'p');
    assert("hpp"@.len() == 3 && "hpp"@[0] == 'h' && "hpp"@[1] == 'p' && "hpp"@[2] == 'p');
    assert("cs"@.len() == 2 && "cs"@[0] == 'c' && "cs"@[1] == 's');
    assert("rb"@.len() == 2 && "rb"@[0] == 'r' && "rb"@[1] == 'b');
    assert("php"@.len() == 3 && "php"@[0] == 'p' && "php"@[1] == 'h' && "php"@[2] == 'p');
    assert("swift"@.len() == 5 && "swift"@[0] == 's' && "swift"@[1] == 'w' && "swift"@[2] == 'i'
        && "swift"@[3] == 'f' && "swift"@[4] == 't');
    assert("sh"@.len() == 2 && "sh"@[0] == 's' && "sh"@[1] == 'h');
    assert("bash"@.len() == 4 && "bash"@[0] == 'b' && "bash"@[1] == 'a' && "bash"@[2] == 's'
        && "bash"@[3] == 'h');
    assert("zsh"@.len() == 3 && "zsh"@[0] == 'z' && "zsh"@[1] == 's' && "zsh"@[2] == 'h');
    assert("bat"@.len() == 3 && "bat"@[0] == 'b' && "bat"@[1] == 'a' && "bat"@[2] == 't');
    assert("cmd"@.len() == 3 && "cmd"@[0] == 'c' && "cmd"@[1] == 'm' && "cmd"@[2] == 'd');
    assert("ps1"@.len() == 3 && "ps1"@[0] == 'p' && "ps1"@[1] == 's' && "ps1"@[2] == '1');
    assert("css"@.len() == 3 && "css"@[0] == 'c' && "css"@[1] == 's' && "css"@[2] == 's');
    assert("scss"@.len() == 4 && "scss"@[0] == 's' && "scss"@[1] == 'c' && "scss"@[2] == 's'
        && "scss"@[3] == 's');
    assert("less"@.len() == 4 && "less"@[0] == 'l' && "less"@[1] == 'e' && "less"@[2] == 's'
        && "less"@[3] == 's');
}

/// A page, a document, a table, a note and a text are told by their extensions.
pub proof fn lemma_document_kinds(path: Seq<char>)
    requires
        extension(path) is Some,
    ensures
        ({
            let e = lower_ascii(extension(path)->0);
            let k = kind_of_file(path);
            &&& e == "html"@ || e == "htm"@ ==> k == FileKind::Html
            &&& e == "pdf"@ ==> k == FileKind::Pdf
            &&& e == "docx"@ ==> k == FileKind::Docx
            &&& e == "csv"@ ==> k == FileKind::Csv
            &&& e == "md"@ || e == "markdown"@ ==> k == FileKind::Markdown
            &&& e == "txt"@ || e == "text"@ || e == "log"@ || e == "toml"@ || e == "yaml"@
                || e == "yml"@ || e == "ini"@ || e == "cfg"@ || e == "conf"@ || e == "properties"@
                || e == "env"@ || e == "json"@ || e == "xml"@ || e == "py"@ || e == "js"@
                || e == "mjs"@ || e == "ts"@ || e == "tsx"@ || e == "jsx"@ || e == "rs"@
                || e == "go"@ || e == "java"@ || e == "kt"@ || e == "c"@ || e == "h"@
                || e == "cpp"@ || e == "hpp"@ || e == "cs"@ || e == "rb"@ || e == "php"@
                || e == "swift"@ || e == "sh"@ || e == "bash"@ || e == "zsh"@ || e == "bat"@
                || e == "cmd"@ || e == "ps1"@ || e == "css"@ || e == "scss"@ || e == "less"@ ==> k == FileKind::Text
        }),
{
    let e = lower_ascii(extension(path)->0);
    if crate::files::is_html_ext(e) || e == "pdf"@ || e == "docx"@ || e == "csv"@
        || crate::files::is_markdown_ext(e) || crate::files::is_text_ext(e) {
        lemma_document_extensions(e);
    }
}

// ---------------------------------------------------------------------------
// Ranges
// ---------------------------------------------------------------------------

proof fn lemma_trimmed_digits(s: Seq<char>)
    requires
        all_digits(s),
    ensures
        trim(s) == s,
{
    if s.len() > 0 {
        assert(is_digit(s[0]));
        assert(is_digit(s[s.len() - 1]));
        assert(!is_white(s[0]) && !is_white(s.last()));
    }
}

proof fn lemma_dash(a: Seq<char>, b: Seq<char>)
    requires
        all_digits(a),
    ensures
        char_index(a + seq!['-'] + b, '-') == Some(a.len() as int),
        (a + seq!['-'] + b).take(a.len() as int) == a,
        (a + seq!['-'] + b).skip(a.len() as int + 1) == b,
{
    let s = a + seq!['-'] + b;
    assert forall|k: int| 0 <= k < a.len() implies s[k] != '-' by {
        assert(s[k] == a[k]);
        assert(is_digit(a[k]));
    }
    lemma_char_index_is(s, '-', a.len() as int);
    assert(s.take(a.len() as int) =~= a);
    assert(s.skip(a.len() as int + 1) =~= b);
}

proof fn lemma_range_head(h: Seq<char>)
    ensures
        strip_prefix("bytes="@ + h, "bytes="@) == Some(h),
{
    let p = "bytes="@;
    assert((p + h).subrange(0, p.len() as int) =~= p);
    assert((p + h).skip(p.len() as int) =~= h);
}

proof fn lemma_untrimmed(s: Seq<char>)
    requires
        s.len() > 0,
        !is_white(s[0]),
        !is_white(s.last()),
    ensures
        trim(s) == s,
{
}

/// Bytes `a` to `b` of a file are served as asked for, up to its end; a range that
/// begins behind the end or ends before it begins is none.
pub proof fn lemma_range_from_to(a: u64, b: u64, total: u64)
    ensures
        range_of("bytes="@ + (dec(a as nat) + seq!['-'] + dec(b as nat)), total) == (if a > b || a
            >= total {
            None
        } else if b >= total {
            Some((a, (total - 1) as u64))
        } else {
            Some((a, b))
        }),
{
    let x = dec(a as nat);
    let y = dec(b as nat);
    let h = x + seq!['-'] + y;
    lemma_dec_reads_back(a as nat);
    lemma_dec_reads_back(b as nat);
    lemma_write_read(a);
    lemma_write_read(b);
    lemma_range_head(h);
    assert(is_digit(x[0]) && is_digit(y[y.len() - 1]));
    assert(h[0] == x[0] && h.last() == y[y.len() - 1]);
    lemma_untrimmed(h);
    lemma_dash(x, y);
    lemma_trimmed_digits(x);
    lemma_trimmed_digits(y);
}

/// Bytes from `a` on are served to the end of the file.
pub proof fn lemma_range_from(a: u64, total: u64)
    ensures
        range_of("bytes="@ + (dec(a as nat) + seq!['-'] + Seq::<char>::empty()), total) == (if a
            >= total {
            None
        } else {
            Some((a, (total - 1) as u64))
        }),
{
    let x = dec(a as nat);
    let e = Seq::<char>::empty();
    let h = x + seq!['-'] + e;
    lemma_dec_reads_back(a as nat);
    lemma_write_read(a);
    lemma_range_head(h);
    assert(is_digit(x[0]));
    assert(h[0] == x[0] && h.last() == '-');
    lemma_untrimmed(h);
    lemma_dash(x, e);
    lemma_trimmed_digits(x);
    lemma_trimmed_digits(e);
}

/// The last `n` bytes of a file are served, all of it where it has no more.
pub proof fn lemma_range_last(n: u64, total: u64)
    ensures
        range_of("bytes="@ + (Seq::<char>::empty() + seq!['-'] + dec(n as nat)), total) == (if n
            == 0 || total == 0 {
            None
        } else if n >= total {
            Some((0u64, (total - 1) as u64))
        } else {
            Some(((total - n) as u64, (total - 1) as u64))
        }),
{
    let y = dec(n as nat);
    let e = Seq::<char>::empty();
    let h = e + seq!['-'] + y;
    lemma_dec_reads_back(n as nat);
    lemma_write_read(n);
    lemma_range_head(h);
    assert(is_digit(y[y.len() - 1]));
    assert(h[0] == '-' && h.last() == y[y.len() - 1]);
    lemma_untrimmed(h);
    lemma_dash(e, y);
    lemma_trimmed_digits(y);
    lemma_trimmed_digits(e);
}

// ---------------------------------------------------------------------------
// Answers
// ---------------------------------------------------------------------------

/// A file in one of the roots is served, whole where no range is asked for; one that is
/// in none of them is refused, and one that is not there is not found.
pub proof fn lemma_served(
    path: Seq<char>,
    roots: Seq<Option<Seq<char>>>,
    total: u64,
    i: int,
)
    ensures
        0 <= i < roots.len() && roots[i] is Some && lies_within(path, roots[i]->0)
            ==> media_answer(Some(path), roots, Some(total), None) == MediaPlan::Whole
            && media_answer(Some(path), roots, None, None) == MediaPlan::NotFound,
        (forall|k: int|
            0 <= k < roots.len() ==> !((#[trigger] roots[k]) is Some && lies_within(
                path,
                roots[k]->0,
            ))) ==> media_answer(Some(path), roots, Some(total), None) == MediaPlan::Forbidden,
        media_answer(None, roots, Some(total), None) == MediaPlan::NotFound,
{
}

/// A range that can be served is, and any other is answered with the whole file.
pub proof fn lemma_part_served(
    path: Seq<char>,
    roots: Seq<Option<Seq<char>>>,
    total: u64,
    range: Seq<char>,
    i: int,
)
    requires
        0 <= i < roots.len(),
        roots[i] is Some,
        lies_within(path, roots[i]->0),
    ensures
        range_of(range, total) matches Some((a, b)) ==> media_answer(
            Some(path),
            roots,
            Some(total),
            Some(range),
        ) == (MediaPlan::Part { first: a, last: b }),
        range_of(range, total) is None ==> media_answer(
            Some(path),
            roots,
            Some(total),
            Some(range),
        ) == MediaPlan::Whole,
{
}

/// The answer says what it carries: the type of the file, how many bytes there are, and
/// of a part where it stands in the whole; it is opened to the origin that asked, and to
/// no other.
pub proof fn lemma_headers(
    path: Seq<char>,
    plan: MediaPlan,
    total: u64,
    body_len: nat,
    origin: Option<Seq<char>>,
    i: int,
)
    ensures
        ({
            let v = media_header_list(path, plan, total, body_len, origin);
            &&& v.contains(("content-type"@, mime_of(ext_of(path))))
            &&& v.contains(("accept-ranges"@, "bytes"@))
            &&& v.contains(("content-length"@, dec(body_len)))
            &&& v.contains(("cache-control"@, cache_rule(path)))
            &&& origin matches Some(o) ==> v.contains(("access-control-allow-origin"@, o))
            &&& plan matches MediaPlan::Part { first, last } ==> v.contains(
                (
                    "content-range"@,
                    "bytes "@ + dec(first as nat) + "-"@ + dec(last as nat) + "/"@ + dec(
                        total as nat,
                    ),
                ),
            )
            &&& origin is None && 0 <= i < v.len() ==> v[i].0 != "access-control-allow-origin"@
        }),
{
    let v = media_header_list(path, plan, total, body_len, origin);
    assert(v[0] == header("content-type"@, mime_of(ext_of(path))));
    assert(v[1] == header("accept-ranges"@, "bytes"@));
    assert(v[2] == header("content-length"@, dec(body_len)));
    assert(v[3] == header("cache-control"@, cache_rule(path)));
    if let Some(o) = origin {
        assert(v[4] == header("access-control-allow-origin"@, o));
    }
    if let MediaPlan::Part { first, last } = plan {
        assert(v[v.len() - 1] == header(
            "content-range"@,
            "bytes "@ + dec(first as nat) + "-"@ + dec(last as nat) + "/"@ + dec(total as nat),
        ));
    }
    reveal_strlit("access-control-allow-origin");
    reveal_strlit("content-type");
    reveal_strlit("accept-ranges");
    reveal_strlit("content-length");
    reveal_strlit("cache-control");
    reveal_strlit("content-range");
    assert("access-control-allow-origin"@.len() == 27 && "content-type"@.len() == 12);
    assert("accept-ranges"@.len() == 13 && "content-length"@.len() == 14);
    assert("cache-control"@.len() == 13 && "content-range"@.len() == 13);
}

/// An address without a percent sign is the path itself; the slashes before it do not
/// count.
pub proof fn lemma_plain_address(v: Seq<u8>, s: Seq<char>)
    ensures
        (forall|k: int| 0 <= k < v.len() ==> #[trigger] v[k] != 0x25) ==> percent_bytes(v) == v,
        s.len() == 0 || s[0] != '/' ==> without_leading_slashes(s) == s
            && without_leading_slashes(seq!['/'] + s) == s,
    decreases v.len(),
{
    reveal_with_fuel(without_leading_slashes, 3);
    assert((seq!['/'] + s).skip(1) =~= s);
    if v.len() > 0 && (forall|k: int| 0 <= k < v.len() ==> #[trigger] v[k] != 0x25) {
        let t = v.skip(1);
        assert(v[0] != 0x25);
        assert forall|k: int| 0 <= k < t.len() implies #[trigger] t[k] != 0x25 by {
            assert(t[k] == v[k + 1]);
        }
        lemma_plain_address(t, s);
        assert(seq![v[0]] + t =~= v);
    }
    if v.len() == 0 {
        assert(percent_bytes(v) =~= v);
    }
}

/// The digit in base 16 for a value, with a capital or a small letter.
pub open spec fn hex_digit(x: int, small: bool) -> u8 {
    if x < 10 {
        (0x30 + x) as u8
    } else if small {
        (0x61 + x - 10) as u8
    } else {
        (0x41 + x - 10) as u8
    }
}

/// A byte that is written as a percent sign and two digits in base 16 is read as that
/// byte, with capital and with small letters.
pub proof fn lemma_percent_byte(n: u8, small: bool, rest: Seq<u8>)
    ensures
        percent_bytes(
            seq![0x25u8, hex_digit(n as int / 16, small), hex_digit(n as int % 16, small)] + rest,
        ) == seq![n] + percent_bytes(rest),
{
    let a = hex_digit(n as int / 16, small);
    let b = hex_digit(n as int % 16, small);
    let v = seq![0x25u8, a, b] + rest;
    assert(v.skip(3) =~= rest);
    assert(v[0] == 0x25 && v[1] == a && v[2] == b);
    assert(crate::files::hex_value(a) == Some(n as int / 16));
    assert(crate::files::hex_value(b) == Some(n as int % 16));
}

} // verus!
