use ovoice::files::{
    cache_control_for, doc_kind_from_ext, file_kind, file_kind_str, is_within_roots,
    media_headers, media_kind_from_ext, media_origin, media_path, media_status, mime_from_ext,
    parse_range, part_len, refusal_text, DocKind, FileKind, MediaKind, MediaPlan,
};

#[test]
fn kind_image_video_audio_unsupported() {
    assert!(matches!(media_kind_from_ext("a.png"), MediaKind::Image));
    assert!(matches!(media_kind_from_ext("a.JPG"), MediaKind::Image));
    assert!(matches!(media_kind_from_ext("a.mp4"), MediaKind::Video));
    assert!(matches!(media_kind_from_ext("a.webm"), MediaKind::Video));
    assert!(matches!(media_kind_from_ext("a.mp3"), MediaKind::Audio));
    assert!(matches!(media_kind_from_ext("a.wav"), MediaKind::Audio));
    assert!(matches!(media_kind_from_ext("a.txt"), MediaKind::Unsupported));
    assert!(matches!(media_kind_from_ext("noext"), MediaKind::Unsupported));
}

#[test]
fn cache_control_editable_vs_immutable() {
    assert_eq!(cache_control_for("a.md"), "no-store");
    assert_eq!(cache_control_for("a.txt"), "no-store");
    assert_eq!(cache_control_for("a.py"), "no-store");
    assert_eq!(cache_control_for("a.json"), "no-store");
    assert_eq!(cache_control_for("a.html"), "public, max-age=3600");
    assert_eq!(cache_control_for("a.pdf"), "public, max-age=3600");
    assert_eq!(cache_control_for("a.docx"), "public, max-age=3600");
    assert_eq!(cache_control_for("a.csv"), "public, max-age=3600");
    assert_eq!(cache_control_for("a.png"), "public, max-age=3600");
    assert_eq!(cache_control_for("a.mp4"), "public, max-age=3600");
    assert_eq!(cache_control_for("a.mp3"), "public, max-age=3600");
}

#[test]
fn mime_covers_media() {
    assert_eq!(mime_from_ext("a.mp4"), "video/mp4");
    assert_eq!(mime_from_ext("a.webm"), "video/webm");
    assert_eq!(mime_from_ext("a.mp3"), "audio/mpeg");
    assert_eq!(mime_from_ext("a.wav"), "audio/wav");
    assert_eq!(mime_from_ext("a.flac"), "audio/flac");
}

#[test]
fn is_within_roots_allows_inside_blocks_traversal() {
    let roots = vec![Some("/tmp/root".to_string())];
    assert!(is_within_roots(Some("/tmp/root/sub/a.mp4"), &roots));
    assert!(!is_within_roots(Some("/tmp/other"), &roots));
    assert!(!is_within_roots(Some("/tmp/root2/a.mp4"), &roots));
    assert!(!is_within_roots(None, &roots));
    assert!(!is_within_roots(Some("/tmp/root/a"), &vec![None]));
}

#[test]
fn parse_range_forms() {
    assert_eq!(parse_range("bytes=0-1023", 2000), Some((0, 1023)));
    assert_eq!(parse_range("bytes=500-", 2000), Some((500, 1999)));
    assert_eq!(parse_range("bytes=-500", 2000), Some((1500, 1999)));
    assert_eq!(parse_range("bytes=0-", 2000), Some((0, 1999)));
    assert_eq!(parse_range("garbage", 2000), None);
    assert_eq!(parse_range("bytes=9999-", 2000), None);
    assert_eq!(parse_range("bytes=0-", 0), None);
    assert_eq!(parse_range("bytes=-500", 0), None);
}

#[test]
fn doc_kind_covers_each_ext() {
    assert!(matches!(doc_kind_from_ext("a.html"), DocKind::Html));
    assert!(matches!(doc_kind_from_ext("a.HTM"), DocKind::Html));
    assert!(matches!(doc_kind_from_ext("a.pdf"), DocKind::Pdf));
    assert!(matches!(doc_kind_from_ext("a.docx"), DocKind::Docx));
    assert!(matches!(doc_kind_from_ext("a.csv"), DocKind::Csv));
    assert!(matches!(doc_kind_from_ext("a.md"), DocKind::Markdown));
    assert!(matches!(doc_kind_from_ext("a.markdown"), DocKind::Markdown));
    assert!(matches!(doc_kind_from_ext("a.txt"), DocKind::Text));
    assert!(matches!(doc_kind_from_ext("a.log"), DocKind::Text));
    assert!(matches!(doc_kind_from_ext("a.toml"), DocKind::Text));
    assert!(matches!(doc_kind_from_ext("a.yml"), DocKind::Text));
    assert!(matches!(doc_kind_from_ext("a.yaml"), DocKind::Text));
    assert!(matches!(doc_kind_from_ext("a.ini"), DocKind::Text));
    assert!(matches!(doc_kind_from_ext("a.json"), DocKind::Text));
    assert!(matches!(doc_kind_from_ext("a.py"), DocKind::Text));
}

#[test]
fn doc_kind_doc_and_unknown_unsupported() {
    assert!(matches!(doc_kind_from_ext("old.doc"), DocKind::Unsupported));
    assert!(matches!(doc_kind_from_ext("x"), DocKind::Unsupported));
    assert!(matches!(doc_kind_from_ext("a.exe"), DocKind::Unsupported));
}

#[test]
fn file_kind_covers_all_categories() {
    assert_eq!(file_kind("a.png"), FileKind::Image);
    assert_eq!(file_kind("b.mp4"), FileKind::Video);
    assert_eq!(file_kind("c.mp3"), FileKind::Audio);
    assert_eq!(file_kind("d.html"), FileKind::Html);
    assert_eq!(file_kind("e.pdf"), FileKind::Pdf);
    assert_eq!(file_kind("f.docx"), FileKind::Docx);
    assert_eq!(file_kind("g.csv"), FileKind::Csv);
    assert_eq!(file_kind("h.md"), FileKind::Markdown);
    assert_eq!(file_kind("i.py"), FileKind::Text);
    assert_eq!(file_kind("x.exe"), FileKind::Unsupported);
    assert_eq!(file_kind_str(FileKind::Image), "image");
}

#[test]
fn mime_covers_doc_kinds() {
    assert_eq!(mime_from_ext("a.html"), "text/html");
    assert_eq!(mime_from_ext("A.HTM"), "text/html");
    assert_eq!(mime_from_ext("a.pdf"), "application/pdf");
    assert_eq!(mime_from_ext("a.csv"), "text/csv");
    assert_eq!(
        mime_from_ext("a.docx"),
        "application/vnd.openxmlformats-officedocument.wordprocessingml.document"
    );
    assert_eq!(mime_from_ext("a.md"), "text/markdown");
    assert_eq!(mime_from_ext("a.txt"), "text/plain");
}

#[test]
fn requests_for_files_are_answered() {
    assert_eq!(media_path("//tmp/a%20b.png"), "tmp/a b.png");
    assert_eq!(media_path("/%E4%B8%AD%2f100%%zz%4"), "中/100%%zz%4");
    assert_eq!(media_path("a%FFb"), "a\u{FFFD}b");
    let own = vec!["tauri://x".to_string(), "null".to_string()];
    assert_eq!(media_origin(Some("null"), &own), None);
    assert_eq!(media_origin(Some(""), &own), None);
    assert_eq!(media_origin(None, &own), None);
    assert_eq!(media_origin(Some("https://y"), &own), None, "只放行本应用自身 Origin");
    assert_eq!(media_origin(Some("tauri://x"), &own), Some("tauri://x".to_string()));
    assert_eq!(media_status(MediaPlan::NotFound), 404);
    assert_eq!(media_status(MediaPlan::Forbidden), 403);
    assert_eq!(media_status(MediaPlan::Whole), 200);
    assert_eq!(media_status(MediaPlan::Part { first: 0, last: 9 }), 206);
    assert_eq!(refusal_text(MediaPlan::NotFound), "not found");
    assert_eq!(refusal_text(MediaPlan::Forbidden), "forbidden");
    assert_eq!(part_len(0, 9), 10);
    let h = media_headers("a.png", MediaPlan::Part { first: 0, last: 9 }, 100, 10, None);
    assert!(h.iter().any(|(k, v)| k.eq_ignore_ascii_case("content-range") && v == "bytes 0-9/100"));
    assert!(h.iter().any(|(_, v)| v == "image/png"));
}
