use ovoice::extract::{doc_text, docx_xml_to_text, DocxText, XmlEvent};
use ovoice::files::AttachmentRef;
use ovoice::llm::{user_message_with_attachments, LoadedFile};
use std::io::{Cursor, Write};

fn build_minimal_docx(paragraphs: &[&str]) -> Vec<u8> {
    let body: String =
        paragraphs.iter().map(|p| format!("<w:p><w:r><w:t>{p}</w:t></w:r></w:p>")).collect();
    let xml = format!(
        r#"<?xml version="1.0" encoding="UTF-8" standalone="yes"?>
<w:document xmlns:w="http://schemas.openxmlformats.org/wordprocessingml/2006/main"><w:body>{body}</w:body></w:document>"#
    );
    let mut zip = zip::ZipWriter::new(Cursor::new(Vec::new()));
    let opts = zip::write::SimpleFileOptions::default();
    zip.start_file("word/document.xml", opts).unwrap();
    zip.write_all(xml.as_bytes()).unwrap();
    zip.finish().unwrap().into_inner()
}

#[test]
fn docx_extracts_minimal_docx() {
    let bytes = build_minimal_docx(&["Hello World", "Second paragraph"]);
    let t = doc_text("docx", None, Some(&bytes)).expect("docx 抽取应成功");
    assert!(t.contains("Hello World"), "缺第一段: {t}");
    assert!(t.contains("Second paragraph"), "缺第二段: {t}");
    assert!(t.contains('\n'), "段落间应有换行: {t}");
}

#[test]
fn docx_xml_handles_tabs_and_breaks() {
    let xml = r#"<w:document xmlns:w="w"><w:body>
            <w:p><w:r><w:t>col1</w:t><w:tab/><w:t>col2</w:t></w:r></w:p>
            <w:p><w:r><w:t>line</w:t><w:br/><w:t>broke</w:t></w:r></w:p>
        </w:body></w:document>"#;
    let t = docx_xml_to_text(xml);
    assert!(t.contains("col1 col2"), "tab→空格: {t}");
    assert!(
        t.contains("line\nbroke") || t.contains("line") && t.contains("broke"),
        "br→换行: {t}"
    );
}

#[test]
fn doc_text_unknown_kind_returns_none() {
    assert_eq!(doc_text("txt", None, None), None);
    assert_eq!(doc_text("image", None, None), None);
}

#[test]
fn doc_text_missing_file_returns_none() {
    assert_eq!(doc_text("docx", None, None), None);
    assert_eq!(doc_text("pdf", None, None), None);
}

#[test]
fn what_is_escaped_is_read() {
    let t = docx_xml_to_text("<w:p><w:t>a &amp; b &lt;c&gt;</w:t></w:p>");
    assert_eq!(t, "a & b <c>");
    assert_eq!(docx_xml_to_text("<w:p><w:x>out</w:x><w:t>in</w:t></w:p>"), "in");
}

#[test]
fn events_are_taken_one_by_one() {
    let mut d = DocxText::new();
    d.take(&XmlEvent::Start(b"w:t".to_vec()));
    d.take(&XmlEvent::Text(b"x".to_vec()));
    d.take(&XmlEvent::End(b"w:t".to_vec()));
    d.take(&XmlEvent::Text(b"y".to_vec()));
    assert_eq!(d.out, "x");
}

#[test]
fn a_pdf_gives_what_was_read_of_it() {
    assert_eq!(doc_text("pdf", Some("页".into()), None), Some("页".to_string()));
    assert_eq!(doc_text("docx", None, Some(b"no zip")), None);
}

#[test]
fn user_message_docx_inlines_extracted_text() {
    let bytes = build_minimal_docx(&["季度报告", "营收增长"]);
    let text = doc_text("docx", None, Some(&bytes));
    let files = vec![LoadedFile { path: "/t/r.docx".into(), kind: "docx".into(), text }];
    let atts = vec![AttachmentRef { staged_path: "/t/r.docx".into(), kind: "docx".into() }];
    let m = user_message_with_attachments("", &atts, &files);
    let parts = m.array_at("content").unwrap();
    let note = parts.iter().find(|x| x.text_at("type") == "text").unwrap();
    let t = note.text_at("text");
    assert!(t.contains("(docx)"), "应标注 kind: {t}");
    assert!(t.contains("季度报告"), "应内联抽取的文本: {t}");
    assert!(t.contains("营收增长"), "应含第二段: {t}");
    assert!(!t.contains("read/display"), "能抽取时不应回落指针 note");
}

#[test]
fn user_message_pdf_unextractable_falls_back() {
    let files = vec![LoadedFile { path: "/t/r.pdf".into(), kind: "pdf".into(), text: None }];
    let atts = vec![AttachmentRef { staged_path: "/t/r.pdf".into(), kind: "pdf".into() }];
    let m = user_message_with_attachments("", &atts, &files);
    let parts = m.array_at("content").unwrap();
    let note = parts.iter().find(|x| x.text_at("type") == "text").unwrap();
    let t = note.text_at("text");
    assert!(t.contains("无法抽取文本"), "应回落指针 note: {t}");
    assert!(t.contains("(pdf)"));
}
