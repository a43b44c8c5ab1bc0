//! The text of documents.
use crate::text::{is_white, lemma_blank_all_white, opt_text, str_eq, trim, trimmed};
use vstd::prelude::*;
use vstd::utf8::{decode_utf8, encode_utf8, valid_utf8};

verus! {

// ---------------------------------------------------------------------------
// Outside calls
// ---------------------------------------------------------------------------

/// `quick_xml::Reader`.
#[verifier::external_type_specification]
#[verifier::external_body]
#[verifier::reject_recursive_types(R)]
pub struct ExReader<R>(quick_xml::Reader<R>);

/// What a reader meets in an XML text.
#[derive(Debug)]
pub enum XmlEvent {
    /// A tag that opens, by its name.
    Start(Vec<u8>),
    /// A tag that opens and closes at once, by its name.
    Empty(Vec<u8>),
    /// A tag that closes, by its name.
    End(Vec<u8>),
    /// Text as it is written, with its escapes.
    Text(Vec<u8>),
    /// Anything else: a comment, a declaration and the like.
    Other,
    /// The end of the text, or an error in it.
    Over,
}

/// What an XML event holds.
pub enum XmlView {
    Start(Seq<u8>),
    Empty(Seq<u8>),
    End(Seq<u8>),
    Text(Seq<u8>),
    Other,
    Over,
}

impl View for XmlEvent {
    type V = XmlView;

    open spec fn view(&self) -> XmlView {
        match self {
            XmlEvent::Start(n) => XmlView::Start(n@),
            XmlEvent::Empty(n) => XmlView::Empty(n@),
            XmlEvent::End(n) => XmlView::End(n@),
            XmlEvent::Text(t) => XmlView::Text(t@),
            XmlEvent::Other => XmlView::Other,
            XmlEvent::Over => XmlView::Over,
        }
    }
}

/// The events that a reader has yet to give before the end or an error.
pub uninterp spec fn pending_events(r: quick_xml::Reader<&[u8]>) -> Seq<XmlView>;

/// The events that `quick_xml` finds in a text, up to the end or the first error.
pub uninterp spec fn xml_events(text: Seq<char>) -> Seq<XmlView>;

/// What `quick_xml::escape::unescape` makes of a text.
pub uninterp spec fn unescaped(text: Seq<char>) -> Option<Seq<char>>;

/// What the entry with a name in a zip archive holds, as text.
pub uninterp spec fn zip_text(archive: Seq<u8>, name: Seq<char>) -> Option<Seq<char>>;

/// `quick_xml::Reader::from_str`, with blanks around text kept: the reader gives
/// the events of the text.
#[verifier::external_body]
fn open_xml(xml: &str) -> (r: quick_xml::Reader<&[u8]>)
    ensures
        pending_events(r) == xml_events(xml@),
{
    let mut reader = quick_xml::Reader::from_str(xml);
    reader.config_mut().trim_text(false);
    reader
}

/// `quick_xml::Reader::read_event_into`: gives the next event, and `Over` at the
/// end of the text and for an error.
#[verifier::external_body]
fn next_event(reader: &mut quick_xml::Reader<&[u8]>) -> (r: XmlEvent)
    ensures
        pending_events(*old(reader)).len() > 0 ==> r@ == pending_events(*old(reader))[0]
            && pending_events(*final(reader)) == pending_events(*old(reader)).skip(1) && !(r
            is Over),
        pending_events(*old(reader)).len() == 0 ==> r is Over,
{
    let mut buf: Vec<u8> = Vec::new();
    match reader.read_event_into(&mut buf) {
        Ok(quick_xml::events::Event::Start(e)) => XmlEvent::Start(e.name().as_ref().to_vec()),
        Ok(quick_xml::events::Event::Empty(e)) => XmlEvent::Empty(e.name().as_ref().to_vec()),
        Ok(quick_xml::events::Event::End(e)) => XmlEvent::End(e.name().as_ref().to_vec()),
        Ok(quick_xml::events::Event::Text(t)) => XmlEvent::Text(t.to_vec()),
        Ok(quick_xml::events::Event::Eof) => XmlEvent::Over,
        Ok(_) => XmlEvent::Other,
        Err(_) => XmlEvent::Over,
    }
}

/// `quick_xml::escape::unescape`: the text with its escapes resolved, nothing when
/// one of them cannot be. A text without an ampersand has no escapes.
#[verifier::external_body]
fn unescape(raw: &str) -> (r: Option<String>)
    ensures
        opt_text(r) == unescaped(raw@),
        !raw@.contains('&') ==> opt_text(r) == Some(raw@),
{
    quick_xml::escape::unescape(raw).ok().map(|t| t.into_owned())
}

/// `std::str::from_utf8`: the text that valid UTF-8 encodes, nothing for other
/// bytes.
#[verifier::external_body]
fn utf8_text(bytes: &[u8]) -> (r: Option<String>)
    ensures
        opt_text(r) == (if valid_utf8(bytes@) {
            Some(decode_utf8(bytes@))
        } else {
            None
        }),
{
    std::str::from_utf8(bytes).ok().map(|t| t.to_owned())
}

/// `zip::ZipArchive::new`, `by_name` and `read_to_string`: the text of an entry of
/// an archive, nothing when there is no such archive, entry or text.
#[verifier::external_body]
fn zip_entry(archive: &[u8], name: &str) -> (r: Option<String>)
    ensures
        opt_text(r) == zip_text(archive@, name@),
{
    let mut zip = zip::ZipArchive::new(std::io::Cursor::new(archive)).ok()?;
    let mut entry = zip.by_name(name).ok()?;
    let mut text = String::new();
    std::io::Read::read_to_string(&mut entry, &mut text).ok()?;
    Some(text)
}

// ---------------------------------------------------------------------------
// Word documents
// ---------------------------------------------------------------------------

/// The text of a document as far as it was read, and whether the reader is inside
/// a piece of it.
pub struct DocView {
    pub out: Seq<char>,
    pub in_text: bool,
}

/// A name of a tag.
pub open spec fn is_tag(name: Seq<u8>, tag: Seq<char>) -> bool {
    name == encode_utf8(tag)
}

/// A text with a line feed behind it, unless it is empty.
pub open spec fn broken(out: Seq<char>) -> Seq<char> {
    if out.len() > 0 {
        out.push('\n')
    } else {
        out
    }
}

/// The text of bytes, empty when they are not valid UTF-8.
pub open spec fn text_of(bytes: Seq<u8>) -> Seq<char> {
    if valid_utf8(bytes) {
        decode_utf8(bytes)
    } else {
        Seq::empty()
    }
}

/// The document after an event: pieces of text are put together, paragraphs and
/// breaks begin a new line, and a tab is a space.
pub open spec fn after_xml(d: DocView, e: XmlView) -> DocView {
    match e {
        XmlView::Start(n) => if is_tag(n, "w:t"@) {
            DocView { in_text: true, ..d }
        } else if is_tag(n, "w:p"@) {
            DocView { out: broken(d.out), ..d }
        } else {
            d
        },
        XmlView::Empty(n) => if is_tag(n, "w:tab"@) {
            DocView { out: d.out.push(' '), ..d }
        } else if is_tag(n, "w:br"@) {
            DocView { out: d.out.push('\n'), ..d }
        } else if is_tag(n, "w:p"@) {
            DocView { out: broken(d.out), ..d }
        } else {
            d
        },
        XmlView::End(n) => if is_tag(n, "w:t"@) {
            DocView { in_text: false, ..d }
        } else if is_tag(n, "w:p"@) {
            DocView { out: broken(d.out), ..d }
        } else {
            d
        },
        XmlView::Text(t) => if d.in_text {
            match unescaped(text_of(t)) {
                Some(u) => DocView { out: d.out + u, ..d },
                None => d,
            }
        } else {
            d
        },
        XmlView::Other => d,
        XmlView::Over => d,
    }
}

/// The document after events.
pub open spec fn after_xml_events(d: DocView, v: Seq<XmlView>) -> DocView
    decreases v.len(),
{
    if v.len() == 0 {
        d
    } else {
        after_xml_events(after_xml(d, v[0]), v.skip(1))
    }
}

/// A document of which nothing was read.
pub open spec fn unread() -> DocView {
    DocView { out: Seq::empty(), in_text: false }
}

/// The text of a document with these events.
pub open spec fn document_text(v: Seq<XmlView>) -> Seq<char> {
    trim(after_xml_events(unread(), v).out)
}

/// A document that is being read.
#[derive(Debug)]
pub struct DocxText {
    pub out: String,
    pub in_text: bool,
}

impl View for DocxText {
    type V = DocView;

    open spec fn view(&self) -> DocView {
        DocView { out: self.out@, in_text: self.in_text }
    }
}

fn tag_is(name: &Vec<u8>, tag: &str) -> (r: bool)
    ensures
        r == is_tag(name@, tag@),
{
    let t = tag.as_bytes();
    if name.len() != t.len() {
        return false;
    }
    let mut i: usize = 0;
    while i < t.len()
        invariant
            t@ == encode_utf8(tag@),
            name@.len() == t@.len(),
            i <= t@.len(),
            forall|k: int| 0 <= k < i ==> name@[k] == t@[k],
        decreases t@.len() - i,
    {
        if name[i] != t[i] {
            return false;
        }
        i = i + 1;
    }
    assert(name@ =~= t@);
    true
}

impl DocxText {
    /// Nothing was read.
    pub fn new() -> (r: DocxText)
        ensures
            r@ == unread(),
    {
        DocxText { out: String::new(), in_text: false }
    }

    fn break_line(&mut self)
        ensures
            final(self)@ == (DocView { out: broken(old(self)@.out), ..old(self)@ }),
    {
        if self.out.as_str().unicode_len() > 0 {
            self.out.push('\n');
        }
    }

    /// Takes in an event.
    pub fn take(&mut self, e: &XmlEvent)
        ensures
            final(self)@ == after_xml(old(self)@, e@),
    {
        match e {
            XmlEvent::Start(n) => {
                if tag_is(n, "w:t") {
                    self.in_text = true;
                } else if tag_is(n, "w:p") {
                    self.break_line();
                }
            },
            XmlEvent::Empty(n) => {
                if tag_is(n, "w:tab") {
                    self.out.push(' ');
                } else if tag_is(n, "w:br") {
                    self.out.push('\n');
                } else if tag_is(n, "w:p") {
                    self.break_line();
                }
            },
            XmlEvent::End(n) => {
                if tag_is(n, "w:t") {
                    self.in_text = false;
                } else if tag_is(n, "w:p") {
                    self.break_line();
                }
            },
            XmlEvent::Text(t) => {
                if self.in_text {
                    let raw = match utf8_text(t.as_slice()) {
                        Some(s) => s,
                        None => String::new(),
                    };
                    if let Some(u) = unescape(raw.as_str()) {
                        self.out.push_str(u.as_str());
                    }
                }
            },
            XmlEvent::Other => {},
            XmlEvent::Over => {},
        }
    }
}

/// The text of the body of a Word document.
pub fn docx_xml_to_text(xml: &str) -> (r: String)
    ensures
        r@ == document_text(xml_events(xml@)),
{
    let mut reader = open_xml(xml);
    let mut doc = DocxText::new();
    loop
        invariant_except_break
            after_xml_events(doc@, pending_events(reader)) == after_xml_events(
                unread(),
                xml_events(xml@),
            ),
        ensures
            doc@ == after_xml_events(unread(), xml_events(xml@)),
        decreases pending_events(reader).len(),
    {
        let e = next_event(&mut reader);
        if let XmlEvent::Over = e {
            break;
        }
        doc.take(&e);
    }
    trimmed(doc.out.as_str())
}

/// The text of a Word document that is given as a file's bytes.
pub open spec fn docx_read(bytes: Seq<u8>) -> Option<Seq<char>> {
    match zip_text(bytes, "word/document.xml"@) {
        Some(xml) => Some(document_text(xml_events(xml))),
        None => None,
    }
}

fn docx_text(bytes: &[u8]) -> (r: Option<String>)
    ensures
        opt_text(r) == docx_read(bytes@),
{
    match zip_entry(bytes, "word/document.xml") {
        Some(xml) => Some(docx_xml_to_text(xml.as_str())),
        None => None,
    }
}

/// What a document says, by its kind: `pdf` is the text of the file when it is one
/// that could be read as such, `file` its bytes when it could be read. Nothing of
/// any other kind.
pub fn doc_text(kind: &str, pdf: Option<String>, file: Option<&[u8]>) -> (r: Option<String>)
    ensures
        opt_text(r) == (if kind@ == "pdf"@ {
            opt_text(pdf)
        } else if kind@ == "docx"@ {
            match file {
                Some(b) => docx_read(b@),
                None => None,
            }
        } else {
            None
        }),
{
    if str_eq(kind, "pdf") {
        return pdf;
    }
    if str_eq(kind, "docx") {
        return match file {
            Some(b) => docx_text(b),
            None => None,
        };
    }
    None
}

// ---------------------------------------------------------------------------
// Laws
// ---------------------------------------------------------------------------

proof fn lemma_only_blanks(d: DocView, v: Seq<XmlView>)
    requires
        !d.in_text,
        forall|i: int| 0 <= i < d.out.len() ==> is_white(#[trigger] d.out[i]),
        forall|i: int|
            0 <= i < v.len() ==> !(#[trigger] v[i] matches XmlView::Start(n) && is_tag(n, "w:t"@)),
    ensures
        ({
            let e = after_xml_events(d, v);
            forall|i: int| 0 <= i < e.out.len() ==> is_white(#[trigger] e.out[i])
        }),
    decreases v.len(),
{
    if v.len() > 0 {
        let next = after_xml(d, v[0]);
        let rest = v.skip(1);
        assert(is_white(' ') && is_white('\n'));
        assert forall|i: int| 0 <= i < rest.len() implies !(#[trigger] rest[i] matches XmlView::Start(
            n,
        ) && is_tag(n, "w:t"@)) by {
            assert(rest[i] == v[i + 1]);
        }
        assert forall|i: int| 0 <= i < next.out.len() implies is_white(#[trigger] next.out[i]) by {
            if i < d.out.len() {
                assert(next.out[i] == d.out[i]);
            }
        }
        lemma_only_blanks(next, rest);
        assert(after_xml_events(d, v) == after_xml_events(next, rest));
    } else {
        assert(after_xml_events(d, v) == d);
    }
}

/// Only what stands in pieces of text is kept: a document without any says
/// nothing.
pub proof fn lemma_only_text_kept(v: Seq<XmlView>)
    requires
        forall|i: int|
            0 <= i < v.len() ==> !(#[trigger] v[i] matches XmlView::Start(n) && is_tag(n, "w:t"@)),
    ensures
        document_text(v) == Seq::<char>::empty(),
{
    lemma_only_blanks(unread(), v);
    lemma_blank_all_white(after_xml_events(unread(), v).out);
    assert(document_text(v) =~= Seq::<char>::empty());
}

} // verus!
