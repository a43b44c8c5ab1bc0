//! Memory that is kept as Markdown: a heading for each event, with its subject, its
//! details and where it was said on lines of their own.
use crate::lines::{lines, lines_of};
use crate::text::{
    begins, char_index, char_index_chars, find, find_chars, from_chars, lemma_char_index,
    lemma_find_least, starts_with, str_eq, strip_prefix, strip_prefix_chars, texts, to_chars, trim,
    trimmed,
};
use vstd::prelude::*;
use vstd::slice::slice_subrange;

verus! {

/// An event in a day's notes.
#[derive(Debug)]
pub struct Segment {
    pub hhmm: String,
    pub title: String,
    pub subject: String,
    pub detail: String,
    pub index: String,
}

/// What an event in a day's notes holds.
pub struct SegmentView {
    pub hhmm: Seq<char>,
    pub title: Seq<char>,
    pub subject: Seq<char>,
    pub detail: Seq<char>,
    pub index: Seq<char>,
}

impl View for Segment {
    type V = SegmentView;

    open spec fn view(&self) -> SegmentView {
        SegmentView {
            hhmm: self.hhmm@,
            title: self.title@,
            subject: self.subject@,
            detail: self.detail@,
            index: self.index@,
        }
    }
}

/// What events hold.
pub open spec fn segment_views(v: Seq<Segment>) -> Seq<SegmentView> {
    v.map_values(|s: Segment| s@)
}

/// What stands before the first blank of a text: all of it when there is none.
pub open spec fn first_word(s: Seq<char>) -> Seq<char> {
    match char_index(s, ' ') {
        Some(i) => s.take(i),
        None => s,
    }
}

/// What stands behind the first blank of a text: nothing when there is none.
pub open spec fn after_word(s: Seq<char>) -> Seq<char> {
    match char_index(s, ' ') {
        Some(i) => s.skip(i + 1),
        None => Seq::empty(),
    }
}

/// The event that a heading begins: its time, its mark when it has one, and its
/// title.
pub open spec fn heading(h: Seq<char>) -> SegmentView {
    let rest = after_word(h);
    SegmentView {
        hhmm: first_word(h),
        title: if starts_with(rest, "evt-"@) {
            after_word(rest)
        } else {
            rest
        },
        subject: Seq::empty(),
        detail: Seq::empty(),
        index: Seq::empty(),
    }
}

/// The events with what one more line says.
pub open spec fn with_line(v: Seq<SegmentView>, line: Seq<char>) -> Seq<SegmentView> {
    match strip_prefix(line, "## "@) {
        Some(h) => v.push(heading(h)),
        None => if v.len() == 0 {
            v
        } else {
            let n = v.len() - 1;
            match strip_prefix(line, "**主语**: "@) {
                Some(t) => v.update(n, (SegmentView { subject: t, ..v[n] })),
                None => match strip_prefix(line, "**详情**: "@) {
                    Some(t) => v.update(n, (SegmentView { detail: t, ..v[n] })),
                    None => match strip_prefix(line, "**对话索引**: "@) {
                        Some(t) => v.update(n, (SegmentView { index: t, ..v[n] })),
                        None => v,
                    },
                },
            }
        },
    }
}

/// The events that lines describe.
pub open spec fn segments_on(v: Seq<Seq<char>>) -> Seq<SegmentView>
    decreases v.len(),
{
    if v.len() == 0 {
        Seq::empty()
    } else {
        with_line(segments_on(v.drop_last()), v.last())
    }
}

/// The events that a text describes.
pub open spec fn segments(text: Seq<char>) -> Seq<SegmentView> {
    segments_on(lines(text))
}

fn cut_word(v: &[char]) -> (r: (&[char], &[char]))
    ensures
        r.0@ == first_word(v@),
        r.1@ == after_word(v@),
{
    let n: usize = v.len();
    proof {
        lemma_char_index(v@, ' ');
    }
    match char_index_chars(v, ' ') {
        Some(i) => {
            proof {
                assert(v@.subrange(0, i as int) =~= v@.take(i as int));
                assert(v@.subrange(i + 1, n as int) =~= v@.skip(i + 1));
            }
            (slice_subrange(v, 0, i), slice_subrange(v, i + 1, n))
        },
        None => {
            assert(v@.subrange(n as int, n as int) =~= Seq::empty());
            (v, slice_subrange(v, n, n))
        },
    }
}

fn behind(s: &str, p: &str) -> (r: Option<String>)
    ensures
        crate::text::opt_text(r) == strip_prefix(s@, p@),
{
    let v = to_chars(s);
    let q = to_chars(p);
    match strip_prefix_chars(v.as_slice(), q.as_slice()) {
        Some(t) => Some(from_chars(t)),
        None => None,
    }
}

fn read_heading(h: &str) -> (r: Segment)
    ensures
        r@ == heading(h@),
{
    let v = to_chars(h);
    let (word, rest) = cut_word(v.as_slice());
    let text = from_chars(rest);
    let title = if begins(text.as_str(), "evt-") {
        let (_mark, t) = cut_word(rest);
        from_chars(t)
    } else {
        text
    };
    Segment {
        hhmm: from_chars(word),
        title,
        subject: String::new(),
        detail: String::new(),
        index: String::new(),
    }
}

fn add_line(v: &mut Vec<Segment>, line: &str)
    ensures
        segment_views(final(v)@) == with_line(segment_views(old(v)@), line@),
{
    let ghost before = segment_views(v@);
    if let Some(h) = behind(line, "## ") {
        let s = read_heading(h.as_str());
        v.push(s);
        assert(segment_views(v@) =~= before.push(s@));
        return;
    }
    if v.len() == 0 {
        return;
    }
    let n: usize = v.len() - 1;
    assert(before[n as int] == v@[n as int]@);
    if let Some(t) = behind(line, "**主语**: ") {
        let ghost want = SegmentView { subject: t@, ..before[n as int] };
        let s = Segment {
            hhmm: v[n].hhmm.clone(),
            title: v[n].title.clone(),
            subject: t,
            detail: v[n].detail.clone(),
            index: v[n].index.clone(),
        };
        v.set(n, s);
        assert(segment_views(v@) =~= before.update(n as int, want));
        return;
    }
    if let Some(t) = behind(line, "**详情**: ") {
        let ghost want = SegmentView { detail: t@, ..before[n as int] };
        let s = Segment {
            hhmm: v[n].hhmm.clone(),
            title: v[n].title.clone(),
            subject: v[n].subject.clone(),
            detail: t,
            index: v[n].index.clone(),
        };
        v.set(n, s);
        assert(segment_views(v@) =~= before.update(n as int, want));
        return;
    }
    if let Some(t) = behind(line, "**对话索引**: ") {
        let ghost want = SegmentView { index: t@, ..before[n as int] };
        let s = Segment {
            hhmm: v[n].hhmm.clone(),
            title: v[n].title.clone(),
            subject: v[n].subject.clone(),
            detail: v[n].detail.clone(),
            index: t,
        };
        v.set(n, s);
        assert(segment_views(v@) =~= before.update(n as int, want));
    }
}

/// Reads the events that a text describes.
pub fn read_segments(text: &str) -> (r: Vec<Segment>)
    ensures
        segment_views(r@) == segments(text@),
{
    let v = lines_of(text);
    let ghost all = lines(text@);
    let mut out: Vec<Segment> = Vec::new();
    let mut i: usize = 0;
    proof {
        assert(all.take(0) =~= Seq::empty());
        assert(segment_views(out@) =~= Seq::empty());
    }
    while i < v.len()
        invariant
            all == texts(v@),
            i <= v@.len(),
            segment_views(out@) == segments_on(all.take(i as int)),
        decreases v@.len() - i,
    {
        proof {
            let x = all.take(i + 1);
            assert(x.drop_last() =~= all.take(i as int));
            assert(x.last() == v@[i as int]@);
        }
        add_line(&mut out, v[i].as_str());
        i = i + 1;
    }
    assert(all.take(i as int) =~= all);
    out
}

/// Where an event was said: the day, and the range of events in it.
pub open spec fn pointer(date: Seq<char>, index: Seq<char>) -> Seq<char> {
    match find(index, "#seq"@) {
        Some(i) => date + index.skip(i),
        None => date,
    }
}

/// The line that stands for an event in a day's index.
pub open spec fn segment_line(date: Seq<char>, s: SegmentView) -> Seq<char> {
    "- "@ + s.hhmm + " ["@ + s.subject + "] "@ + s.title + " — "@ + s.detail + " → "@ + pointer(
        date,
        s.index,
    )
}

/// The lines that stand for events in a day's index.
pub open spec fn segment_lines(date: Seq<char>, v: Seq<SegmentView>) -> Seq<Seq<char>> {
    v.map_values(|s: SegmentView| segment_line(date, s))
}

fn write_pointer(date: &str, index: &str) -> (r: String)
    ensures
        r@ == pointer(date@, index@),
{
    let v = to_chars(index);
    let p = to_chars("#seq");
    let mut s = date.to_owned();
    proof {
        lemma_find_least(index@, "#seq"@, 0);
    }
    if let Some(i) = find_chars(v.as_slice(), p.as_slice(), 0) {
        let n: usize = v.len();
        assert(v@.subrange(i as int, n as int) =~= v@.skip(i as int));
        s.push_str(from_chars(slice_subrange(v.as_slice(), i, n)).as_str());
    }
    s
}

/// The lines that stand for events in a day's index.
pub fn index_lines(date: &str, v: &Vec<Segment>) -> (r: Vec<String>)
    ensures
        texts(r@) == segment_lines(date@, segment_views(v@)),
{
    let mut out: Vec<String> = Vec::new();
    let mut i: usize = 0;
    while i < v.len()
        invariant
            i <= v@.len(),
            out@.len() == i,
            forall|k: int|
                0 <= k < i ==> (#[trigger] out@[k])@ == segment_line(date@, v@[k]@),
        decreases v@.len() - i,
    {
        let x = &v[i];
        let mut s = "- ".to_owned();
        s.push_str(x.hhmm.as_str());
        s.push_str(" [");
        s.push_str(x.subject.as_str());
        s.push_str("] ");
        s.push_str(x.title.as_str());
        s.push_str(" — ");
        s.push_str(x.detail.as_str());
        s.push_str(" → ");
        s.push_str(write_pointer(date, x.index.as_str()).as_str());
        out.push(s);
        i = i + 1;
    }
    assert(texts(out@) =~= segment_lines(date@, segment_views(v@)));
    out
}

// ---------------------------------------------------------------------------
// Sections
// ---------------------------------------------------------------------------

/// The items of a section so far, and whether the section goes on.
pub open spec fn section_on(v: Seq<Seq<char>>, head: Seq<char>) -> (bool, Seq<Seq<char>>)
    decreases v.len(),
{
    if v.len() == 0 {
        (false, Seq::empty())
    } else {
        let (inside, items) = section_on(v.drop_last(), head);
        let line = v.last();
        if starts_with(line, "## "@) {
            (trim(line) == head, items)
        } else if inside && starts_with(line, "- "@) {
            (inside, items.push(line))
        } else {
            (inside, items)
        }
    }
}

/// The items of a section: the lines below its heading that begin with a dash.
pub open spec fn section(text: Seq<char>, head: Seq<char>) -> Seq<Seq<char>> {
    section_on(lines(text), head).1
}

/// The items of a section.
pub fn read_section(text: &str, head: &str) -> (r: Vec<String>)
    ensures
        texts(r@) == section(text@, head@),
{
    let v = lines_of(text);
    let ghost all = lines(text@);
    let mut out: Vec<String> = Vec::new();
    let mut inside = false;
    let mut i: usize = 0;
    proof {
        assert(all.take(0) =~= Seq::empty());
        assert(texts(out@) =~= Seq::empty());
    }
    while i < v.len()
        invariant
            all == texts(v@),
            i <= v@.len(),
            (inside, texts(out@)) == section_on(all.take(i as int), head@),
        decreases v@.len() - i,
    {
        let line = v[i].as_str();
        proof {
            let x = all.take(i + 1);
            assert(x.drop_last() =~= all.take(i as int));
            assert(x.last() == v@[i as int]@);
        }
        if begins(line, "## ") {
            inside = str_eq(trimmed(line).as_str(), head);
        } else if inside && begins(line, "- ") {
            let ghost before = texts(out@);
            out.push(line.to_owned());
            assert(texts(out@) =~= before.push(line@));
        }
        i = i + 1;
    }
    assert(all.take(i as int) =~= all);
    out
}

/// What the first item with a name says.
pub open spec fn item_for(items: Seq<Seq<char>>, name: Seq<char>) -> Option<Seq<char>>
    decreases items.len(),
{
    if items.len() == 0 {
        None
    } else {
        match item_for(items.drop_last(), name) {
            Some(t) => Some(t),
            None => strip_prefix(items.last(), "- "@ + name + ": "@),
        }
    }
}

/// What the first item with a name says.
pub fn find_item(items: &Vec<String>, name: &str) -> (r: Option<String>)
    ensures
        crate::text::opt_text(r) == item_for(texts(items@), name@),
{
    let ghost all = texts(items@);
    let mut p = "- ".to_owned();
    p.push_str(name);
    p.push_str(": ");
    let mut found: Option<String> = None;
    let mut i: usize = 0;
    assert(all.take(0) =~= Seq::empty());
    while i < items.len()
        invariant
            all == texts(items@),
            p@ == "- "@ + name@ + ": "@,
            i <= items@.len(),
            crate::text::opt_text(found) == item_for(all.take(i as int), name@),
        decreases items@.len() - i,
    {
        proof {
            let x = all.take(i + 1);
            assert(x.drop_last() =~= all.take(i as int));
            assert(x.last() == items@[i as int]@);
        }
        if found.is_none() {
            found = behind(items[i].as_str(), p.as_str());
        }
        i = i + 1;
    }
    assert(all.take(i as int) =~= all);
    found
}

} // verus!
