//! What is asked of the memory: its index by year, month and day, what it holds of
//! them, the conversations behind it, and words in it.
use crate::agent::{year_month, year_month_of};
use crate::cards::{
    cards, end_lines, ended, make_cards, read_records, records, Card,
};
use crate::cut::{byte_len, bytes_of};
use crate::dates::{date_from_ts_local, date_of, offset_fits, shifted};
use crate::decimal::{
    all_digits, dec, dec_int, digit_like, is_digit, padded, write_i64, write_padded, write_u64,
    write_usize,
};
use crate::history::{EventView, HistoryEvent};
use crate::json::{jsons, lemma_jsons_at, lemma_jsons_len, strings_in, strings_of, Json, JsonView};
use crate::lines::{
    join, join_strs, lines, lines_of, sort_strs_down, sorted, split, split_str,
};
use crate::notes::{
    find_item, index_lines, item_for, read_section, read_segments, section, segment_lines,
    segment_views, segments, Segment, SegmentView,
};
use crate::paths::{join_path, joined, name_extension, name_stem};
use crate::store::{
    below_dir, dirs_in, entry_path, entry_views, event_lines, is_under, name_has_extension,
    note_names, some_extension, stem_len, sub_dir, text_of, under, EntryView, Store, StoreView,
};
use crate::text::{
    begins, blank, contains, from_chars, has, is_blank, lemma_filter_weaker, opt_str, opt_text,
    starts_with, str_eq, text_or_empty, texts, to_chars, trim, trimmed,
};
use crate::wire::{json_read, parse_json, Reading};
use vstd::prelude::*;
use vstd::slice::slice_subrange;

verus! {

// ---------------------------------------------------------------------------
// Dates
// ---------------------------------------------------------------------------

/// The digits of a text.
pub open spec fn digits(s: Seq<char>) -> Seq<char> {
    s.filter(|c: char| is_digit(c))
}

/// The digits of a text.
pub fn digits_of(s: &str) -> (r: String)
    ensures
        r@ == digits(s@),
{
    let v = to_chars(s);
    let ghost p = |c: char| is_digit(c);
    let mut out = String::new();
    let mut i: usize = 0;
    proof {
        reveal(Seq::filter);
        assert(out@ =~= s@.take(0).filter(p));
    }
    while i < v.len()
        invariant
            v@ == s@,
            p == (|c: char| is_digit(c)),
            i <= v@.len(),
            out@ == s@.take(i as int).filter(p),
        decreases v@.len() - i,
    {
        proof {
            reveal(Seq::filter);
            let x = s@.take(i + 1);
            assert(x.drop_last() =~= s@.take(i as int));
            assert(x.last() == v@[i as int]);
        }
        if digit_like(v[i]) {
            out.push(v[i]);
        }
        i = i + 1;
    }
    assert(s@.take(i as int) =~= s@);
    out
}

/// The part of a text between two places.
pub fn piece(s: &str, from: usize, to: usize) -> (r: String)
    requires
        from <= to <= s@.len(),
    ensures
        r@ == s@.subrange(from as int, to as int),
{
    let v = to_chars(s);
    from_chars(slice_subrange(v.as_slice(), from, to))
}

/// A month, written with a dash.
pub open spec fn month_name(y: Seq<char>, m: Seq<char>) -> Seq<char> {
    y + "-"@ + m
}

/// A day, written with dashes.
pub open spec fn day_name(y: Seq<char>, m: Seq<char>, d: Seq<char>) -> Seq<char> {
    y + "-"@ + m + "-"@ + d
}

/// A month, written with a dash.
pub fn write_month_name(y: &str, m: &str) -> (r: String)
    ensures
        r@ == month_name(y@, m@),
{
    let mut s = y.to_owned();
    s.push_str("-");
    s.push_str(m);
    s
}

/// A day, written with dashes.
pub fn write_day_name(y: &str, m: &str, d: &str) -> (r: String)
    ensures
        r@ == day_name(y@, m@, d@),
{
    let mut s = y.to_owned();
    s.push_str("-");
    s.push_str(m);
    s.push_str("-");
    s.push_str(d);
    s
}

/// What is said where there is nothing: a name and a remark in brackets.
pub open spec fn remark(name: Seq<char>, text: Seq<char>) -> Seq<char> {
    "（"@ + name + text + "）"@
}

fn write_remark(name: &str, text: &str) -> (r: String)
    ensures
        r@ == remark(name@, text@),
{
    let mut s = "（".to_owned();
    s.push_str(name);
    s.push_str(text);
    s.push_str("）");
    s
}

fn concat(a: &str, b: &str) -> (r: String)
    ensures
        r@ == a@ + b@,
{
    let mut s = a.to_owned();
    s.push_str(b);
    s
}

/// A heading with a remark behind the name.
pub open spec fn title_line(name: Seq<char>, text: Seq<char>) -> Seq<char> {
    "## "@ + name + text + "\n"@
}

fn write_title(name: &str, text: &str) -> (r: String)
    ensures
        r@ == title_line(name@, text@),
{
    let mut s = "## ".to_owned();
    s.push_str(name);
    s.push_str(text);
    s.push_str("\n");
    s
}

// ---------------------------------------------------------------------------
// The index of a year
// ---------------------------------------------------------------------------

/// The title of a month in the records of a year: the last one that is given.
pub open spec fn month_title(rows: Seq<JsonView>, ym: Seq<char>) -> Option<Seq<char>>
    decreases rows.len(),
{
    if rows.len() == 0 {
        None
    } else if rows.last().str_at("type"@) == Some("month"@) && rows.last().text_at("month"@)
        == ym {
        Some(rows.last().text_at("month_title"@))
    } else {
        month_title(rows.drop_last(), ym)
    }
}

fn find_month_title(rows: &Vec<Json>, ym: &str) -> (r: Option<String>)
    ensures
        opt_text(r) == month_title(jsons(rows@), ym@),
{
    let ghost all = jsons(rows@);
    let mut i: usize = rows.len();
    proof {
        lemma_jsons_len(rows@);
        assert(all.take(i as int) =~= all);
    }
    while i > 0
        invariant
            all == jsons(rows@),
            all.len() == rows@.len(),
            i <= rows@.len(),
            month_title(all, ym@) == month_title(all.take(i as int), ym@),
        decreases i,
    {
        let v = &rows[i - 1];
        proof {
            lemma_jsons_at(rows@, i - 1);
            let x = all.take(i as int);
            assert(x.drop_last() =~= all.take(i - 1));
            assert(x.last() == v@);
        }
        if v.is_at("type", "month") && str_eq(v.text_at("month"), ym) {
            return Some(v.text_at("month_title").to_owned());
        }
        i = i - 1;
    }
    None
}

/// The line of a month in the index of a year.
pub open spec fn month_line(
    v: Seq<EntryView>,
    rows: Seq<JsonView>,
    year: Seq<char>,
    m: Seq<char>,
) -> Seq<char> {
    let ym = month_name(year, m);
    let n = dec(event_lines(v, sub_dir(sub_dir("memory"@, year), m)).len());
    let title = match month_title(rows, ym) {
        Some(t) => t,
        None => n + "事件"@,
    };
    "- "@ + ym + ": "@ + title + "（"@ + n + "事件）"@
}

/// The events of a month that is kept as Markdown, day by day.
pub open spec fn note_segments(
    v: Seq<EntryView>,
    dir: Seq<char>,
    names: Seq<Seq<char>>,
) -> Seq<SegmentView>
    decreases names.len(),
{
    if names.len() == 0 {
        Seq::empty()
    } else {
        note_segments(v, dir, names.drop_last()) + segments(
            text_or_empty(text_of(v, dir, names.last())),
        )
    }
}

/// The line of a month that is kept as Markdown: what it was about, or how many
/// events it has and what the first of them was.
pub open spec fn note_month_line(
    v: Seq<EntryView>,
    themes: Seq<Seq<char>>,
    year: Seq<char>,
    m: Seq<char>,
) -> Seq<char> {
    let ym = month_name(year, m);
    let dir = sub_dir(sub_dir("memory"@, year), m);
    let segs = note_segments(v, dir, sorted(note_names(v, dir)));
    let n = dec(segs.len());
    match item_for(themes, ym) {
        Some(t) => "- "@ + ym + ": "@ + t + "（月主题 · "@ + n + " 段）"@,
        None => "- "@ + ym + ": "@ + n + " 段（首条: "@ + (if segs.len() > 0 {
            segs[0].title
        } else {
            Seq::empty()
        }) + "）"@,
    }
}

/// A year of which there are notes and no records.
pub open spec fn is_note_year(v: Seq<EntryView>, dir: Seq<char>) -> bool {
    !some_extension(v, dir, "jsonl"@) && some_extension(v, dir, "md"@)
}

/// The records of a year.
pub open spec fn year_records(v: Seq<EntryView>, year: Seq<char>) -> Seq<JsonView> {
    match text_of(v, sub_dir("memory"@, year), year + ".jsonl"@) {
        Some(t) => records(t, true),
        None => Seq::empty(),
    }
}

/// What the months of years were about, as the overview says it.
pub open spec fn year_themes(v: Seq<EntryView>) -> Seq<Seq<char>> {
    section(text_or_empty(text_of(v, ""@, "MEMORY.md"@)), "## 年"@)
}

/// The index of a year: its months.
pub open spec fn year_index(s: StoreView, year: Seq<char>) -> Seq<char> {
    let dir = sub_dir("memory"@, year);
    let months = sorted(dirs_in(s.entries, dir));
    if months.len() == 0 {
        remark(year, " 无记忆"@)
    } else if is_note_year(s.entries, dir) {
        title_line(year, "（各月概览）"@) + ended(
            months.map_values(
                |m: Seq<char>| note_month_line(s.entries, year_themes(s.entries), year, m),
            ),
        )
    } else {
        title_line(year, "（各月）"@) + ended(
            months.map_values(
                |m: Seq<char>| month_line(s.entries, year_records(s.entries, year), year, m),
            ),
        )
    }
}

fn write_month_line(store: &Store, rows: &Vec<Json>, year: &str, m: &str) -> (r: String)
    ensures
        r@ == month_line(store@.entries, jsons(rows@), year@, m@),
{
    let ym = write_month_name(year, m);
    let dir = below_dir(below_dir("memory", year).as_str(), m);
    let count: usize = store.events_in(dir.as_str()).len();
    let n = write_usize(count);
    proof {
        assert(texts(Seq::<String>::empty()) =~= Seq::empty());
    }
    let title = match find_month_title(rows, ym.as_str()) {
        Some(t) => t,
        None => concat(n.as_str(), "事件"),
    };
    let mut s = "- ".to_owned();
    s.push_str(ym.as_str());
    s.push_str(": ");
    s.push_str(title.as_str());
    s.push_str("（");
    s.push_str(n.as_str());
    s.push_str("事件）");
    s
}

fn read_note_segments(store: &Store, dir: &str, names: &Vec<String>) -> (r: Vec<Segment>)
    ensures
        segment_views(r@) == note_segments(store@.entries, dir@, texts(names@)),
{
    let ghost all = texts(names@);
    let ghost v = store@.entries;
    let mut out: Vec<Segment> = Vec::new();
    let mut i: usize = 0;
    proof {
        assert(all.take(0) =~= Seq::empty());
        assert(segment_views(out@) =~= Seq::empty());
    }
    while i < names.len()
        invariant
            all == texts(names@),
            v == store@.entries,
            i <= names@.len(),
            segment_views(out@) == note_segments(v, dir@, all.take(i as int)),
        decreases names@.len() - i,
    {
        proof {
            let x = all.take(i + 1);
            assert(x.drop_last() =~= all.take(i as int));
            assert(x.last() == names@[i as int]@);
            reveal_strlit("");
            assert(""@ =~= Seq::<char>::empty());
        }
        let text = match store.text(dir, names[i].as_str()) {
            Some(t) => t,
            None => "",
        };
        let ghost before = segment_views(out@);
        let mut more = read_segments(text);
        let ghost added = segment_views(more@);
        out.append(&mut more);
        assert(segment_views(out@) =~= before + added);
        i = i + 1;
    }
    assert(all.take(i as int) =~= all);
    out
}

fn write_note_month_line(store: &Store, themes: &Vec<String>, year: &str, m: &str) -> (r: String)
    ensures
        r@ == note_month_line(store@.entries, texts(themes@), year@, m@),
{
    let ym = write_month_name(year, m);
    let dir = below_dir(below_dir("memory", year).as_str(), m);
    let names = store.notes_in(dir.as_str());
    let segs = read_note_segments(store, dir.as_str(), &names);
    let n = write_usize(segs.len());
    let mut s = "- ".to_owned();
    s.push_str(ym.as_str());
    s.push_str(": ");
    match find_item(themes, ym.as_str()) {
        Some(t) => {
            s.push_str(t.as_str());
            s.push_str("（月主题 · ");
            s.push_str(n.as_str());
            s.push_str(" 段）");
        },
        None => {
            s.push_str(n.as_str());
            s.push_str(" 段（首条: ");
            if segs.len() > 0 {
                assert(segment_views(segs@)[0] == segs@[0]@);
                s.push_str(segs[0].title.as_str());
            }
            s.push_str("）");
            proof {
                if segs@.len() == 0 {
                    let a = "- "@ + ym@ + ": "@ + n@ + " 段（首条: "@;
                    assert(a + Seq::<char>::empty() =~= a);
                }
            }
        },
    }
    s
}

fn list_year(store: &Store, year: &str) -> (r: String)
    ensures
        r@ == year_index(store@, year@),
{
    let dir = below_dir("memory", year);
    let months = store.dirs(dir.as_str());
    let ghost names = texts(months@);
    if months.len() == 0 {
        return write_remark(year, " 无记忆");
    }
    let ghost v = store@.entries;
    if !store.holds(dir.as_str(), "jsonl") && store.holds(dir.as_str(), "md") {
        let text = match store.text("", "MEMORY.md") {
            Some(t) => t,
            None => "",
        };
        proof {
            reveal_strlit("");
            assert(""@ =~= Seq::<char>::empty());
        }
        let themes = read_section(text, "## 年");
        let mut out: Vec<String> = Vec::new();
        let mut i: usize = 0;
        while i < months.len()
            invariant
                v == store@.entries,
                names == texts(months@),
                texts(themes@) == year_themes(v),
                i <= months@.len(),
                out@.len() == i,
                forall|k: int|
                    0 <= k < i ==> (#[trigger] out@[k])@ == note_month_line(
                        v,
                        year_themes(v),
                        year@,
                        names[k],
                    ),
            decreases months@.len() - i,
        {
            out.push(write_note_month_line(store, &themes, year, months[i].as_str()));
            i = i + 1;
        }
        assert(texts(out@) =~= names.map_values(
            |m: Seq<char>| note_month_line(v, year_themes(v), year@, m),
        ));
        let mut s = write_title(year, "（各月概览）");
        s.push_str(end_lines(&out).as_str());
        return s;
    }
    let file = concat(year, ".jsonl");
    let rows = match store.text(dir.as_str(), file.as_str()) {
        Some(t) => read_records(t, true),
        None => Vec::new(),
    };
    proof {
        if text_of(v, dir@, file@) is None {
            assert(jsons(rows@) =~= Seq::empty());
        }
    }
    let mut out: Vec<String> = Vec::new();
    let mut i: usize = 0;
    while i < months.len()
        invariant
            v == store@.entries,
            names == texts(months@),
            jsons(rows@) == year_records(v, year@),
            i <= months@.len(),
            out@.len() == i,
            forall|k: int|
                0 <= k < i ==> (#[trigger] out@[k])@ == month_line(
                    v,
                    year_records(v, year@),
                    year@,
                    names[k],
                ),
        decreases months@.len() - i,
    {
        out.push(write_month_line(store, &rows, year, months[i].as_str()));
        i = i + 1;
    }
    assert(texts(out@) =~= names.map_values(
        |m: Seq<char>| month_line(v, year_records(v, year@), year@, m),
    ));
    let mut s = write_title(year, "（各月）");
    s.push_str(end_lines(&out).as_str());
    s
}

// ---------------------------------------------------------------------------
// The index of a month and of a day
// ---------------------------------------------------------------------------

/// The text of a file, nothing when it is not there.
pub open spec fn file_text(
    v: Seq<EntryView>,
    dir: Seq<char>,
    name: Seq<char>,
) -> Seq<char> {
    text_or_empty(text_of(v, dir, name))
}

fn read_file<'a>(store: &'a Store, dir: &str, name: &str) -> (r: &'a str)
    ensures
        r@ == file_text(store@.entries, dir@, name@),
{
    proof {
        reveal_strlit("");
        assert(""@ =~= Seq::<char>::empty());
    }
    match store.text(dir, name) {
        Some(t) => t,
        None => "",
    }
}

/// The index of a month: its days.
pub open spec fn month_index(s: StoreView, y: Seq<char>, m: Seq<char>) -> Seq<char> {
    let ym = month_name(y, m);
    let dir = sub_dir(sub_dir("memory"@, y), m);
    let text = file_text(s.entries, dir, ym + ".jsonl"@);
    let notes = file_text(s.entries, dir, ym + ".md"@);
    if !is_blank(text) {
        let days = cards(Card::DayIndex, records(text, false));
        if days.len() == 0 {
            remark(ym, " 无天卡"@)
        } else {
            title_line(ym, "（各天）"@) + join(days, ""@)
        }
    } else if !is_blank(notes) {
        let days = section(notes, "## 日概括"@);
        if days.len() == 0 {
            remark(ym, " 无天卡"@)
        } else {
            title_line(ym, "（日概括）"@) + ended(days)
        }
    } else {
        remark(ym, " 无月级文件"@)
    }
}

fn list_month(store: &Store, y: &str, m: &str) -> (r: String)
    ensures
        r@ == month_index(store@, y@, m@),
{
    let ym = write_month_name(y, m);
    let dir = below_dir(below_dir("memory", y).as_str(), m);
    let text = read_file(store, dir.as_str(), concat(ym.as_str(), ".jsonl").as_str());
    let notes = read_file(store, dir.as_str(), concat(ym.as_str(), ".md").as_str());
    if !blank(text) {
        let rows = read_records(text, false);
        let days = make_cards(Card::DayIndex, &rows);
        if days.len() == 0 {
            assert(texts(days@).len() == 0);
            return write_remark(ym.as_str(), " 无天卡");
        }
        assert(texts(days@).len() > 0);
        let mut s = write_title(ym.as_str(), "（各天）");
        s.push_str(join_strs(&days, "").as_str());
        return s;
    }
    if !blank(notes) {
        let days = read_section(notes, "## 日概括");
        if days.len() == 0 {
            assert(texts(days@).len() == 0);
            return write_remark(ym.as_str(), " 无天卡");
        }
        assert(texts(days@).len() > 0);
        let mut s = write_title(ym.as_str(), "（日概括）");
        s.push_str(end_lines(&days).as_str());
        return s;
    }
    write_remark(ym.as_str(), " 无月级文件")
}

/// The index of a day: its events.
pub open spec fn day_index(s: StoreView, y: Seq<char>, m: Seq<char>, d: Seq<char>) -> Seq<char> {
    let date = day_name(y, m, d);
    let dir = sub_dir(sub_dir("memory"@, y), m);
    let text = file_text(s.entries, dir, date + ".jsonl"@);
    let notes = file_text(s.entries, dir, date + ".md"@);
    if !is_blank(text) {
        let events = cards(Card::EventIndex, records(text, false));
        if events.len() == 0 {
            remark(date, " 无事件"@)
        } else {
            title_line(date, "（事件索引）"@) + join(events, ""@)
        }
    } else if !is_blank(notes) {
        let events = segment_lines(date, segments(notes));
        if events.len() == 0 {
            remark(date, " 无事件"@)
        } else {
            title_line(date, "（事件段索引）"@) + ended(events)
        }
    } else {
        remark(date, " 无当天记忆"@)
    }
}

fn list_day(store: &Store, y: &str, m: &str, d: &str) -> (r: String)
    ensures
        r@ == day_index(store@, y@, m@, d@),
{
    let date = write_day_name(y, m, d);
    let dir = below_dir(below_dir("memory", y).as_str(), m);
    let text = read_file(store, dir.as_str(), concat(date.as_str(), ".jsonl").as_str());
    let notes = read_file(store, dir.as_str(), concat(date.as_str(), ".md").as_str());
    if !blank(text) {
        let rows = read_records(text, false);
        let events = make_cards(Card::EventIndex, &rows);
        if events.len() == 0 {
            assert(texts(events@).len() == 0);
            return write_remark(date.as_str(), " 无事件");
        }
        assert(texts(events@).len() > 0);
        let mut s = write_title(date.as_str(), "（事件索引）");
        s.push_str(join_strs(&events, "").as_str());
        return s;
    }
    if !blank(notes) {
        let segs = read_segments(notes);
        let events = index_lines(date.as_str(), &segs);
        if events.len() == 0 {
            assert(texts(events@).len() == 0);
            return write_remark(date.as_str(), " 无事件");
        }
        assert(texts(events@).len() > 0);
        let mut s = write_title(date.as_str(), "（事件段索引）");
        s.push_str(end_lines(&events).as_str());
        return s;
    }
    write_remark(date.as_str(), " 无当天记忆")
}

// ---------------------------------------------------------------------------
// The index
// ---------------------------------------------------------------------------

/// The years of the memory: the directories whose names are digits.
pub open spec fn years(s: StoreView) -> Seq<Seq<char>> {
    sorted(dirs_in(s.entries, "memory"@)).filter(|n: Seq<char>| all_digits(n))
}

/// The list of the years.
pub open spec fn year_list(s: StoreView) -> Seq<char> {
    if years(s).len() == 0 {
        remark(joined(s.root, "memory"@), " 下无数据"@)
    } else {
        join(years(s), "\n"@)
    }
}

pub(crate) fn only_digits(s: &str) -> (r: bool)
    ensures
        r == all_digits(s@),
{
    let v = to_chars(s);
    let mut i: usize = 0;
    while i < v.len()
        invariant
            v@ == s@,
            i <= v@.len(),
            forall|k: int| 0 <= k < i ==> is_digit(v@[k]),
        decreases v@.len() - i,
    {
        if !digit_like(v[i]) {
            return false;
        }
        i = i + 1;
    }
    true
}

fn list_years(store: &Store) -> (r: String)
    ensures
        r@ == year_list(store@),
{
    let names = store.dirs("memory");
    let ghost all = texts(names@);
    let ghost p = |n: Seq<char>| all_digits(n);
    let mut out: Vec<String> = Vec::new();
    let mut i: usize = 0;
    proof {
        reveal(Seq::filter);
        assert(texts(out@) =~= all.take(0).filter(p));
    }
    while i < names.len()
        invariant
            all == texts(names@),
            p == (|n: Seq<char>| all_digits(n)),
            i <= names@.len(),
            texts(out@) == all.take(i as int).filter(p),
        decreases names@.len() - i,
    {
        proof {
            reveal(Seq::filter);
            let x = all.take(i + 1);
            assert(x.drop_last() =~= all.take(i as int));
            assert(x.last() == names@[i as int]@);
        }
        if only_digits(names[i].as_str()) {
            let ghost before = texts(out@);
            out.push(names[i].clone());
            assert(texts(out@) =~= before.push(names@[i as int]@));
        }
        i = i + 1;
    }
    assert(all.take(i as int) =~= all);
    assert(texts(out@).len() == out@.len());
    if out.len() == 0 {
        write_remark(join_path(store.root.as_str(), "memory").as_str(), " 下无数据")
    } else {
        join_strs(&out, "\n")
    }
}

/// The index of the memory: its years, or the months of a year, the days of a month
/// or the events of a day, by how many digits are given.
pub open spec fn index_text(s: StoreView, arg: Option<Seq<char>>) -> Seq<char> {
    match arg {
        None => year_list(s),
        Some(a) => {
            let d = digits(a);
            if d.len() == 4 {
                year_index(s, d)
            } else if d.len() == 6 {
                month_index(s, d.take(4), d.subrange(4, 6))
            } else if d.len() == 8 {
                day_index(s, d.take(4), d.subrange(4, 6), d.subrange(6, 8))
            } else {
                "日期格式应为 YYYY / YYYYMM / YYYYMMDD（也认横线），收到: "@ + a
            }
        },
    }
}

/// The index of the memory.
pub fn ls(store: &Store, arg: Option<&str>) -> (r: String)
    ensures
        r@ == index_text(store@, opt_str(arg)),
{
    let a = match arg {
        None => {
            return list_years(store);
        },
        Some(a) => a,
    };
    let d = digits_of(a);
    let n: usize = d.as_str().unicode_len();
    if n == 4 {
        list_year(store, d.as_str())
    } else if n == 6 {
        assert(d@.subrange(0, 4) =~= d@.take(4));
        list_month(store, piece(d.as_str(), 0, 4).as_str(), piece(d.as_str(), 4, 6).as_str())
    } else if n == 8 {
        assert(d@.subrange(0, 4) =~= d@.take(4));
        list_day(
            store,
            piece(d.as_str(), 0, 4).as_str(),
            piece(d.as_str(), 4, 6).as_str(),
            piece(d.as_str(), 6, 8).as_str(),
        )
    } else {
        concat("日期格式应为 YYYY / YYYYMM / YYYYMMDD（也认横线），收到: ", a)
    }
}

/// A date with dashes and one without give the same index.
pub proof fn lemma_dashes_do_not_matter(s: StoreView, a: Seq<char>, b: Seq<char>)
    requires
        digits(a) == digits(b),
        digits(a).len() == 4 || digits(a).len() == 6 || digits(a).len() == 8,
    ensures
        index_text(s, Some(a)) == index_text(s, Some(b)),
{
}

/// A date and the date without its dashes give the same index; what does not hold as
/// many digits as a year, a month or a day is told back, with the form of a date.
pub proof fn lemma_dates_listed(s: StoreView, a: Seq<char>)
    ensures
        ({
            let n = digits(a).len();
            if n == 4 || n == 6 || n == 8 {
                index_text(s, Some(a)) == index_text(s, Some(a.filter(|c: char| c != '-')))
            } else {
                index_text(s, Some(a))
                    == "日期格式应为 YYYY / YYYYMM / YYYYMMDD（也认横线），收到: "@ + a
            }
        }),
{
    lemma_filter_weaker(a, |c: char| c != '-', |c: char| is_digit(c));
}

// ---------------------------------------------------------------------------
// Reading
// ---------------------------------------------------------------------------

/// The file of a day or a month: below the directory of its year and month, when
/// the date has both.
pub open spec fn period_file(root: Seq<char>, date: Seq<char>, ending: Seq<char>) -> Option<
    Seq<char>,
> {
    let parts = split(date, '-');
    if parts.len() < 2 {
        None
    } else {
        Some(
            joined(
                joined(joined(joined(root, "memory"@), parts[0]), parts[1]),
                date + ending,
            ),
        )
    }
}

/// The file of a day or a month.
pub fn period_path(root: &str, date: &str, ending: &str) -> (r: Option<String>)
    ensures
        opt_text(r) == period_file(root@, date@, ending@),
{
    let parts = split_str(date, '-');
    assert(texts(parts@).len() == parts@.len());
    if parts.len() < 2 {
        return None;
    }
    let year = join_path(join_path(root, "memory").as_str(), parts[0].as_str());
    let month = join_path(year.as_str(), parts[1].as_str());
    Some(join_path(month.as_str(), concat(date, ending).as_str()))
}

/// The file of a year.
pub fn year_path(root: &str, year: &str, ending: &str) -> (r: String)
    ensures
        r@ == joined(joined(joined(root@, "memory"@), year@), year@ + ending@),
{
    join_path(
        join_path(join_path(root, "memory").as_str(), year).as_str(),
        concat(year, ending).as_str(),
    )
}

/// What is read of a period: the cards of its records; its notes where it has no
/// records; a remark where it has neither.
pub open spec fn period_text(
    kind: Card,
    records_text: Option<Seq<char>>,
    notes: Option<Seq<char>>,
    nothing: Seq<char>,
) -> Seq<char> {
    let text = text_or_empty(records_text);
    if !is_blank(text) {
        let out = join(cards(kind, records(text, false)), ""@);
        if out.len() == 0 {
            nothing
        } else {
            out
        }
    } else if !is_blank(text_or_empty(notes)) {
        text_or_empty(notes)
    } else {
        nothing
    }
}

fn read_period(
    kind: Card,
    records_text: Option<&str>,
    notes: Option<&str>,
    nothing: String,
) -> (r: String)
    ensures
        r@ == period_text(kind, opt_str(records_text), opt_str(notes), nothing@),
{
    proof {
        assert(is_blank(Seq::<char>::empty()));
    }
    if let Some(t) = records_text {
        if !blank(t) {
            let rows = read_records(t, false);
            let out = join_strs(&make_cards(kind, &rows), "");
            if out.as_str().unicode_len() == 0 {
                return nothing;
            }
            return out;
        }
    }
    if let Some(t) = notes {
        if !blank(t) {
            return t.to_owned();
        }
    }
    nothing
}

/// What is read of a day.
pub fn read_day(date: &str, records_text: Option<&str>, notes: Option<&str>) -> (r: String)
    ensures
        r@ == (if split(date@, '-').len() < 2 {
            "日期格式应为 YYYY-MM-DD"@
        } else {
            period_text(
                Card::EventText,
                opt_str(records_text),
                opt_str(notes),
                remark(date@, " 无当天记忆"@),
            )
        }),
{
    let parts = split_str(date, '-');
    assert(texts(parts@).len() == parts@.len());
    if parts.len() < 2 {
        return "日期格式应为 YYYY-MM-DD".to_owned();
    }
    read_period(Card::EventText, records_text, notes, write_remark(date, " 无当天记忆"))
}

/// What is read of a month.
pub fn read_month(ym: &str, records_text: Option<&str>, notes: Option<&str>) -> (r: String)
    ensures
        r@ == (if split(ym@, '-').len() < 2 {
            "月份格式应为 YYYY-MM"@
        } else {
            period_text(
                Card::MonthText,
                opt_str(records_text),
                opt_str(notes),
                remark(ym@, " 无月级文件"@),
            )
        }),
{
    let parts = split_str(ym, '-');
    assert(texts(parts@).len() == parts@.len());
    if parts.len() < 2 {
        return "月份格式应为 YYYY-MM".to_owned();
    }
    read_period(Card::MonthText, records_text, notes, write_remark(ym, " 无月级文件"))
}

/// A year: four digits.
pub open spec fn is_year(s: Seq<char>) -> bool {
    byte_len(s) == 4 && all_digits(s)
}

/// Whether a text is a year.
pub fn year_like(s: &str) -> (r: bool)
    ensures
        r == is_year(s@),
{
    bytes_of(s) == 4 && only_digits(s)
}

/// What is read of a year.
pub fn read_year(year: &str, records_text: Option<&str>, notes: Option<&str>) -> (r: String)
    ensures
        r@ == (if !is_year(year@) {
            "年份格式应为 YYYY"@
        } else {
            period_text(
                Card::YearText,
                opt_str(records_text),
                opt_str(notes),
                remark(year@, " 无年级文件"@),
            )
        }),
{
    if !year_like(year) {
        return "年份格式应为 YYYY".to_owned();
    }
    read_period(Card::YearText, records_text, notes, write_remark(year, " 无年级文件"))
}

// ---------------------------------------------------------------------------
// Conversations
// ---------------------------------------------------------------------------

/// A day with dashes: one that is given as eight digits gets them.
pub open spec fn dashed_day(date: Seq<char>) -> Seq<char> {
    if byte_len(date) == 8 && all_digits(date) {
        day_name(date.take(4), date.subrange(4, 6), date.subrange(6, 8))
    } else {
        date
    }
}

proof fn lemma_digit_bytes(s: Seq<char>)
    requires
        all_digits(s),
    ensures
        byte_len(s) == s.len(),
    decreases s.len(),
{
    if s.len() > 0 {
        assert(is_digit(s[s.len() - 1]));
        let t = s.drop_last();
        assert forall|i: int| 0 <= i < t.len() implies is_digit(t[i]) by {
            assert(t[i] == s[i]);
        }
        lemma_digit_bytes(t);
    }
}

/// The file of a day's conversations.
pub fn history_path(root: &str, date: &str) -> (r: String)
    ensures
        r@ == joined(joined(root@, "history"@), dashed_day(date@) + ".jsonl"@),
{
    let name = if bytes_of(date) == 8 && only_digits(date) {
        proof {
            lemma_digit_bytes(date@);
            assert(date@.subrange(0, 4) =~= date@.take(4));
        }
        write_day_name(
            piece(date, 0, 4).as_str(),
            piece(date, 4, 6).as_str(),
            piece(date, 6, 8).as_str(),
        )
    } else {
        date.to_owned()
    };
    join_path(join_path(root, "history").as_str(), concat(name.as_str(), ".jsonl").as_str())
}

/// What was said in an event.
pub open spec fn said(v: JsonView) -> Seq<char> {
    match v.str_at("content"@) {
        Some(s) => s,
        None => v.text_at("text"@),
    }
}

/// An event as a reader sees it.
pub open spec fn human(e: EventView) -> Seq<char> {
    let v = e.body();
    let head = "[seq"@ + dec(e.seq as nat);
    if e.kind == "user"@ {
        head + " 用户] "@ + said(v)
    } else if e.kind == "assistant"@ {
        if v.array_at("tool_calls"@) matches Some(a) && a.len() > 0 {
            head + " 助手] (调用工具)"@
        } else {
            head + " 助手] "@ + said(v)
        }
    } else if e.kind == "tool_result"@ {
        head + " 工具结果:"@ + v.text_at("name"@) + "] "@ + v.text_at("result"@)
    } else if e.kind == "external"@ {
        head + " 外部] "@ + v.text_at("what"@)
    } else if e.kind == "subagent_result"@ {
        head + " 子代理#"@ + crate::cards::count_at(v, "agent_id"@) + "完成] "@ + v.text_at(
            "summary"@,
        )
    } else if e.kind == "marker"@ {
        head + " marker "@ + v.text_at("marker"@) + " until_seq="@ + crate::cards::count_at(
            v,
            "until_seq"@,
        ) + "] (隐藏)"@
    } else {
        head + " "@ + e.kind + "]"@
    }
}

/// An event as a reader sees it.
pub fn humanize(e: &HistoryEvent) -> (r: String)
    ensures
        r@ == human(e@),
{
    let kind = e.kind.as_str();
    let v = Json::Obj(e.data.clone());
    assert(v@ == e@.body());
    let mut s = "[seq".to_owned();
    s.push_str(write_u64(e.seq).as_str());
    let text = match v.str_at("content") {
        Some(t) => t,
        None => v.text_at("text"),
    };
    if str_eq(kind, "user") {
        s.push_str(" 用户] ");
        s.push_str(text);
    } else if str_eq(kind, "assistant") {
        let calls = match v.array_at("tool_calls") {
            Some(a) => {
                proof {
                    lemma_jsons_len(a@);
                }
                a.len() > 0
            },
            None => false,
        };
        if calls {
            s.push_str(" 助手] (调用工具)");
        } else {
            s.push_str(" 助手] ");
            s.push_str(text);
        }
    } else if str_eq(kind, "tool_result") {
        s.push_str(" 工具结果:");
        s.push_str(v.text_at("name"));
        s.push_str("] ");
        s.push_str(v.text_at("result"));
    } else if str_eq(kind, "external") {
        s.push_str(" 外部] ");
        s.push_str(v.text_at("what"));
    } else if str_eq(kind, "subagent_result") {
        s.push_str(" 子代理#");
        s.push_str(crate::cards::count_text(&v, "agent_id").as_str());
        s.push_str("完成] ");
        s.push_str(v.text_at("summary"));
    } else if str_eq(kind, "marker") {
        s.push_str(" marker ");
        s.push_str(v.text_at("marker"));
        s.push_str(" until_seq=");
        s.push_str(crate::cards::count_text(&v, "until_seq").as_str());
        s.push_str("] (隐藏)");
    } else {
        s.push_str(" ");
        s.push_str(kind);
        s.push_str("]");
    }
    s
}

/// A number lies in a range, when there is one.
pub open spec fn in_range(seq: u64, range: Option<(u64, u64)>) -> bool {
    match range {
        Some((a, b)) => a <= seq <= b,
        None => true,
    }
}

/// The events of rows that could be read and lie in a range, as a reader sees them.
pub open spec fn human_rows(
    rows: Seq<Option<HistoryEvent>>,
    range: Option<(u64, u64)>,
) -> Seq<Seq<char>>
    decreases rows.len(),
{
    if rows.len() == 0 {
        Seq::empty()
    } else {
        let head = human_rows(rows.drop_last(), range);
        match rows.last() {
            Some(e) => if in_range(e.seq, range) {
                head.push(human(e@))
            } else {
                head
            },
            None => head,
        }
    }
}

/// The conversations of a day: what its file holds, row by row, if it is there.
pub fn history(
    date: &str,
    rows: Option<&Vec<Option<HistoryEvent>>>,
    seq_range: Option<(u64, u64)>,
) -> (r: String)
    ensures
        r@ == (match rows {
            None => remark(date@, " 无原始对话 history"@),
            Some(v) => if human_rows(v@, seq_range).len() == 0 {
                remark(date@, " 的 seq 范围内无事件"@)
            } else {
                ended(human_rows(v@, seq_range))
            },
        }),
{
    let v = match rows {
        None => {
            return write_remark(date, " 无原始对话 history");
        },
        Some(v) => v,
    };
    let mut out: Vec<String> = Vec::new();
    let mut i: usize = 0;
    proof {
        assert(v@.take(0) =~= Seq::empty());
        assert(texts(out@) =~= Seq::empty());
    }
    while i < v.len()
        invariant
            i <= v@.len(),
            texts(out@) == human_rows(v@.take(i as int), seq_range),
        decreases v@.len() - i,
    {
        proof {
            let x = v@.take(i + 1);
            assert(x.drop_last() =~= v@.take(i as int));
            assert(x.last() == v@[i as int]);
        }
        if let Some(e) = &v[i] {
            let wanted = match seq_range {
                Some((a, b)) => a <= e.seq && e.seq <= b,
                None => true,
            };
            if wanted {
                let ghost before = texts(out@);
                let h = humanize(e);
                out.push(h);
                assert(texts(out@) =~= before.push(h@));
            }
        }
        i = i + 1;
    }
    assert(v@.take(i as int) =~= v@);
    assert(texts(out@).len() == out@.len());
    if out.len() == 0 {
        return write_remark(date, " 的 seq 范围内无事件");
    }
    end_lines(&out)
}

// ---------------------------------------------------------------------------
// Search
// ---------------------------------------------------------------------------

/// What `str::to_lowercase` gives for a text.
pub uninterp spec fn lowered(s: Seq<char>) -> Seq<char>;

/// What the debug format gives for a text: the text in quotation marks, with what
/// cannot be shown as it stands written otherwise.
pub uninterp spec fn debug_text(s: Seq<char>) -> Seq<char>;

/// `str::to_lowercase`: the result is a function of the text alone.
#[verifier::external_body]
fn lower(s: &str) -> (r: String)
    ensures
        r@ == lowered(s@),
{
    s.to_lowercase()
}

/// The debug format of `str`: the result is a function of the text alone.
#[verifier::external_body]
fn debug_quote(s: &str) -> (r: String)
    ensures
        r@ == debug_text(s@),
{
    format!("{s:?}")
}

/// A member with a text that holds the words.
pub open spec fn member_matches(v: JsonView, key: Seq<char>, query: Seq<char>) -> bool {
    v.str_at(key) matches Some(s) && contains(lowered(s), query)
}

/// A member with a list in which some text holds the words.
pub open spec fn list_matches(v: JsonView, key: Seq<char>, query: Seq<char>) -> bool {
    v.array_at(key) matches Some(a) && exists|i: int|
        0 <= i < strings_of(a).len() && contains(lowered(#[trigger] strings_of(a)[i]), query)
}

/// A record in which what it is about holds the words.
pub open spec fn record_matches(v: JsonView, query: Seq<char>) -> bool {
    ||| member_matches(v, "title"@, query)
    ||| member_matches(v, "detail"@, query)
    ||| member_matches(v, "type"@, query)
    ||| member_matches(v, "evt"@, query)
    ||| list_matches(v, "keywords"@, query)
    ||| list_matches(v, "top_events"@, query)
    ||| list_matches(v, "key_outputs"@, query)
}

/// A line that is found: a record by what it is about, any other line, and a line
/// of a conversation, by its words. The words are in lower case.
pub open spec fn line_matches(
    line: Seq<char>,
    in_records: bool,
    in_conversation: bool,
    query: Seq<char>,
) -> bool {
    if in_records && starts_with(line, "{"@) {
        ||| (json_read(line) matches Reading::Value(v) && record_matches(v, query))
        ||| (in_conversation && contains(lowered(line), query))
    } else {
        contains(lowered(line), query)
    }
}

fn test_member(v: &Json, key: &str, query: &str) -> (r: bool)
    ensures
        r == member_matches(v@, key@, query@),
{
    match v.str_at(key) {
        Some(s) => has(lower(s).as_str(), query),
        None => false,
    }
}

fn test_list(v: &Json, key: &str, query: &str) -> (r: bool)
    ensures
        r == list_matches(v@, key@, query@),
{
    let a = match v.array_at(key) {
        Some(a) => strings_in(a),
        None => {
            return false;
        },
    };
    let ghost all = texts(a@);
    let mut i: usize = 0;
    while i < a.len()
        invariant
            all == texts(a@),
            v@.array_at(key@) is Some,
            all == strings_of(v@.array_at(key@)->0),
            i <= a@.len(),
            forall|k: int| 0 <= k < i ==> !contains(lowered(#[trigger] all[k]), query@),
        decreases a@.len() - i,
    {
        assert(all[i as int] == a@[i as int]@);
        if has(lower(a[i].as_str()).as_str(), query) {
            return true;
        }
        i = i + 1;
    }
    false
}

fn test_line(line: &str, in_records: bool, in_conversation: bool, query: &str) -> (r: bool)
    ensures
        r == line_matches(line@, in_records, in_conversation, query@),
{
    if in_records && begins(line, "{") {
        if in_conversation && has(lower(line).as_str(), query) {
            return true;
        }
        match parse_json(line) {
            Ok(v) => {
                test_member(&v, "title", query) || test_member(&v, "detail", query)
                    || test_member(&v, "type", query) || test_member(&v, "evt", query)
                    || test_list(&v, "keywords", query) || test_list(&v, "top_events", query)
                    || test_list(&v, "key_outputs", query)
            },
            Err(_) => false,
        }
    } else {
        has(lower(line).as_str(), query)
    }
}

/// The lines of a file that are found, each with the file's path and its number.
pub open spec fn line_hits(
    path: Seq<char>,
    v: Seq<Seq<char>>,
    in_records: bool,
    in_conversation: bool,
    query: Seq<char>,
) -> Seq<Seq<char>>
    decreases v.len(),
{
    if v.len() == 0 {
        Seq::empty()
    } else {
        let head = line_hits(path, v.drop_last(), in_records, in_conversation, query);
        if line_matches(v.last(), in_records, in_conversation, query) {
            head.push(path + ":"@ + dec(v.len()) + ": "@ + trim(v.last()))
        } else {
            head
        }
    }
}

/// The records of a month or a year, which repeat what those of the days say.
pub open spec fn is_summary(name: Seq<char>) -> bool {
    name_extension(name) == Some("jsonl"@) && (byte_len(name_stem(name)) == 4 || byte_len(
        name_stem(name),
    ) == 7)
}

/// What is found in a file.
pub open spec fn entry_hits(
    root: Seq<char>,
    e: EntryView,
    in_conversation: bool,
    query: Seq<char>,
) -> Seq<Seq<char>> {
    if e.is_dir || is_summary(e.name) {
        Seq::empty()
    } else {
        match e.text {
            Some(t) => line_hits(
                entry_path(root, e),
                lines(t),
                name_extension(e.name) == Some("jsonl"@),
                in_conversation,
                query,
            ),
            None => Seq::empty(),
        }
    }
}

/// What is found in a directory and below it.
pub open spec fn hits_below(
    root: Seq<char>,
    v: Seq<EntryView>,
    top: Seq<char>,
    in_conversation: bool,
    query: Seq<char>,
) -> Seq<Seq<char>>
    decreases v.len(),
{
    if v.len() == 0 {
        Seq::empty()
    } else {
        let head = hits_below(root, v.drop_last(), top, in_conversation, query);
        if is_under(v.last().dir, top) {
            head + entry_hits(root, v.last(), in_conversation, query)
        } else {
            head
        }
    }
}

/// What is found: in the memory and, where that is asked, in the conversations.
pub open spec fn hits(s: StoreView, query: Seq<char>, raw: bool) -> Seq<Seq<char>> {
    let q = lowered(query);
    let found = hits_below(s.root, s.entries, "memory"@, false, q);
    if raw {
        found + hits_below(s.root, s.entries, "history"@, true, q)
    } else {
        found
    }
}

fn find_lines(
    path: &str,
    text: &str,
    in_records: bool,
    in_conversation: bool,
    query: &str,
) -> (r: Vec<String>)
    ensures
        texts(r@) == line_hits(path@, lines(text@), in_records, in_conversation, query@),
{
    let v = lines_of(text);
    let ghost all = lines(text@);
    let mut out: Vec<String> = Vec::new();
    let mut i: usize = 0;
    proof {
        assert(all.take(0) =~= Seq::empty());
        assert(texts(out@) =~= Seq::empty());
    }
    while i < v.len()
        invariant
            all == texts(v@),
            i <= v@.len(),
            texts(out@) == line_hits(
                path@,
                all.take(i as int),
                in_records,
                in_conversation,
                query@,
            ),
        decreases v@.len() - i,
    {
        proof {
            let x = all.take(i + 1);
            assert(x.drop_last() =~= all.take(i as int));
            assert(x.last() == v@[i as int]@);
            assert(x.len() == i + 1);
        }
        if test_line(v[i].as_str(), in_records, in_conversation, query) {
            let mut s = path.to_owned();
            s.push_str(":");
            s.push_str(write_usize(i + 1).as_str());
            s.push_str(": ");
            s.push_str(trimmed(v[i].as_str()).as_str());
            let ghost before = texts(out@);
            out.push(s);
            assert(texts(out@) =~= before.push(s@));
        }
        i = i + 1;
    }
    assert(all.take(i as int) =~= all);
    out
}

fn find_below(store: &Store, top: &str, in_conversation: bool, query: &str) -> (r: Vec<String>)
    ensures
        texts(r@) == hits_below(
            store@.root,
            store@.entries,
            top@,
            in_conversation,
            query@,
        ),
{
    let ghost all = store@.entries;
    let mut out: Vec<String> = Vec::new();
    let mut i: usize = 0;
    proof {
        assert(all.take(0) =~= Seq::empty());
        assert(texts(out@) =~= Seq::empty());
    }
    while i < store.entries.len()
        invariant
            all == entry_views(store.entries@),
            i <= store.entries@.len(),
            texts(out@) == hits_below(
                store@.root,
                all.take(i as int),
                top@,
                in_conversation,
                query@,
            ),
        decreases store.entries@.len() - i,
    {
        let e = &store.entries[i];
        proof {
            let x = all.take(i + 1);
            assert(x.drop_last() =~= all.take(i as int));
            assert(x.last() == e@);
        }
        let ghost before = texts(out@);
        if under(e.dir.as_str(), top) {
            let in_records = name_has_extension(e.name.as_str(), "jsonl");
            let len: usize = stem_len(e.name.as_str());
            if !e.is_dir && !(in_records && (len == 4 || len == 7)) {
                if let Some(t) = &e.text {
                    let path = store.path(e);
                    let mut more = find_lines(
                        path.as_str(),
                        t.as_str(),
                        in_records,
                        in_conversation,
                        query,
                    );
                    let ghost added = texts(more@);
                    out.append(&mut more);
                    assert(texts(out@) =~= before + added);
                }
            }
            proof {
                if entry_hits(store@.root, e@, in_conversation, query@).len() == 0 {
                    assert(before + entry_hits(store@.root, e@, in_conversation, query@)
                        =~= before);
                }
            }
        }
        i = i + 1;
    }
    assert(all.take(i as int) =~= all);
    out
}

/// What a search gives.
pub open spec fn search_text(s: StoreView, query: Seq<char>, raw: bool) -> Seq<char> {
    if is_blank(query) {
        "（请提供搜索关键词）"@
    } else if hits(s, query, raw).len() == 0 {
        "（未找到 "@ + debug_text(query) + "）"@
    } else {
        join(hits(s, query, raw), "\n"@)
    }
}

/// Looks for words in the memory and, where that is asked, in the conversations.
pub fn search(store: &Store, query: &str, raw: bool) -> (r: String)
    ensures
        r@ == search_text(store@, query@, raw),
{
    if blank(query) {
        return "（请提供搜索关键词）".to_owned();
    }
    let q = lower(query);
    let mut found = find_below(store, "memory", false, q.as_str());
    if raw {
        let ghost before = texts(found@);
        let mut more = find_below(store, "history", true, q.as_str());
        let ghost added = texts(more@);
        found.append(&mut more);
        assert(texts(found@) =~= before + added);
    }
    assert(texts(found@).len() == found@.len());
    if found.len() == 0 {
        let mut s = "（未找到 ".to_owned();
        s.push_str(debug_quote(query).as_str());
        s.push_str("）");
        return s;
    }
    join_strs(&found, "\n")
}

/// A search that goes on to the conversations finds all that one without them does.
pub proof fn lemma_raw_finds_more(s: StoreView, query: Seq<char>)
    ensures
        hits(s, query, false).is_prefix_of(hits(s, query, true)),
{
}

/// A line of a conversation is found by every word in it.
pub proof fn lemma_conversation_found(line: Seq<char>, query: Seq<char>, in_records: bool)
    requires
        contains(lowered(line), query),
    ensures
        line_matches(line, in_records, true, query),
{
}

/// A line of a file as it is told when it is found.
pub open spec fn hit(path: Seq<char>, v: Seq<Seq<char>>, i: int) -> Seq<char> {
    path + ":"@ + dec((i + 1) as nat) + ": "@ + trim(v[i])
}

/// A line that matches is among those that are found in its file.
pub proof fn lemma_line_found(
    path: Seq<char>,
    v: Seq<Seq<char>>,
    in_records: bool,
    in_conversation: bool,
    query: Seq<char>,
    i: int,
)
    requires
        0 <= i < v.len(),
        line_matches(v[i], in_records, in_conversation, query),
    ensures
        line_hits(path, v, in_records, in_conversation, query).contains(hit(path, v, i)),
    decreases v.len(),
{
    let all = line_hits(path, v, in_records, in_conversation, query);
    let t = v.drop_last();
    let head = line_hits(path, t, in_records, in_conversation, query);
    let x = hit(path, v, i);
    if i == v.len() - 1 {
        assert(all == head.push(x));
        assert(all[head.len() as int] == x);
    } else {
        lemma_line_found(path, t, in_records, in_conversation, query, i);
        assert(hit(path, t, i) == x);
        let k = choose|k: int| 0 <= k < head.len() && head[k] == x;
        assert(all[k] == x);
    }
}

/// What is found in a file is found in the directories above it.
pub proof fn lemma_entry_found(
    root: Seq<char>,
    v: Seq<EntryView>,
    top: Seq<char>,
    in_conversation: bool,
    query: Seq<char>,
    k: int,
    x: Seq<char>,
)
    requires
        0 <= k < v.len(),
        is_under(v[k].dir, top),
        entry_hits(root, v[k], in_conversation, query).contains(x),
    ensures
        hits_below(root, v, top, in_conversation, query).contains(x),
    decreases v.len(),
{
    let all = hits_below(root, v, top, in_conversation, query);
    let t = v.drop_last();
    let head = hits_below(root, t, top, in_conversation, query);
    if k == v.len() - 1 {
        let own = entry_hits(root, v[k], in_conversation, query);
        let j = choose|j: int| 0 <= j < own.len() && own[j] == x;
        assert(all == head + own);
        assert(all[head.len() + j] == x);
    } else {
        lemma_entry_found(root, t, top, in_conversation, query, k, x);
        let j = choose|j: int| 0 <= j < head.len() && head[j] == x;
        assert(all[j] == x);
    }
}

/// What stands in a conversation and nowhere in the memory is found by a search that
/// goes on to the conversations, with its file and line, and not by one without them.
pub proof fn lemma_only_raw_finds(s: StoreView, query: Seq<char>, k: int, i: int)
    requires
        !is_blank(query),
        hits(s, query, false).len() == 0,
        0 <= k < s.entries.len(),
        is_under(s.entries[k].dir, "history"@),
        !s.entries[k].is_dir,
        !is_summary(s.entries[k].name),
        s.entries[k].text is Some,
        0 <= i < lines(s.entries[k].text->0).len(),
        contains(lowered(lines(s.entries[k].text->0)[i]), lowered(query)),
    ensures
        search_text(s, query, false) == "（未找到 "@ + debug_text(query) + "）"@,
        hits(s, query, true).contains(
            hit(entry_path(s.root, s.entries[k]), lines(s.entries[k].text->0), i),
        ),
        search_text(s, query, true) == join(hits(s, query, true), "\n"@),
{
    let e = s.entries[k];
    let q = lowered(query);
    let path = entry_path(s.root, e);
    let v = lines(e.text->0);
    let in_records = name_extension(e.name) == Some("jsonl"@);
    lemma_conversation_found(v[i], q, in_records);
    lemma_line_found(path, v, in_records, true, q, i);
    let x = hit(path, v, i);
    lemma_entry_found(s.root, s.entries, "history"@, true, q, k, x);
    let plain = hits(s, query, false);
    let more = hits_below(s.root, s.entries, "history"@, true, q);
    let j = choose|j: int| 0 <= j < more.len() && more[j] == x;
    assert(hits(s, query, true)[plain.len() + j] == x);
}

// ---------------------------------------------------------------------------
// The overview
// ---------------------------------------------------------------------------

/// The month before a month.
pub open spec fn month_before(y: int, m: nat) -> (int, nat) {
    if m <= 1 {
        (y - 1, 12)
    } else {
        (y, (m - 1) as nat)
    }
}

/// A month as it is named in the overview.
pub open spec fn month_of(y: int, m: nat) -> Seq<char> {
    month_name(dec_int(y), padded(m, 2))
}

/// The records of a file, none when it is not there.
pub open spec fn file_records(
    v: Seq<EntryView>,
    dir: Seq<char>,
    name: Seq<char>,
) -> Seq<JsonView> {
    match text_of(v, dir, name) {
        Some(t) => records(t, false),
        None => Seq::empty(),
    }
}

/// The records of a month.
pub open spec fn month_records(v: Seq<EntryView>, y: int, m: nat) -> Seq<JsonView> {
    file_records(
        v,
        sub_dir(sub_dir("memory"@, dec_int(y)), padded(m, 2)),
        month_of(y, m) + ".jsonl"@,
    )
}

/// A period in the overview: what heads it, then its parts, the latest first; a
/// remark where there is neither.
pub open spec fn period_overview(
    head: Card,
    line: Card,
    rows: Seq<JsonView>,
    nothing: Seq<char>,
) -> Seq<char> {
    let out = join(cards(head, rows), ""@) + ended(sorted(cards(line, rows)).reverse());
    if out.len() == 0 {
        nothing
    } else {
        out
    }
}

/// A month in the overview.
pub open spec fn month_overview(rows: Seq<JsonView>) -> Seq<char> {
    period_overview(Card::MonthHead, Card::DayLine, rows, "（无月层数据）\n"@)
}

/// A year in the overview.
pub open spec fn year_overview(rows: Seq<JsonView>) -> Seq<char> {
    period_overview(Card::YearHead, Card::MonthLine, rows, "（无年层数据）\n"@)
}

/// The events of today.
pub open spec fn today_records(v: Seq<EntryView>, today: Seq<char>) -> Seq<JsonView> {
    let (y, m) = year_month_of(today);
    file_records(v, sub_dir(sub_dir("memory"@, dec_int(y)), padded(m, 2)), today + ".jsonl"@)
}

/// The overview: today, this month and the last, this year.
pub open spec fn overview(v: Seq<EntryView>, today: Seq<char>) -> Seq<char> {
    let (y, m) = year_month_of(today);
    let (py, pm) = month_before(y, m);
    let days = sorted(cards(Card::EventLine, today_records(v, today))).reverse();
    "# 记忆（MEMORY.md）\n由 dream 维护，pack 从三层 jsonl 重拼。三层总览：日 / 月 / 年。\n\n"@
        + "## 日\n"@ + (if days.len() == 0 {
        "（"@ + today + " 无当天记忆，先 mem dream day）\n"@
    } else {
        ended(days)
    }) + "\n"@ + "## 月\n"@ + "### 当月 "@ + month_of(y, m) + "\n"@ + month_overview(
        month_records(v, y, m),
    ) + "### 上月 "@ + month_of(py, pm) + "\n"@ + month_overview(month_records(v, py, pm)) + "\n"@
        + "## 年\n"@ + year_overview(
        file_records(v, sub_dir("memory"@, dec_int(y)), dec_int(y) + ".jsonl"@),
    )
}

/// What is told about an overview.
pub open spec fn overview_note(s: StoreView, today: Seq<char>) -> Seq<char> {
    let (y, m) = year_month_of(today);
    let (py, pm) = month_before(y, m);
    "pack → "@ + joined(s.root, "MEMORY.md"@) + "（日 "@ + dec(
        cards(Card::EventLine, today_records(s.entries, today)).len(),
    ) + " 事件 / 当月 "@ + month_of(y, m) + " / 上月 "@ + month_of(py, pm) + " / 年 "@ + dec_int(y)
        + "）"@
}

fn read_rows(store: &Store, dir: &str, name: &str) -> (r: Vec<Json>)
    ensures
        jsons(r@) == file_records(store@.entries, dir@, name@),
{
    match store.text(dir, name) {
        Some(t) => read_records(t, false),
        None => {
            let v: Vec<Json> = Vec::new();
            assert(jsons(v@) =~= Seq::empty());
            v
        },
    }
}

fn write_overview(head: Card, line: Card, rows: &Vec<Json>, nothing: &str) -> (r: String)
    ensures
        r@ == period_overview(head, line, jsons(rows@), nothing@),
{
    let heads = make_cards(head, rows);
    let parts = sort_strs_down(make_cards(line, rows));
    let mut s = join_strs(&heads, "");
    s.push_str(end_lines(&parts).as_str());
    if s.as_str().unicode_len() == 0 {
        nothing.to_owned()
    } else {
        s
    }
}

/// The overview of the memory as it is on a day, and what is told about it.
fn pack_on(store: &Store, today: &str) -> (r: (String, String))
    ensures
        r.0@ == overview_note(store@, today@),
        r.1@ == overview(store@.entries, today@),
{
    let (year, month) = year_month(today);
    let (py, pm): (i64, u32) = if month <= 1 {
        (year as i64 - 1, 12)
    } else {
        (year as i64, month - 1)
    };
    let ys = write_i64(year as i64);
    let ms = write_padded(month as u64, 2);
    let pys = write_i64(py);
    let pms = write_padded(pm as u64, 2);
    let ym = write_month_name(ys.as_str(), ms.as_str());
    let pym = write_month_name(pys.as_str(), pms.as_str());
    let ydir = below_dir("memory", ys.as_str());
    let mdir = below_dir(ydir.as_str(), ms.as_str());
    let pdir = below_dir(below_dir("memory", pys.as_str()).as_str(), pms.as_str());
    let day_rows = read_rows(store, mdir.as_str(), concat(today, ".jsonl").as_str());
    let cur_rows = read_rows(store, mdir.as_str(), concat(ym.as_str(), ".jsonl").as_str());
    let prev_rows = read_rows(store, pdir.as_str(), concat(pym.as_str(), ".jsonl").as_str());
    let year_rows = read_rows(store, ydir.as_str(), concat(ys.as_str(), ".jsonl").as_str());
    let day_cards = make_cards(Card::EventLine, &day_rows);
    let n: usize = day_cards.len();
    let ghost made = texts(day_cards@);
    let days = sort_strs_down(day_cards);
    proof {
        crate::lines::lemma_sorted(made);
        made.to_multiset_ensures();
        sorted(made).to_multiset_ensures();
        assert(made.len() == n);
        assert(texts(days@).len() == made.len());
    }
    let mut out =
        "# 记忆（MEMORY.md）\n由 dream 维护，pack 从三层 jsonl 重拼。三层总览：日 / 月 / 年。\n\n".to_owned();
    out.push_str("## 日\n");
    let day_part = if days.len() == 0 {
        let mut s = "（".to_owned();
        s.push_str(today);
        s.push_str(" 无当天记忆，先 mem dream day）\n");
        s
    } else {
        end_lines(&days)
    };
    out.push_str(day_part.as_str());
    out.push_str("\n");
    out.push_str("## 月\n");
    out.push_str("### 当月 ");
    out.push_str(ym.as_str());
    out.push_str("\n");
    out.push_str(
        write_overview(Card::MonthHead, Card::DayLine, &cur_rows, "（无月层数据）\n").as_str(),
    );
    out.push_str("### 上月 ");
    out.push_str(pym.as_str());
    out.push_str("\n");
    out.push_str(
        write_overview(Card::MonthHead, Card::DayLine, &prev_rows, "（无月层数据）\n").as_str(),
    );
    out.push_str("\n");
    out.push_str("## 年\n");
    out.push_str(
        write_overview(Card::YearHead, Card::MonthLine, &year_rows, "（无年层数据）\n").as_str(),
    );
    let mut note = "pack → ".to_owned();
    note.push_str(join_path(store.root.as_str(), "MEMORY.md").as_str());
    note.push_str("（日 ");
    note.push_str(write_usize(n).as_str());
    note.push_str(" 事件 / 当月 ");
    note.push_str(ym.as_str());
    note.push_str(" / 上月 ");
    note.push_str(pym.as_str());
    note.push_str(" / 年 ");
    note.push_str(ys.as_str());
    note.push_str("）");
    (note, out)
}

/// The overview of the memory at a time, in milliseconds since 1970 and with an
/// offset in seconds: what is told about it, and what the file of the overview is
/// to hold.
pub fn pack(store: &Store, now: u64, offset_secs: i64) -> (r: (String, String))
    requires
        offset_fits(now, offset_secs),
    ensures
        r.0@ == overview_note(store@, date_of(shifted(now, offset_secs))),
        r.1@ == overview(store@.entries, date_of(shifted(now, offset_secs))),
{
    let today = date_from_ts_local(now, offset_secs);
    pack_on(store, today.as_str())
}

/// In the overview the parts of a period stand with the latest first, whatever the
/// order of the records.
pub proof fn lemma_latest_first(v: Seq<Seq<char>>, w: Seq<Seq<char>>)
    requires
        v.to_multiset() == w.to_multiset(),
    ensures
        sorted(v).reverse() == sorted(w).reverse(),
        forall|i: int, j: int|
            0 <= i < j < v.len() ==> !crate::lines::lex_lt(
                #[trigger] sorted(v).reverse()[i],
                #[trigger] sorted(v).reverse()[j],
            ),
{
    crate::lines::lemma_sorted_order_free(v, w);
    crate::lines::lemma_sorted(v);
    v.to_multiset_ensures();
    sorted(v).to_multiset_ensures();
    let s = sorted(v);
    assert(s.len() == v.len());
    assert forall|i: int, j: int| 0 <= i < j < v.len() implies !crate::lines::lex_lt(
        #[trigger] s.reverse()[i],
        #[trigger] s.reverse()[j],
    ) by {
        assert(s.reverse()[i] == s[s.len() - 1 - i]);
        assert(s.reverse()[j] == s[s.len() - 1 - j]);
    }
}

} // verus!
