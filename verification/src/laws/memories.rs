//! What the memory gives back: everything that was put into it can be listed, read and
//! found again, where it stands and as it was put.
use super::{
    holds, lemma_contains_head, lemma_contains_tail, lemma_within, list_in, says, text_in,
};
use crate::agent::year_month_of;
use crate::cards::{card, cards, ended, records, records_on, Card};
use crate::cut::byte_len;
use crate::decimal::{
    all_digits, dec, dec_int, digits_value, is_digit, padded, parse_signed, parse_unsigned,
};
use crate::history::{EventView, HistoryEvent};
use crate::json::{strings_of, JsonView};
use crate::lines::{join, lemma_sorted, lines, sorted, split};
use crate::mem::{
    flags_in, has_month, has_records, is_index_date, is_read_date, is_there, month_missing,
    month_named, months_missing, place_given, plan_for, range_given, range_of, read_text, request,
    year_missing, year_named, years_missing, PlanView, RequestView,
};
use crate::mem_cli::{
    dashed_day, day_index, digits, hit, hits, hits_below, human, human_rows, index_text,
    lemma_entry_found, lemma_line_found, line_hits, lowered, month_index, overview, period_text,
    search_text, today_records, years,
};
use crate::notes::{segment_line, segment_lines, segments};
use crate::paths::{name_extension, name_stem};
use crate::store::{dirs_in, entry_path, sub_dir, text_of, EntryView, StoreView};
use crate::text::{contains, is_blank, occurs_at, starts_with, trim};
use crate::wire::{json_read, Reading};
use vstd::prelude::*;

verus! {

// ---------------------------------------------------------------------------
// Texts in texts
// ---------------------------------------------------------------------------

proof fn lemma_join_holds(v: Seq<Seq<char>>, sep: Seq<char>, k: int)
    requires
        0 <= k < v.len(),
    ensures
        contains(join(v, sep), v[k]),
    decreases v.len(),
{
    let e = Seq::<char>::empty();
    if v.len() == 1 {
        lemma_within(e, v[0], e);
        assert(e + v[0] + e =~= v[0]);
    } else {
        let t = v.drop_last();
        if k < t.len() {
            lemma_join_holds(t, sep, k);
            assert(t[k] == v[k]);
            lemma_contains_head(join(t, sep), sep, v[k]);
            lemma_contains_head(join(t, sep) + sep, v.last(), v[k]);
        } else {
            lemma_within(e, v[k], e);
            assert(e + v[k] + e =~= v[k]);
            lemma_contains_tail(join(t, sep) + sep, v.last(), v[k]);
        }
    }
}

proof fn lemma_ended_holds(v: Seq<Seq<char>>, k: int)
    requires
        0 <= k < v.len(),
    ensures
        contains(ended(v), v[k]),
    decreases v.len(),
{
    let t = v.drop_last();
    if k < t.len() {
        lemma_ended_holds(t, k);
        assert(t[k] == v[k]);
        lemma_contains_head(ended(t), v.last(), v[k]);
        lemma_contains_head(ended(t) + v.last(), "\n"@, v[k]);
    } else {
        lemma_within(ended(t), v[k], "\n"@);
    }
}

proof fn lemma_cards_hold(kind: Card, v: Seq<JsonView>, i: int) -> (k: int)
    requires
        0 <= i < v.len(),
        card(kind, v[i]) is Some,
    ensures
        0 <= k < cards(kind, v).len(),
        cards(kind, v)[k] == card(kind, v[i])->0,
    decreases v.len(),
{
    let t = v.drop_last();
    let all = cards(kind, v);
    if i < t.len() {
        assert(t[i] == v[i]);
        let k = lemma_cards_hold(kind, t, i);
        assert(all[k] == cards(kind, t)[k]);
        k
    } else {
        all.len() - 1
    }
}

proof fn lemma_latest_first(v: Seq<Seq<char>>, k: int) -> (j: int)
    requires
        0 <= k < v.len(),
    ensures
        0 <= j < sorted(v).reverse().len(),
        sorted(v).reverse()[j] == v[k],
{
    broadcast use vstd::seq_lib::group_to_multiset_ensures;

    crate::lines::lemma_sorted(v);
    assert(v.contains(v[k]));
    assert(v.to_multiset().count(v[k]) > 0);
    assert(sorted(v).contains(v[k]));
    let i: int = choose|i: int| 0 <= i < sorted(v).len() && sorted(v)[i] == v[k];
    let j = sorted(v).len() - 1 - i;
    assert(sorted(v).reverse()[j] == sorted(v)[i]);
    j
}

// ---------------------------------------------------------------------------
// Files and records
// ---------------------------------------------------------------------------

/// A file is found by its directory and its name; the first of that name counts.
pub proof fn lemma_file_found(v: Seq<EntryView>, i: int)
    requires
        0 <= i < v.len(),
        !v[i].is_dir,
        forall|k: int|
            0 <= k < i ==> !(!(#[trigger] v[k]).is_dir && v[k].dir == v[i].dir && v[k].name
                == v[i].name),
    ensures
        text_of(v, v[i].dir, v[i].name) == v[i].text,
    decreases v.len(),
{
    if i > 0 {
        let t = v.skip(1);
        assert(!(!v[0].is_dir && v[0].dir == v[i].dir && v[0].name == v[i].name));
        assert(t[i - 1] == v[i]);
        assert forall|k: int| 0 <= k < i - 1 implies !(!(#[trigger] t[k]).is_dir && t[k].dir
            == t[i - 1].dir && t[k].name == t[i - 1].name) by {
            assert(t[k] == v[k + 1]);
        }
        lemma_file_found(t, i - 1);
    }
}

/// The directories in a directory are those that stand in it, and no others.
pub proof fn lemma_directories(v: Seq<EntryView>, dir: Seq<char>, name: Seq<char>)
    ensures
        dirs_in(v, dir).contains(name) <==> exists|i: int|
            0 <= i < v.len() && (#[trigger] v[i]).is_dir && v[i].dir == dir && v[i].name == name,
    decreases v.len(),
{
    let all = dirs_in(v, dir);
    if v.len() > 0 {
        let t = v.drop_last();
        let head = dirs_in(t, dir);
        lemma_directories(t, dir, name);
        if all.contains(name) {
            let k: int = choose|k: int| 0 <= k < all.len() && all[k] == name;
            if k < head.len() {
                assert(head[k] == name);
                let i: int = choose|i: int|
                    0 <= i < t.len() && (#[trigger] t[i]).is_dir && t[i].dir == dir && t[i].name
                        == name;
                assert(v[i] == t[i]);
            } else {
                assert(v[v.len() - 1].name == name);
            }
        }
        if exists|i: int|
            0 <= i < v.len() && (#[trigger] v[i]).is_dir && v[i].dir == dir && v[i].name == name {
            let i: int = choose|i: int|
                0 <= i < v.len() && (#[trigger] v[i]).is_dir && v[i].dir == dir && v[i].name
                    == name;
            if i < t.len() {
                assert(t[i] == v[i]);
                let k: int = choose|k: int| 0 <= k < head.len() && head[k] == name;
                assert(all[k] == name);
            } else {
                assert(all[all.len() - 1] == name);
            }
        }
    }
}

/// A line that holds an object is a record of its text.
pub proof fn lemma_record_read(text: Seq<char>, any: bool, i: int, r: JsonView)
    requires
        0 <= i < lines(text).len(),
        any || starts_with(trim(lines(text)[i]), "{"@),
        json_read(trim(lines(text)[i])) == Reading::Value(r),
    ensures
        records(text, any).contains(r),
{
    lemma_record_on(lines(text), any, i, r);
}

proof fn lemma_record_on(v: Seq<Seq<char>>, any: bool, i: int, r: JsonView)
    requires
        0 <= i < v.len(),
        any || starts_with(trim(v[i]), "{"@),
        json_read(trim(v[i])) == Reading::Value(r),
    ensures
        records_on(v, any).contains(r),
    decreases v.len(),
{
    let all = records_on(v, any);
    let t = v.drop_last();
    if i < t.len() {
        assert(t[i] == v[i]);
        lemma_record_on(t, any, i, r);
        let head = records_on(t, any);
        let k: int = choose|k: int| 0 <= k < head.len() && head[k] == r;
        assert(all[k] == r);
    } else {
        assert(all[all.len() - 1] == r);
    }
}

// ---------------------------------------------------------------------------
// Cards
// ---------------------------------------------------------------------------

/// A record with a text under a name; nothing there counts as an empty text.
pub open spec fn tells(v: JsonView, key: Seq<char>, text: Seq<char>) -> bool {
    match text_in(v, key) {
        Some(s) => s == text,
        None => text.len() == 0,
    }
}

/// How an event is shown: in an index with its time, its kind, its title and where it
/// was said; in full with everything that is known of it; in the overview on a line.
pub proof fn lemma_event_cards(
    v: JsonView,
    hhmm: Seq<char>,
    evt: Seq<char>,
    kind: Seq<char>,
    title: Seq<char>,
    detail: Seq<char>,
    subject: Seq<char>,
    refs: Seq<char>,
    a: u64,
    b: u64,
)
    requires
        tells(v, "hhmm"@, hhmm),
        tells(v, "evt"@, evt),
        tells(v, "type"@, kind),
        tells(v, "title"@, title),
        tells(v, "detail"@, detail),
        tells(v, "subject"@, subject),
        tells(v, "ref"@, refs),
        holds(v, "seq"@, JsonView::Arr(seq![JsonView::Uint(a), JsonView::Uint(b)])),
    ensures
        card(Card::EventIndex, v) == Some(
            "- "@ + hhmm + " ["@ + kind + "] "@ + title + " — seq["@ + (dec(a as nat) + ".."@ + dec(
                b as nat,
            )) + "]\n"@,
        ),
        card(Card::EventText, v) == Some(
            "## "@ + hhmm + " "@ + evt + " ["@ + kind + "] "@ + title + "\n详情: "@ + detail
                + "\n关键词: "@ + join(strings_of(list_in(v, "keywords"@)), "·"@) + "\n主语: "@
                + subject + "\n对话索引: "@ + refs + "\n\n"@,
        ),
        hhmm.len() > 0 && detail.len() > 0 ==> card(Card::EventLine, v) == Some(
            "- "@ + hhmm + " "@ + evt + " ["@ + kind + "] "@ + title + "\n  "@ + detail,
        ),
        hhmm.len() > 0 && detail.len() == 0 ==> card(Card::EventLine, v) == Some(
            "- "@ + hhmm + " "@ + evt + " ["@ + kind + "] "@ + title,
        ),
        hhmm.len() == 0 && evt.len() == 0 ==> card(Card::EventLine, v) is None,
{
    lemma_tells(v, "hhmm"@, hhmm);
    lemma_tells(v, "evt"@, evt);
    lemma_tells(v, "type"@, kind);
    lemma_tells(v, "title"@, title);
    lemma_tells(v, "detail"@, detail);
    lemma_tells(v, "subject"@, subject);
    lemma_tells(v, "ref"@, refs);
    let s = seq![JsonView::Uint(a), JsonView::Uint(b)];
    assert(s[0] == JsonView::Uint(a) && s[1] == JsonView::Uint(b));
    if list_in(v, "keywords"@).len() == 0 {
        assert(strings_of(list_in(v, "keywords"@)) =~= Seq::empty());
    }
}

proof fn lemma_tells(v: JsonView, key: Seq<char>, text: Seq<char>)
    requires
        tells(v, key, text),
    ensures
        v.text_at(key) == text,
{
    if text_in(v, key) is None {
        assert(text =~= Seq::<char>::empty());
    }
}

proof fn lemma_record_types()
    ensures
        "day"@.len() == 3 && "month"@.len() == 5 && "mainline"@.len() == 8
            && "year_mainline"@.len() == 13,
{
    reveal_strlit("day");
    reveal_strlit("month");
    reveal_strlit("mainline");
    reveal_strlit("year_mainline");
}

proof fn lemma_begins(a: Seq<char>, b: Seq<char>, c: Seq<char>)
    requires
        a.is_prefix_of(b),
    ensures
        a.is_prefix_of(b + c),
{
    assert(a =~= (b + c).subrange(0, a.len() as int));
}

/// How a day is shown in its month: with its date, how many events it had and what it
/// was about, and in full with where to read on; anything else is no day.
pub proof fn lemma_day_cards(
    v: JsonView,
    date: Seq<char>,
    n: u64,
    title: Seq<char>,
    drill: Seq<char>,
)
    ensures
        says(v, "type"@, "day"@) && tells(v, "date"@, date) && holds(
            v,
            "event_count"@,
            JsonView::Uint(n),
        ) && tells(v, "day_title"@, title) && tells(v, "drill"@, drill) ==> {
            let line = "- "@ + date + " ["@ + dec(n as nat) + "事件] "@ + title;
            let full = "## "@ + date + " ["@ + dec(n as nat) + "事件] "@ + title;
            &&& card(Card::DayIndex, v) == Some(line + "\n"@)
            &&& card(Card::MonthText, v) matches Some(c) && full.is_prefix_of(c) && contains(
                c,
                drill,
            )
            &&& card(Card::DayLine, v) matches Some(c) && line.is_prefix_of(c)
            &&& list_in(v, "top_events"@).len() == 0 ==> card(Card::DayLine, v) == Some(line)
        },
        !says(v, "type"@, "day"@) ==> card(Card::DayIndex, v) is None && card(Card::DayLine, v)
            is None,
{
    lemma_record_types();
    assert(says(v, "type"@, "day"@) == (v.str_at("type"@) == Some("day"@)));
    if says(v, "type"@, "day"@) && tells(v, "date"@, date) && holds(
        v,
        "event_count"@,
        JsonView::Uint(n),
    ) && tells(v, "day_title"@, title) && tells(v, "drill"@, drill) {
        lemma_tells(v, "date"@, date);
        lemma_tells(v, "day_title"@, title);
        lemma_tells(v, "drill"@, drill);
        let line = "- "@ + date + " ["@ + dec(n as nat) + "事件] "@ + title;
        let full = "## "@ + date + " ["@ + dec(n as nat) + "事件] "@ + title;
        let words = crate::cards::listed(v, "keywords"@, "·"@);
        let tops = match v.array_at("top_events"@) {
            Some(a) => strings_of(a),
            None => Seq::empty(),
        };
        lemma_day_shown(line, full, words, drill, tops);
        if list_in(v, "top_events"@).len() == 0 {
            assert(tops =~= Seq::empty());
        }
    }
}

proof fn lemma_day_shown(
    line: Seq<char>,
    full: Seq<char>,
    words: Seq<char>,
    drill: Seq<char>,
    tops: Seq<Seq<char>>,
)
    ensures
        ({
            let c = full + "\n关键词: "@ + words + "\n→ "@ + drill + "\n\n"@;
            let d = line + crate::cards::points(tops);
            &&& full.is_prefix_of(c) && contains(c, drill)
            &&& line.is_prefix_of(d)
            &&& tops.len() == 0 ==> d == line
        }),
{
    let a = full + "\n关键词: "@;
    let b = a + words;
    let c = b + "\n→ "@;
    assert(full =~= full.subrange(0, full.len() as int));
    lemma_begins(full, full, "\n关键词: "@);
    lemma_begins(full, a, words);
    lemma_begins(full, b, "\n→ "@);
    lemma_begins(full, c, drill);
    lemma_begins(full, c + drill, "\n\n"@);
    lemma_within(c, drill, "\n\n"@);
    assert(line =~= line.subrange(0, line.len() as int));
    lemma_begins(line, line, crate::cards::points(tops));
    if tops.len() == 0 {
        assert(line + crate::cards::points(tops) =~= line);
    }
}

/// How a month is shown in its year: with its title, and in full with where to read on;
/// anything else is no month.
pub proof fn lemma_month_cards(v: JsonView, month: Seq<char>, title: Seq<char>, drill: Seq<char>)
    ensures
        says(v, "type"@, "month"@) && tells(v, "month"@, month) && tells(v, "month_title"@, title)
            && tells(v, "drill"@, drill) ==> {
            &&& card(Card::MonthLine, v) == Some("- "@ + month + " "@ + title)
            &&& card(Card::YearText, v) == Some(
                "## "@ + month + " "@ + title + "\n→ "@ + drill + "\n"@,
            )
        },
        !says(v, "type"@, "month"@) ==> card(Card::MonthLine, v) is None,
{
    lemma_record_types();
    assert(says(v, "type"@, "month"@) == (v.str_at("type"@) == Some("month"@)));
    if says(v, "type"@, "month"@) && tells(v, "month"@, month) && tells(v, "month_title"@, title)
        && tells(v, "drill"@, drill) {
        lemma_tells(v, "month"@, month);
        lemma_tells(v, "month_title"@, title);
        lemma_tells(v, "drill"@, drill);
    }
}

/// The main lines of a month and of a year are shown with their text.
pub proof fn lemma_mainline_cards(v: JsonView, text: Seq<char>)
    ensures
        says(v, "type"@, "mainline"@) && tells(v, "mainline"@, text) ==> {
            &&& card(Card::MonthHead, v) matches Some(c) && contains(c, text)
            &&& card(Card::MonthText, v) matches Some(c) && contains(c, text)
        },
        says(v, "type"@, "year_mainline"@) && tells(v, "year_mainline"@, text) ==> {
            &&& card(Card::YearHead, v) == Some("年度主线: "@ + text + "\n"@)
            &&& card(Card::YearText, v) matches Some(c) && contains(c, text)
        },
{
    lemma_record_types();
    let words = crate::cards::listed(v, "keywords"@, "·"@);
    let behind = "\n关键词: "@ + words + "\n"@;
    if says(v, "type"@, "mainline"@) && tells(v, "mainline"@, text) {
        lemma_tells(v, "mainline"@, text);
        let outs = crate::cards::listed(v, "key_outputs"@, " / "@);
        let both = "\n关键产出: "@ + outs + "\n关键词: "@ + words + "\n"@;
        assert(contains(crate::cards::month_head(v), text)) by {
            let c = crate::cards::month_head(v);
            if outs.len() == 0 {
                lemma_within("月度主线: "@, text, behind);
                assert("月度主线: "@ + text + behind =~= c);
            } else {
                lemma_within("月度主线: "@, text, both);
                assert("月度主线: "@ + text + both =~= c);
            }
        }
        assert(contains(crate::cards::month_main(v), text)) by {
            let m = crate::cards::month_main(v);
            lemma_within("## 月度主线\n"@, text, both);
            assert("## 月度主线\n"@ + text + both =~= m);
        }
    }
    if says(v, "type"@, "year_mainline"@) && tells(v, "year_mainline"@, text) {
        lemma_tells(v, "year_mainline"@, text);
        assert(contains(card(Card::YearText, v)->0, text)) by {
            let c = card(Card::YearText, v)->0;
            lemma_within("## 年度主线\n"@, text, behind);
            assert("## 年度主线\n"@ + text + behind =~= c);
        }
    }
}

// ---------------------------------------------------------------------------
// Reading and listing
// ---------------------------------------------------------------------------

/// What is read of a period holds every record that it has, in the form of its kind; the
/// notes where it has no records; and the remark where it has neither.
pub proof fn lemma_period_read(
    kind: Card,
    text: Option<Seq<char>>,
    notes: Option<Seq<char>>,
    nothing: Seq<char>,
    i: int,
)
    ensures
        text matches Some(t) ==> !is_blank(t) && 0 <= i < records(t, false).len() && card(
            kind,
            records(t, false)[i],
        ) is Some ==> contains(
            period_text(kind, text, notes, nothing),
            card(kind, records(t, false)[i])->0,
        ) || (card(kind, records(t, false)[i])->0).len() == 0,
        (text is None || is_blank(text->0)) && notes is Some && !is_blank(notes->0)
            ==> period_text(kind, text, notes, nothing) == notes->0,
        (text is None || is_blank(text->0)) && (notes is None || is_blank(notes->0))
            ==> period_text(kind, text, notes, nothing) == nothing,
{
    assert(is_blank(Seq::<char>::empty()));
    if let Some(t) = text {
        if !is_blank(t) && 0 <= i < records(t, false).len() && card(kind, records(t, false)[i])
            is Some {
            let v = cards(kind, records(t, false));
            let k = lemma_cards_hold(kind, records(t, false), i);
            lemma_join_holds(v, ""@, k);
            let out = join(v, ""@);
            let c = card(kind, records(t, false)[i])->0;
            if out.len() == 0 {
                let p: int = choose|p: int| occurs_at(out, c, p);
                assert(c.len() == 0);
            }
        }
    }
}

/// The index of a day lists every event of the day's records, each with its card.
pub proof fn lemma_day_listed(
    s: StoreView,
    y: Seq<char>,
    m: Seq<char>,
    d: Seq<char>,
    text: Seq<char>,
    i: int,
)
    requires
        text_of(
            s.entries,
            "memory"@ + "/"@ + y + "/"@ + m,
            y + "-"@ + m + "-"@ + d + ".jsonl"@,
        ) == Some(text),
        !is_blank(text),
        0 <= i < records(text, false).len(),
    ensures
        card(Card::EventIndex, records(text, false)[i]) matches Some(c) && contains(
            day_index(s, y, m, d),
            c,
        ),
{
    let rows = records(text, false);
    let v = cards(Card::EventIndex, rows);
    let k = lemma_cards_hold(Card::EventIndex, rows, i);
    lemma_join_holds(v, ""@, k);
    let date = y + "-"@ + m + "-"@ + d;
    lemma_contains_tail(
        crate::mem_cli::title_line(date, "（事件索引）"@),
        join(v, ""@),
        v[k],
    );
}

/// The index of a day that has notes and no records lists every event of the notes.
pub proof fn lemma_day_notes_listed(
    s: StoreView,
    y: Seq<char>,
    m: Seq<char>,
    d: Seq<char>,
    notes: Seq<char>,
    i: int,
)
    requires
        text_of(
            s.entries,
            "memory"@ + "/"@ + y + "/"@ + m,
            y + "-"@ + m + "-"@ + d + ".jsonl"@,
        ) is None,
        text_of(
            s.entries,
            "memory"@ + "/"@ + y + "/"@ + m,
            y + "-"@ + m + "-"@ + d + ".md"@,
        ) == Some(notes),
        !is_blank(notes),
        0 <= i < segments(notes).len(),
    ensures
        contains(
            day_index(s, y, m, d),
            segment_line(y + "-"@ + m + "-"@ + d, segments(notes)[i]),
        ),
{
    let date = y + "-"@ + m + "-"@ + d;
    let v = segment_lines(date, segments(notes));
    assert(is_blank(Seq::<char>::empty()));
    lemma_ended_holds(v, i);
    lemma_contains_tail(
        crate::mem_cli::title_line(date, "（事件段索引）"@),
        ended(v),
        v[i],
    );
}

/// The index of a month lists every day of the month's records.
pub proof fn lemma_month_listed(
    s: StoreView,
    y: Seq<char>,
    m: Seq<char>,
    text: Seq<char>,
    i: int,
)
    requires
        text_of(s.entries, "memory"@ + "/"@ + y + "/"@ + m, y + "-"@ + m + ".jsonl"@) == Some(
            text,
        ),
        !is_blank(text),
        0 <= i < records(text, false).len(),
        says(records(text, false)[i], "type"@, "day"@),
    ensures
        card(Card::DayIndex, records(text, false)[i]) matches Some(c) && contains(
            month_index(s, y, m),
            c,
        ),
{
    let rows = records(text, false);
    let v = cards(Card::DayIndex, rows);
    let k = lemma_cards_hold(Card::DayIndex, rows, i);
    lemma_join_holds(v, ""@, k);
    lemma_contains_tail(
        crate::mem_cli::title_line(y + "-"@ + m, "（各天）"@),
        join(v, ""@),
        v[k],
    );
}

/// Without a date the years are listed: every directory of the memory whose name is in
/// digits.
pub proof fn lemma_years_listed(s: StoreView, i: int)
    requires
        0 <= i < s.entries.len(),
        s.entries[i].is_dir,
        s.entries[i].dir == "memory"@,
        crate::decimal::all_digits(s.entries[i].name),
    ensures
        contains(index_text(s, None), s.entries[i].name),
{
    broadcast use vstd::seq_lib::group_to_multiset_ensures;

    let name = s.entries[i].name;
    let v = dirs_in(s.entries, "memory"@);
    lemma_directories(s.entries, "memory"@, name);
    crate::lines::lemma_sorted(v);
    assert(v.to_multiset().count(name) > 0);
    assert(sorted(v).contains(name));
    let p = |n: Seq<char>| crate::decimal::all_digits(n);
    let j: int = choose|j: int| 0 <= j < sorted(v).len() && sorted(v)[j] == name;
    sorted(v).lemma_filter_contains(p, j);
    let w = years(s);
    assert(w == sorted(v).filter(p));
    let k: int = choose|k: int| 0 <= k < w.len() && w[k] == name;
    lemma_join_holds(w, "\n"@, k);
}

/// A date is listed by its digits: four for a year, six for a month and eight for a day,
/// split where they stand.
pub proof fn lemma_index_by_digits(s: StoreView, y: Seq<char>, m: Seq<char>, d: Seq<char>)
    requires
        crate::decimal::all_digits(y),
        crate::decimal::all_digits(m),
        crate::decimal::all_digits(d),
        y.len() == 4,
        m.len() == 2,
        d.len() == 2,
    ensures
        index_text(s, Some(y + m + d)) == day_index(s, y, m, d),
        index_text(s, Some(y + m)) == month_index(s, y, m),
        index_text(s, Some(y)) == crate::mem_cli::year_index(s, y),
{
    lemma_all_digits_kept(y);
    lemma_all_digits_kept(y + m);
    lemma_all_digits_kept(y + m + d);
    assert((y + m).take(4) =~= y);
    assert((y + m).subrange(4, 6) =~= m);
    assert((y + m + d).take(4) =~= y);
    assert((y + m + d).subrange(4, 6) =~= m);
    assert((y + m + d).subrange(6, 8) =~= d);
}

proof fn lemma_all_digits_kept(s: Seq<char>)
    requires
        crate::decimal::all_digits(s),
    ensures
        crate::mem_cli::digits(s) == s,
    decreases s.len(),
{
    reveal(Seq::filter);
    if s.len() > 0 {
        let t = s.drop_last();
        assert(crate::decimal::is_digit(s[s.len() - 1]));
        assert forall|i: int| 0 <= i < t.len() implies crate::decimal::is_digit(t[i]) by {
            assert(t[i] == s[i]);
        }
        lemma_all_digits_kept(t);
        assert(t.push(s.last()) =~= s);
    } else {
        assert(crate::mem_cli::digits(s) =~= s);
    }
}

// ---------------------------------------------------------------------------
// Conversations
// ---------------------------------------------------------------------------

/// How an event of a conversation is shown: its number, who speaks and all that was
/// said.
pub proof fn lemma_shown_events(e: EventView, text: Seq<char>, name: Seq<char>)
    ensures
        ({
            let d = JsonView::Obj(e.data);
            let head = "[seq"@ + dec(e.seq as nat);
            &&& e.kind == "user"@ && text_in(d, "content"@) is None && says(d, "text"@, text)
                ==> human(e) == head + " 用户] "@ + text
            &&& e.kind == "assistant"@ && says(d, "content"@, text) && list_in(
                d,
                "tool_calls"@,
            ).len() == 0 ==> human(e) == head + " 助手] "@ + text
            &&& e.kind == "assistant"@ && list_in(d, "tool_calls"@).len() > 0 ==> human(e) == head
                + " 助手] (调用工具)"@
            &&& e.kind == "tool_result"@ && says(d, "name"@, name) && says(d, "result"@, text)
                ==> human(e) == head + " 工具结果:"@ + name + "] "@ + text
            &&& e.kind == "external"@ && says(d, "what"@, text) ==> human(e) == head
                + " 外部] "@ + text
        }),
{
    reveal_strlit("user");
    reveal_strlit("assistant");
    reveal_strlit("tool_result");
    reveal_strlit("external");
    assert("user"@.len() == 4 && "assistant"@.len() == 9);
    assert("tool_result"@.len() == 11 && "external"@.len() == 8);
}

/// A number lies in a range, when there is one.
pub open spec fn lies_in(n: u64, range: Option<(u64, u64)>) -> bool {
    match range {
        Some((a, b)) => a <= n && n <= b,
        None => true,
    }
}

/// Of a conversation every event in the range is shown, and none outside it.
pub proof fn lemma_range_shown(
    rows: Seq<Option<HistoryEvent>>,
    range: Option<(u64, u64)>,
    i: int,
    j: int,
)
    ensures
        0 <= i < rows.len() && rows[i] is Some && lies_in(rows[i]->0.seq, range) ==> human_rows(rows, range).contains(human(rows[i]->0@)),
        0 <= j < human_rows(rows, range).len() ==> exists|k: int|
            0 <= k < rows.len() && (#[trigger] rows[k]) is Some && human_rows(rows, range)[j]
                == human(rows[k]->0@) && lies_in(rows[k]->0.seq, range),
    decreases rows.len(),
{
    let all = human_rows(rows, range);
    if rows.len() > 0 {
        let t = rows.drop_last();
        let head = human_rows(t, range);
        lemma_range_shown(t, range, i, j);
        if 0 <= i < rows.len() && rows[i] is Some && lies_in(rows[i]->0.seq, range) {
            let x = human(rows[i]->0@);
            if i < t.len() {
                assert(t[i] == rows[i]);
                let k: int = choose|k: int| 0 <= k < head.len() && head[k] == x;
                assert(all[k] == x);
            } else {
                assert(all[all.len() - 1] == x);
            }
        }
        if 0 <= j < all.len() {
            if j < head.len() {
                assert(all[j] == head[j]);
                let k: int = choose|k: int|
                    0 <= k < t.len() && (#[trigger] t[k]) is Some && head[j] == human(t[k]->0@)
                        && lies_in(t[k]->0.seq, range);
                assert(rows[k] == t[k]);
            } else {
                assert(rows[rows.len() - 1] is Some);
            }
        }
    }
}

// ---------------------------------------------------------------------------
// Searching
// ---------------------------------------------------------------------------

/// A file of the memory that is searched: no directory, below the memory, and none of
/// the records that sum up a month or a year.
pub open spec fn is_searched(e: EntryView) -> bool {
    &&& !e.is_dir
    &&& e.dir == "memory"@ || "memory/"@.is_prefix_of(e.dir)
    &&& e.text is Some
    &&& !(name_extension(e.name) == Some("jsonl"@) && (crate::cut::byte_len(name_stem(e.name))
        == 4 || crate::cut::byte_len(name_stem(e.name)) == 7))
}

proof fn lemma_below_memory(dir: Seq<char>)
    ensures
        "memory/"@.is_prefix_of(dir) <==> starts_with(dir, "memory"@ + "/"@),
{
    reveal_strlit("memory");
    reveal_strlit("/");
    reveal_strlit("memory/");
    assert("memory"@ + "/"@ =~= "memory/"@);
    let p = "memory/"@;
    if p.is_prefix_of(dir) {
        assert(dir.subrange(0, p.len() as int) =~= p);
    }
    if starts_with(dir, p) {
        assert(p =~= dir.take(p.len() as int));
    }
}

/// A line of the memory is found by every word in it, in whatever case, with its file
/// and its number; a record is found by what it is about.
pub proof fn lemma_search_finds(s: StoreView, query: Seq<char>, raw: bool, k: int, i: int, r: JsonView)
    requires
        0 <= k < s.entries.len(),
        is_searched(s.entries[k]),
        0 <= i < lines(s.entries[k].text->0).len(),
        ({
            let line = lines(s.entries[k].text->0)[i];
            ||| name_extension(s.entries[k].name) != Some("jsonl"@) && contains(
                lowered(line),
                lowered(query),
            )
            ||| name_extension(s.entries[k].name) == Some("jsonl"@) && "{"@.is_prefix_of(line)
                && json_read(line) == Reading::Value(r) && is_about(r, lowered(query))
        }),
    ensures
        hits(s, query, raw).contains(
            entry_path(s.root, s.entries[k]) + ":"@ + dec((i + 1) as nat) + ": "@ + trim(
                lines(s.entries[k].text->0)[i],
            ),
        ),
{
    let e = s.entries[k];
    let q = lowered(query);
    let path = entry_path(s.root, e);
    let v = lines(e.text->0);
    let in_records = name_extension(e.name) == Some("jsonl"@);
    lemma_below_memory(e.dir);
    if "{"@.is_prefix_of(v[i]) {
        assert(v[i].subrange(0, "{"@.len() as int) =~= "{"@);
    }
    if in_records {
        lemma_about(r, q);
    }
    assert(crate::mem_cli::line_matches(v[i], in_records, false, q));
    lemma_line_found(path, v, in_records, false, q, i);
    let x = hit(path, v, i);
    lemma_entry_found(s.root, s.entries, "memory"@, false, q, k, x);
    let plain = hits_below(s.root, s.entries, "memory"@, false, q);
    let j: int = choose|j: int| 0 <= j < plain.len() && plain[j] == x;
    assert(hits(s, query, raw)[j] == x);
}

proof fn lemma_list_about(r: JsonView, key: Seq<char>, words: Seq<char>)
    ensures
        some_holds(strings_of(list_in(r, key)), words) ==> crate::mem_cli::list_matches(
            r,
            key,
            words,
        ),
{
    let v = strings_of(list_in(r, key));
    if some_holds(v, words) {
        let i: int = choose|i: int| 0 <= i < v.len() && contains(lowered(#[trigger] v[i]), words);
        match r.array_at(key) {
            Some(a) => {
                assert(v == strings_of(a));
                assert(contains(lowered(strings_of(a)[i]), words));
            },
            None => {
                assert(list_in(r, key) =~= Seq::empty());
            },
        }
    }
}

proof fn lemma_about(r: JsonView, words: Seq<char>)
    requires
        is_about(r, words),
    ensures
        crate::mem_cli::record_matches(r, words),
{
    lemma_list_about(r, "keywords"@, words);
    lemma_list_about(r, "top_events"@, words);
    lemma_list_about(r, "key_outputs"@, words);
}

/// A record that is about words: its title, its details, its kind or its mark hold them,
/// or one of its keywords, main events or outputs.
pub open spec fn is_about(r: JsonView, words: Seq<char>) -> bool {
    ||| text_in(r, "title"@) matches Some(s) && contains(lowered(s), words)
    ||| text_in(r, "detail"@) matches Some(s) && contains(lowered(s), words)
    ||| text_in(r, "type"@) matches Some(s) && contains(lowered(s), words)
    ||| text_in(r, "evt"@) matches Some(s) && contains(lowered(s), words)
    ||| some_holds(strings_of(list_in(r, "keywords"@)), words)
    ||| some_holds(strings_of(list_in(r, "top_events"@)), words)
    ||| some_holds(strings_of(list_in(r, "key_outputs"@)), words)
}

/// One of the texts holds words.
pub open spec fn some_holds(v: Seq<Seq<char>>, words: Seq<char>) -> bool {
    exists|i: int| 0 <= i < v.len() && contains(lowered(#[trigger] v[i]), words)
}

/// Nothing is found but lines of the memory that hold the words, or records that are
/// about them.
pub proof fn lemma_search_sound(s: StoreView, query: Seq<char>, j: int) -> (r: (int, int))
    requires
        0 <= j < hits(s, query, false).len(),
    ensures
        0 <= r.0 < s.entries.len(),
        is_searched(s.entries[r.0]),
        0 <= r.1 < lines(s.entries[r.0].text->0).len(),
        ({
            let line = lines(s.entries[r.0].text->0)[r.1];
            &&& contains(lowered(line), lowered(query)) || (json_read(line) matches Reading::Value(
                v,
            ) && is_about(v, lowered(query)))
            &&& hits(s, query, false)[j] == entry_path(s.root, s.entries[r.0]) + ":"@ + dec(
                (r.1 + 1) as nat,
            ) + ": "@ + trim(line)
        }),
{
    lemma_hit_source(s.root, s.entries, lowered(query), j)
}

proof fn lemma_hit_source(root: Seq<char>, v: Seq<EntryView>, q: Seq<char>, j: int) -> (r: (int, int))
    requires
        0 <= j < hits_below(root, v, "memory"@, false, q).len(),
    ensures
        0 <= r.0 < v.len(),
        is_searched(v[r.0]),
        0 <= r.1 < lines(v[r.0].text->0).len(),
        ({
            let line = lines(v[r.0].text->0)[r.1];
            &&& contains(lowered(line), q) || (json_read(line) matches Reading::Value(x)
                && is_about(x, q))
            &&& hits_below(root, v, "memory"@, false, q)[j] == entry_path(root, v[r.0]) + ":"@
                + dec((r.1 + 1) as nat) + ": "@ + trim(line)
        }),
    decreases v.len(),
{
    let t = v.drop_last();
    let all = hits_below(root, v, "memory"@, false, q);
    let head = hits_below(root, t, "memory"@, false, q);
    let e = v.last();
    lemma_below_memory(e.dir);
    if j < head.len() {
        assert(all[j] == head[j]);
        let r = lemma_hit_source(root, t, q, j);
        assert(v[r.0] == t[r.0]);
        r
    } else {
        let path = entry_path(root, e);
        let w = lines(e.text->0);
        let in_records = name_extension(e.name) == Some("jsonl"@);
        let own = line_hits(path, w, in_records, false, q);
        assert(all == head + own);
        let i = lemma_line_source(path, w, in_records, q, j - head.len());
        assert(v[v.len() - 1] == e);
        (v.len() - 1, i)
    }
}

proof fn lemma_line_source(
    path: Seq<char>,
    v: Seq<Seq<char>>,
    in_records: bool,
    q: Seq<char>,
    j: int,
) -> (i: int)
    requires
        0 <= j < line_hits(path, v, in_records, false, q).len(),
    ensures
        0 <= i < v.len(),
        contains(lowered(v[i]), q) || (json_read(v[i]) matches Reading::Value(x) && is_about(x, q)),
        line_hits(path, v, in_records, false, q)[j] == path + ":"@ + dec((i + 1) as nat) + ": "@
            + trim(v[i]),
    decreases v.len(),
{
    let t = v.drop_last();
    let all = line_hits(path, v, in_records, false, q);
    let head = line_hits(path, t, in_records, false, q);
    if j < head.len() {
        assert(all[j] == head[j]);
        let i = lemma_line_source(path, t, in_records, q, j);
        assert(t[i] == v[i]);
        i
    } else {
        v.len() - 1
    }
}

/// What a search gives holds everything that it finds, one below the other.
pub proof fn lemma_search_tells(s: StoreView, query: Seq<char>, raw: bool, j: int)
    requires
        !is_blank(query),
        0 <= j < hits(s, query, raw).len(),
    ensures
        contains(search_text(s, query, raw), hits(s, query, raw)[j]),
{
    lemma_join_holds(hits(s, query, raw), "\n"@, j);
}

// ---------------------------------------------------------------------------
// The overview
// ---------------------------------------------------------------------------

/// The overview of a day holds every event of the day: with its line.
pub proof fn lemma_today_in_overview(v: Seq<EntryView>, today: Seq<char>, i: int)
    requires
        0 <= i < today_records(v, today).len(),
        card(Card::EventLine, today_records(v, today)[i]) is Some,
    ensures
        contains(overview(v, today), card(Card::EventLine, today_records(v, today)[i])->0),
{
    let rows = today_records(v, today);
    let own = cards(Card::EventLine, rows);
    let k = lemma_cards_hold(Card::EventLine, rows, i);
    let j = lemma_latest_first(own, k);
    let days = sorted(own).reverse();
    lemma_ended_holds(days, j);
    let (y, m) = year_month_of(today);
    let (py, pm) = crate::mem_cli::month_before(y, m);
    let head = "# 记忆（MEMORY.md）\n由 dream 维护，pack 从三层 jsonl 重拼。三层总览：日 / 月 / 年。\n\n"@ + "## 日\n"@;
    let body = ended(days);
    let x = days[j];
    let this = crate::mem_cli::month_overview(crate::mem_cli::month_records(v, y, m));
    let last = crate::mem_cli::month_overview(crate::mem_cli::month_records(v, py, pm));
    let whole = crate::mem_cli::year_overview(
        crate::mem_cli::file_records(
            v,
            crate::store::sub_dir("memory"@, dec_int(y)),
            dec_int(y) + ".jsonl"@,
        ),
    );
    let a = head + body;
    lemma_contains_tail(head, body, x);
    lemma_contains_head(a, "\n"@, x);
    let b = a + "\n"@;
    lemma_contains_head(b, "## 月\n"@, x);
    lemma_contains_head(b + "## 月\n"@, "### 当月 "@, x);
    let c = b + "## 月\n"@ + "### 当月 "@;
    lemma_contains_head(c, crate::mem_cli::month_of(y, m), x);
    lemma_contains_head(c + crate::mem_cli::month_of(y, m), "\n"@, x);
    let d = c + crate::mem_cli::month_of(y, m) + "\n"@;
    lemma_contains_head(d, this, x);
    lemma_contains_head(d + this, "### 上月 "@, x);
    let e = d + this + "### 上月 "@;
    lemma_contains_head(e, crate::mem_cli::month_of(py, pm), x);
    lemma_contains_head(e + crate::mem_cli::month_of(py, pm), "\n"@, x);
    let f = e + crate::mem_cli::month_of(py, pm) + "\n"@;
    lemma_contains_head(f, last, x);
    lemma_contains_head(f + last, "\n"@, x);
    lemma_contains_head(f + last + "\n"@, "## 年\n"@, x);
    lemma_contains_head(f + last + "\n"@ + "## 年\n"@, whole, x);
    assert(overview(v, today) == f + last + "\n"@ + "## 年\n"@ + whole);
}

/// A month in the overview holds the line of every one of its days, and a year that of
/// every one of its months.
pub proof fn lemma_days_in_overview(rows: Seq<JsonView>, i: int)
    requires
        0 <= i < rows.len(),
    ensures
        says(rows[i], "type"@, "day"@) ==> contains(
            crate::mem_cli::month_overview(rows),
            card(Card::DayLine, rows[i])->0,
        ),
        says(rows[i], "type"@, "month"@) ==> contains(
            crate::mem_cli::year_overview(rows),
            card(Card::MonthLine, rows[i])->0,
        ),
{
    if says(rows[i], "type"@, "day"@) {
        lemma_line_in_overview(Card::MonthHead, Card::DayLine, rows, "（无月层数据）\n"@, i);
    }
    if says(rows[i], "type"@, "month"@) {
        lemma_line_in_overview(Card::YearHead, Card::MonthLine, rows, "（无年层数据）\n"@, i);
    }
}

proof fn lemma_line_in_overview(
    head: Card,
    line: Card,
    rows: Seq<JsonView>,
    nothing: Seq<char>,
    i: int,
)
    requires
        0 <= i < rows.len(),
        card(line, rows[i]) is Some,
    ensures
        contains(
            crate::mem_cli::period_overview(head, line, rows, nothing),
            card(line, rows[i])->0,
        ),
{
    let c = cards(line, rows);
    let k = lemma_cards_hold(line, rows, i);
    let j = lemma_latest_first(c, k);
    let v = sorted(c).reverse();
    lemma_ended_holds(v, j);
    let out = join(cards(head, rows), ""@) + ended(v);
    lemma_contains_tail(join(cards(head, rows), ""@), ended(v), v[j]);
    reveal_strlit("\n");
    assert(ended(v).len() > 0);
}

// ---------------------------------------------------------------------------
// The command line
// ---------------------------------------------------------------------------

/// What the command line asks for is what it says: the command is the first argument,
/// what it is about the second, and the flags stand anywhere.
pub proof fn lemma_commands(args: Seq<Seq<char>>, what: Seq<char>)
    requires
        args.len() > 2,
        args[2] == what,
    ensures
        args[1] == "search"@ ==> request(args) == RequestView::Search(
            what,
            args.contains("--raw"@),
        ),
        args[1] == "history"@ ==> request(args) == RequestView::History(what, range_given(args)),
        args[1] == "pack"@ ==> request(args) == RequestView::Pack,
        args[1] == "ls"@ && crate::mem::is_index_date(what) ==> request(args) == RequestView::Ls(
            Some(what),
        ),
        args[1] == "ls"@ && !crate::mem::is_index_date(what) ==> (request(args)
            matches RequestView::Say(_, code) && code == 2),
        args[1] == "read"@ && crate::mem::is_read_date(crate::mem::normalized(what)) ==> request(
            args,
        ) == RequestView::Read(crate::mem::normalized(what)),
        args[1] == "read"@ && !crate::mem::is_read_date(crate::mem::normalized(what)) ==> (request(
            args,
        ) matches RequestView::Say(_, code) && code == 2),
{
    reveal_strlit("search");
    reveal_strlit("history");
    reveal_strlit("pack");
    reveal_strlit("ls");
    reveal_strlit("read");
    assert("search"@.len() == 6 && "history"@.len() == 7 && "pack"@.len() == 4);
    assert("ls"@.len() == 2 && "read"@.len() == 4 && "read"@[0] == 'r' && "pack"@[0] == 'p');
}

/// The range is the one that stands behind its flag, and the place of the memory the one
/// behind the first flag for it.
pub proof fn lemma_flags_read(args: Seq<Seq<char>>, i: int)
    requires
        0 <= i < args.len() - 1,
    ensures
        args[i] == "--seq"@ && (forall|k: int| 0 <= k < i ==> #[trigger] args[k] != "--seq"@)
            ==> range_given(args) == range_of(args[i + 1]),
        (args[i] == "--cache"@ || args[i] == "--workspace"@) && (forall|k: int|
            0 <= k < i ==> #[trigger] args[k] != "--cache"@ && args[k] != "--workspace"@)
            ==> place_given(args) == Some(args[i + 1]),
    decreases args.len(),
{
    if i > 0 {
        let t = args.skip(1);
        assert(forall|k: int| 0 <= k < t.len() ==> #[trigger] t[k] == args[k + 1]);
        lemma_flags_read(t, i - 1);
    }
}

/// What is to be summed up: the day, the month or the year that is named; without a name
/// what is missing; and by force only what is named.
pub proof fn lemma_plans(args: Seq<Seq<char>>, name: Seq<char>)
    requires
        args.len() > 3,
        args[3] == name,
        !starts_with(name, "--"@),
    ensures
        args[2] == "day"@ ==> plan_for(args) == PlanView::Day(name),
        args[2] == "month"@ ==> plan_for(args) == PlanView::Month(
            year_month_of(name).0,
            year_month_of(name).1,
        ),
        args[2] == "year"@ ==> (crate::decimal::parse_signed(
            name,
            i32::MIN as int,
            i32::MAX as int,
        ) matches Some(y) ==> plan_for(args) == PlanView::Year(y)),
        flags_in(args).force == args.contains("--force"@),
        flags_in(args).once == args.contains("--once"@),
        flags_in(args).dry_run == args.contains("--dry-run"@),
        flags_in(args).mechanical == args.contains("--mechanical"@),
{
    reveal_strlit("day");
    reveal_strlit("month");
    reveal_strlit("year");
    assert("day"@.len() == 3 && "month"@.len() == 5 && "year"@.len() == 4);
    let t = args.skip(3);
    assert(t[0] == name);
}

// ---------------------------------------------------------------------------
// What is missing
// ---------------------------------------------------------------------------

/// A month with a day's records and no records of its own is missing, and no other is:
/// the one whose records are there is not.
pub proof fn lemma_month_is_missing(
    v: Seq<EntryView>,
    year: Seq<char>,
    month: Seq<char>,
    names: Seq<Seq<char>>,
    i: int,
)
    requires
        year_named(year) != 0,
        names.contains(month),
        0 <= i < v.len(),
        v[i].dir == "memory"@ + "/"@ + year + "/"@ + month,
    ensures
        ({
            let own = dec_int(year_named(year)) + "-"@ + padded(month_named(month), 2) + ".jsonl"@;
            let pair = (year_named(year), month_named(month));
            &&& month_named(month) != 0 && name_extension(v[i].name) == Some("jsonl"@) && byte_len(
                name_stem(v[i].name),
            ) == 10 && (forall|k: int|
                0 <= k < v.len() ==> !((#[trigger] v[k]).dir == v[i].dir && v[k].name == own))
                ==> months_missing(v, year, names).contains(pair)
            &&& v[i].name == own && (forall|k: int|
                0 <= k < names.len() && month_named(#[trigger] names[k]) == month_named(month)
                    ==> names[k] == month) ==> !months_missing(v, year, names).contains(pair)
        }),
{
    let own = dec_int(year_named(year)) + "-"@ + padded(month_named(month), 2) + ".jsonl"@;
    let pair = (year_named(year), month_named(month));
    let dir = sub_dir(sub_dir("memory"@, year), month);
    assert(dir == v[i].dir);
    if month_named(month) != 0 && name_extension(v[i].name) == Some("jsonl"@) && byte_len(
        name_stem(v[i].name),
    ) == 10 && (forall|k: int|
        0 <= k < v.len() ==> !((#[trigger] v[k]).dir == v[i].dir && v[k].name == own)) {
        assert(has_records(v, dir, 10));
        assert(month_missing(v, year, month));
        let k: int = choose|k: int| 0 <= k < names.len() && names[k] == month;
        lemma_months_hold(v, year, names, k);
    }
    if v[i].name == own && (forall|k: int|
        0 <= k < names.len() && month_named(#[trigger] names[k]) == month_named(month)
            ==> names[k] == month) {
        assert(is_there(v, dir, own));
        assert(!month_missing(v, year, month));
        if months_missing(v, year, names).contains(pair) {
            let k = lemma_months_from(v, year, names, pair);
            assert(names[k] == month);
        }
    }
}

proof fn lemma_months_hold(v: Seq<EntryView>, year: Seq<char>, names: Seq<Seq<char>>, k: int)
    requires
        0 <= k < names.len(),
        month_missing(v, year, names[k]),
    ensures
        months_missing(v, year, names).contains((year_named(year), month_named(names[k]))),
    decreases names.len(),
{
    let t = names.drop_last();
    let all = months_missing(v, year, names);
    let pair = (year_named(year), month_named(names[k]));
    if k < t.len() {
        assert(t[k] == names[k]);
        lemma_months_hold(v, year, t, k);
        let head = months_missing(v, year, t);
        let j: int = choose|j: int| 0 <= j < head.len() && head[j] == pair;
        assert(all[j] == pair);
    } else {
        assert(all[all.len() - 1] == pair);
    }
}

proof fn lemma_months_from(
    v: Seq<EntryView>,
    year: Seq<char>,
    names: Seq<Seq<char>>,
    pair: (int, nat),
) -> (k: int)
    requires
        months_missing(v, year, names).contains(pair),
    ensures
        0 <= k < names.len(),
        month_missing(v, year, names[k]),
        pair == (year_named(year), month_named(names[k])),
    decreases names.len(),
{
    let all = months_missing(v, year, names);
    let j: int = choose|j: int| 0 <= j < all.len() && all[j] == pair;
    if names.len() > 0 {
        let t = names.drop_last();
        let head = months_missing(v, year, t);
        if j < head.len() {
            assert(head[j] == pair);
            let k = lemma_months_from(v, year, t, pair);
            assert(names[k] == t[k]);
            k
        } else {
            names.len() - 1
        }
    } else {
        0
    }
}

/// A year in which a month has records and which has none of its own is missing.
pub proof fn lemma_year_is_missing(
    v: Seq<EntryView>,
    year: Seq<char>,
    month: Seq<char>,
    names: Seq<Seq<char>>,
    i: int,
)
    requires
        year_named(year) != 0,
        names.contains(year),
        dirs_in(v, "memory"@ + "/"@ + year).contains(month),
        0 <= i < v.len(),
        v[i].dir == "memory"@ + "/"@ + year + "/"@ + month,
        name_extension(v[i].name) == Some("jsonl"@),
        byte_len(name_stem(v[i].name)) == 7,
        forall|k: int|
            0 <= k < v.len() ==> !((#[trigger] v[k]).dir == "memory"@ + "/"@ + year && v[k].name
                == dec_int(year_named(year)) + ".jsonl"@),
    ensures
        years_missing(v, names).contains(year_named(year)),
{
    let dir = sub_dir("memory"@, year);
    let months = dirs_in(v, dir);
    lemma_sorted(months);
    months.to_multiset_ensures();
    sorted(months).to_multiset_ensures();
    assert(months.contains(month) <==> months.to_multiset().count(month) > 0);
    assert(sorted(months).contains(month) <==> sorted(months).to_multiset().count(month) > 0);
    let j: int = choose|j: int| 0 <= j < sorted(months).len() && sorted(months)[j] == month;
    assert(has_records(v, sub_dir(dir, sorted(months)[j]), 7));
    assert(has_month(v, dir, sorted(months)));
    assert(year_missing(v, year));
    let k: int = choose|k: int| 0 <= k < names.len() && names[k] == year;
    lemma_years_hold(v, names, k);
}

proof fn lemma_years_hold(v: Seq<EntryView>, names: Seq<Seq<char>>, k: int)
    requires
        0 <= k < names.len(),
        year_missing(v, names[k]),
    ensures
        years_missing(v, names).contains(year_named(names[k])),
    decreases names.len(),
{
    let t = names.drop_last();
    let all = years_missing(v, names);
    let y = year_named(names[k]);
    if k < t.len() {
        assert(t[k] == names[k]);
        lemma_years_hold(v, t, k);
        let head = years_missing(v, t);
        let j: int = choose|j: int| 0 <= j < head.len() && head[j] == y;
        assert(all[j] == y);
    } else {
        assert(all[all.len() - 1] == y);
    }
}

// ---------------------------------------------------------------------------
// Reading by date
// ---------------------------------------------------------------------------

proof fn lemma_four_digits(s: Seq<char>)
    requires
        all_digits(s),
    ensures
        byte_len(s) == s.len(),
        !s.contains('-'),
    decreases s.len(),
{
    reveal_with_fuel(byte_len, 2);
    if s.len() > 0 {
        let t = s.drop_last();
        assert forall|k: int| 0 <= k < t.len() implies is_digit(t[k]) by {
            assert(t[k] == s[k]);
        }
        lemma_four_digits(t);
        let h = s.skip(1);
        assert forall|k: int| 0 <= k < h.len() implies is_digit(h[k]) by {
            assert(h[k] == s[k + 1]);
        }
        lemma_four_digits(h);
        assert(is_digit(s[0]) && is_digit(s.last()));
        assert forall|k: int| 0 <= k < s.len() implies s[k] != '-' by {
            assert(is_digit(s[k]));
        }
    }
}

/// A day is read as its events, a month as its days and a year as its months, each by
/// its date; a day without dashes is the same day.
pub proof fn lemma_read_by_date(
    y: Seq<char>,
    m: Seq<char>,
    d: Seq<char>,
    text: Option<Seq<char>>,
    notes: Option<Seq<char>>,
)
    requires
        y.len() == 4 && all_digits(y),
        m.len() == 2 && all_digits(m),
        d.len() == 2 && all_digits(d),
    ensures
        read_text(y + "-"@ + m + "-"@ + d, text, notes) == period_text(
            Card::EventText,
            text,
            notes,
            "（"@ + (y + "-"@ + m + "-"@ + d) + " 无当天记忆"@ + "）"@,
        ),
        read_text(y + "-"@ + m, text, notes) == period_text(
            Card::MonthText,
            text,
            notes,
            "（"@ + (y + "-"@ + m) + " 无月级文件"@ + "）"@,
        ),
        read_text(y, text, notes) == period_text(
            Card::YearText,
            text,
            notes,
            "（"@ + y + " 无年级文件"@ + "）"@,
        ),
        dashed_day(y + m + d) == y + "-"@ + m + "-"@ + d,
{
    lemma_four_digits(y);
    lemma_four_digits(m);
    lemma_four_digits(d);
    lemma_date_parts(y, m, d);
    lemma_digits_add(y, m);
    lemma_digits_add(y + m, d);
    lemma_four_digits(y + m + d);
    lemma_date_slices(y, m, d);
}

proof fn lemma_small_number(s: Seq<char>)
    requires
        all_digits(s),
        s.len() == 2 || s.len() == 4,
    ensures
        parse_unsigned(s, u32::MAX as nat) == Some(digits_value(s)),
        parse_signed(s, i32::MIN as int, i32::MAX as int) == Some(digits_value(s) as int),
        digits_value(s) < 10000,
{
    reveal_with_fuel(digits_value, 5);
    assert(is_digit(s[0]) && is_digit(s[1]));
    let t = s.drop_last();
    assert(t.drop_last() =~= s.take(s.len() - 2));
    assert(t.last() == s[s.len() - 2]);
    if s.len() == 4 {
        assert(is_digit(s[2]) && is_digit(s[3]));
        let u = t.drop_last();
        assert(u.last() == s[1]);
        assert(u.drop_last().last() == s[0]);
        assert(u.drop_last().drop_last().len() == 0);
    }
}

proof fn lemma_date_parts(y: Seq<char>, m: Seq<char>, d: Seq<char>)
    requires
        !y.contains('-'),
        !m.contains('-'),
        !d.contains('-'),
    ensures
        split(y, '-') == seq![y],
        split(y + "-"@ + m, '-') == seq![y, m],
        split(y + "-"@ + m + "-"@ + d, '-') == seq![y, m, d],
{
    reveal_strlit("-");
    assert("-"@ =~= seq!['-']);
    super::paths::lemma_split_none(y, '-');
    super::paths::lemma_split_none(m, '-');
    super::paths::lemma_split_none(d, '-');
    super::paths::lemma_split_at(y, '-', m);
    super::paths::lemma_split_at(y + "-"@ + m, '-', d);
    assert(split(y + "-"@ + m, '-') =~= seq![y, m]);
    assert(split(y + "-"@ + m + "-"@ + d, '-') =~= seq![y, m, d]);
}

proof fn lemma_date_slices(y: Seq<char>, m: Seq<char>, d: Seq<char>)
    requires
        y.len() == 4,
        m.len() == 2,
        d.len() == 2,
    ensures
        (y + m + d).len() == 8,
        (y + m + d).take(4) == y,
        (y + m + d).subrange(4, 6) == m,
        (y + m + d).subrange(6, 8) == d,
        (y + m).len() == 6,
        (y + m).subrange(4, 6) == m,
{
    let s = y + m + d;
    assert(s.take(4) =~= y);
    assert(s.subrange(4, 6) =~= m);
    assert(s.subrange(6, 8) =~= d);
    assert((y + m).subrange(4, 6) =~= m);
}

proof fn lemma_digits_add(a: Seq<char>, b: Seq<char>)
    requires
        all_digits(a),
        all_digits(b),
    ensures
        all_digits(a + b),
{
    let s = a + b;
    assert forall|k: int| 0 <= k < s.len() implies is_digit(s[k]) by {
        if k < a.len() {
            assert(s[k] == a[k]);
        } else {
            assert(s[k] == b[k - a.len()]);
        }
    }
}

/// A day can be asked for when its month is one of twelve and its day one of
/// thirty-one, a month when it is one of twelve, and every year can.
pub proof fn lemma_dates_accepted(y: Seq<char>, m: Seq<char>, d: Seq<char>)
    requires
        y.len() == 4 && all_digits(y),
        m.len() == 2 && all_digits(m),
        d.len() == 2 && all_digits(d),
    ensures
        ({
            let month = 1 <= digits_value(m) <= 12;
            let day = 1 <= digits_value(d) <= 31;
            &&& is_read_date(y + "-"@ + m + "-"@ + d) <==> month && day
            &&& is_read_date(y + "-"@ + m) <==> month
            &&& is_read_date(y)
            &&& is_index_date(y + m + d) <==> month && day
            &&& is_index_date(y + m) <==> month
            &&& is_index_date(y)
        }),
{
    lemma_four_digits(y);
    lemma_four_digits(m);
    lemma_four_digits(d);
    lemma_small_number(m);
    lemma_small_number(d);
    lemma_date_parts(y, m, d);
    lemma_digits_add(y, m);
    lemma_digits_add(y + m, d);
    lemma_all_digits_kept(y);
    lemma_all_digits_kept(y + m);
    lemma_all_digits_kept(y + m + d);
    lemma_date_slices(y, m, d);
}

/// The events of a day are the records of the day's file, below its year and its month.
pub proof fn lemma_day_file(
    v: Seq<EntryView>,
    y: Seq<char>,
    m: Seq<char>,
    d: Seq<char>,
    text: Seq<char>,
)
    requires
        y.len() == 4 && all_digits(y),
        m.len() == 2 && all_digits(m),
        text_of(
            v,
            "memory"@ + "/"@ + dec_int(digits_value(y) as int) + "/"@ + padded(digits_value(m), 2),
            y + "-"@ + m + "-"@ + d + ".jsonl"@,
        ) == Some(text),
        !d.contains('-'),
    ensures
        today_records(v, y + "-"@ + m + "-"@ + d) == records(text, false),
{
    lemma_four_digits(y);
    lemma_four_digits(m);
    lemma_small_number(y);
    lemma_small_number(m);
    lemma_date_parts(y, m, d);
}

} // verus!
