//! Records of the memory: one JSON object on each line of a file, and the cards
//! that are shown for them.
use crate::decimal::{dec, write_u64};
use crate::json::{
    jsons, lemma_jsons_at, lemma_jsons_len, lemma_jsons_push, strings_in, strings_of, Json,
    JsonView,
};
use crate::lines::{join, join_strs, lines, lines_of};
use crate::text::{begins, opt_text, starts_with, texts, trim, trimmed};
use crate::wire::{json_read, parse_json, Reading};
use vstd::prelude::*;

verus! {

// ---------------------------------------------------------------------------
// Records
// ---------------------------------------------------------------------------

/// The record on a line; where `any` does not hold, only a line that begins with a
/// brace is read.
pub open spec fn record_of(line: Seq<char>, any: bool) -> Option<JsonView> {
    let t = trim(line);
    if any || starts_with(t, "{"@) {
        match json_read(t) {
            Reading::Value(v) => Some(v),
            Reading::Failure(_) => None,
        }
    } else {
        None
    }
}

/// The records on lines.
pub open spec fn records_on(v: Seq<Seq<char>>, any: bool) -> Seq<JsonView>
    decreases v.len(),
{
    if v.len() == 0 {
        Seq::empty()
    } else {
        let head = records_on(v.drop_last(), any);
        match record_of(v.last(), any) {
            Some(r) => head.push(r),
            None => head,
        }
    }
}

/// The records of a text.
pub open spec fn records(text: Seq<char>, any: bool) -> Seq<JsonView> {
    records_on(lines(text), any)
}

/// Reads the records of a text: lines that hold none are passed over.
pub fn read_records(text: &str, any: bool) -> (r: Vec<Json>)
    ensures
        jsons(r@) == records(text@, any),
{
    let v = lines_of(text);
    let ghost all = lines(text@);
    let mut out: Vec<Json> = Vec::new();
    let mut i: usize = 0;
    proof {
        assert(all.take(0) =~= Seq::empty());
        assert(jsons(out@) =~= Seq::empty());
    }
    while i < v.len()
        invariant
            all == texts(v@),
            i <= v@.len(),
            jsons(out@) == records_on(all.take(i as int), any),
        decreases v@.len() - i,
    {
        let t = trimmed(v[i].as_str());
        proof {
            let x = all.take(i + 1);
            assert(x.drop_last() =~= all.take(i as int));
            assert(x.last() == v@[i as int]@);
        }
        if any || begins(t.as_str(), "{") {
            if let Ok(j) = parse_json(t.as_str()) {
                proof {
                    lemma_jsons_push(out@, j);
                }
                out.push(j);
            }
        }
        i = i + 1;
    }
    assert(all.take(i as int) =~= all);
    out
}

// ---------------------------------------------------------------------------
// Cards
// ---------------------------------------------------------------------------

/// The strings of a member that is a list, with a separator between them.
pub open spec fn listed(v: JsonView, key: Seq<char>, sep: Seq<char>) -> Seq<char> {
    match v.array_at(key) {
        Some(a) => join(strings_of(a), sep),
        None => Seq::empty(),
    }
}

fn list_text(v: &Json, key: &str, sep: &str) -> (r: String)
    ensures
        r@ == listed(v@, key@, sep@),
{
    match v.array_at(key) {
        Some(a) => join_strs(&strings_in(a), sep),
        None => String::new(),
    }
}

/// The number at a name, 0 when there is none.
pub open spec fn count_at(v: JsonView, key: Seq<char>) -> Seq<char> {
    dec(
        match v.u64_at(key) {
            Some(n) => n as nat,
            None => 0,
        },
    )
}

/// The number at a name, 0 when there is none.
pub fn count_text(v: &Json, key: &str) -> (r: String)
    ensures
        r@ == count_at(v@, key@),
{
    let n: u64 = match v.u64_at(key) {
        Some(n) => n,
        None => 0,
    };
    write_u64(n)
}

/// The number at a place of a list, 0 when there is none.
pub open spec fn number_in(a: Seq<JsonView>, i: int) -> nat {
    if i < a.len() {
        match a[i].as_u64() {
            Some(n) => n as nat,
            None => 0,
        }
    } else {
        0
    }
}

fn element(a: &Vec<Json>, i: usize) -> (r: u64)
    ensures
        r as nat == number_in(jsons(a@), i as int),
{
    proof {
        lemma_jsons_len(a@);
    }
    if i < a.len() {
        proof {
            lemma_jsons_at(a@, i as int);
        }
        match a[i].as_u64() {
            Some(n) => n,
            None => 0,
        }
    } else {
        0
    }
}

/// The range of events that a record refers to.
pub open spec fn range_text(v: JsonView) -> Seq<char> {
    match v.array_at("seq"@) {
        Some(a) => dec(number_in(a, 0)) + ".."@ + dec(number_in(a, 1)),
        None => Seq::empty(),
    }
}

fn write_range(v: &Json) -> (r: String)
    ensures
        r@ == range_text(v@),
{
    match v.array_at("seq") {
        Some(a) => {
            let mut s = write_u64(element(a, 0));
            s.push_str("..");
            s.push_str(write_u64(element(a, 1)).as_str());
            s
        },
        None => String::new(),
    }
}

/// Points below a card, each on a line of its own; empty ones are left out.
pub open spec fn points(v: Seq<Seq<char>>) -> Seq<char>
    decreases v.len(),
{
    if v.len() == 0 {
        Seq::empty()
    } else {
        let head = points(v.drop_last());
        if v.last().len() == 0 {
            head
        } else {
            head + ("\n  · "@ + v.last())
        }
    }
}

fn write_points(v: &Vec<String>) -> (r: String)
    ensures
        r@ == points(texts(v@)),
{
    let ghost all = texts(v@);
    let mut s = String::new();
    let mut i: usize = 0;
    assert(all.take(0) =~= Seq::empty());
    while i < v.len()
        invariant
            all == texts(v@),
            i <= v@.len(),
            s@ == points(all.take(i as int)),
        decreases v@.len() - i,
    {
        proof {
            let x = all.take(i + 1);
            assert(x.drop_last() =~= all.take(i as int));
            assert(x.last() == v@[i as int]@);
        }
        if v[i].as_str().unicode_len() > 0 {
            let mut t = "\n  · ".to_owned();
            t.push_str(v[i].as_str());
            s.push_str(t.as_str());
        }
        i = i + 1;
    }
    assert(all.take(i as int) =~= all);
    s
}

/// The ways in which records are shown: a day's events as an index, in full or in
/// the overview; a month's days and its main line likewise; a year's months and
/// its main line likewise.
#[derive(Debug, Clone, Copy, PartialEq, Eq, Structural)]
pub enum Card {
    EventIndex,
    EventText,
    EventLine,
    DayIndex,
    MonthText,
    MonthHead,
    DayLine,
    YearText,
    YearHead,
    MonthLine,
}

/// An event as one line and, behind it, its details.
pub open spec fn event_line(v: JsonView) -> Option<Seq<char>> {
    if v.text_at("hhmm"@).len() == 0 && v.text_at("evt"@).len() == 0 {
        None
    } else {
        let line = "- "@ + v.text_at("hhmm"@) + " "@ + v.text_at("evt"@) + " ["@ + v.text_at(
            "type"@,
        ) + "] "@ + v.text_at("title"@);
        if v.text_at("detail"@).len() == 0 {
            Some(line)
        } else {
            Some(line + "\n  "@ + v.text_at("detail"@))
        }
    }
}

/// The main line of a month in full.
pub open spec fn month_main(v: JsonView) -> Seq<char> {
    "## 月度主线\n"@ + v.text_at("mainline"@) + "\n关键产出: "@ + listed(
        v,
        "key_outputs"@,
        " / "@,
    ) + "\n关键词: "@ + listed(v, "keywords"@, "·"@) + "\n"@
}

/// The main line of a month in the overview.
pub open spec fn month_head(v: JsonView) -> Seq<char> {
    let outs = listed(v, "key_outputs"@, " / "@);
    if outs.len() == 0 {
        "月度主线: "@ + v.text_at("mainline"@) + "\n关键词: "@ + listed(v, "keywords"@, "·"@)
            + "\n"@
    } else {
        "月度主线: "@ + v.text_at("mainline"@) + "\n关键产出: "@ + outs + "\n关键词: "@ + listed(
            v,
            "keywords"@,
            "·"@,
        ) + "\n"@
    }
}

/// The card of a record, when it has one.
pub open spec fn card(kind: Card, v: JsonView) -> Option<Seq<char>> {
    let is_day = v.str_at("type"@) == Some("day"@);
    let is_main = v.str_at("type"@) == Some("mainline"@);
    let is_month = v.str_at("type"@) == Some("month"@);
    let is_year = v.str_at("type"@) == Some("year_mainline"@);
    match kind {
        Card::EventIndex => Some(
            "- "@ + v.text_at("hhmm"@) + " ["@ + v.text_at("type"@) + "] "@ + v.text_at("title"@)
                + " — seq["@ + range_text(v) + "]\n"@,
        ),
        Card::EventText => Some(
            "## "@ + v.text_at("hhmm"@) + " "@ + v.text_at("evt"@) + " ["@ + v.text_at("type"@)
                + "] "@ + v.text_at("title"@) + "\n详情: "@ + v.text_at("detail"@) + "\n关键词: "@
                + listed(v, "keywords"@, "·"@) + "\n主语: "@ + v.text_at("subject"@)
                + "\n对话索引: "@ + v.text_at("ref"@) + "\n\n"@,
        ),
        Card::EventLine => event_line(v),
        Card::DayIndex => if is_day {
            Some(
                "- "@ + v.text_at("date"@) + " ["@ + count_at(v, "event_count"@) + "事件] "@
                    + v.text_at("day_title"@) + "\n"@,
            )
        } else {
            None
        },
        Card::MonthText => if is_day {
            Some(
                "## "@ + v.text_at("date"@) + " ["@ + count_at(v, "event_count"@) + "事件] "@
                    + v.text_at("day_title"@) + "\n关键词: "@ + listed(v, "keywords"@, "·"@)
                    + "\n→ "@ + v.text_at("drill"@) + "\n\n"@,
            )
        } else if is_main {
            Some(month_main(v))
        } else {
            None
        },
        Card::MonthHead => if is_main {
            Some(month_head(v))
        } else {
            None
        },
        Card::DayLine => if is_day {
            Some(
                "- "@ + v.text_at("date"@) + " ["@ + count_at(v, "event_count"@) + "事件] "@
                    + v.text_at("day_title"@) + points(
                    match v.array_at("top_events"@) {
                        Some(a) => strings_of(a),
                        None => Seq::empty(),
                    },
                ),
            )
        } else {
            None
        },
        Card::YearText => if is_month {
            Some(
                "## "@ + v.text_at("month"@) + " "@ + v.text_at("month_title"@) + "\n→ "@
                    + v.text_at("drill"@) + "\n"@,
            )
        } else if is_year {
            Some(
                "## 年度主线\n"@ + v.text_at("year_mainline"@) + "\n关键词: "@ + listed(
                    v,
                    "keywords"@,
                    "·"@,
                ) + "\n"@,
            )
        } else {
            None
        },
        Card::YearHead => if is_year {
            Some("年度主线: "@ + v.text_at("year_mainline"@) + "\n"@)
        } else {
            None
        },
        Card::MonthLine => if is_month {
            Some("- "@ + v.text_at("month"@) + " "@ + v.text_at("month_title"@))
        } else {
            None
        },
    }
}

fn write_event_line(v: &Json) -> (r: Option<String>)
    ensures
        opt_text(r) == event_line(v@),
{
    let hhmm = v.text_at("hhmm");
    let evt = v.text_at("evt");
    if hhmm.unicode_len() == 0 && evt.unicode_len() == 0 {
        return None;
    }
    let mut s = "- ".to_owned();
    s.push_str(hhmm);
    s.push_str(" ");
    s.push_str(evt);
    s.push_str(" [");
    s.push_str(v.text_at("type"));
    s.push_str("] ");
    s.push_str(v.text_at("title"));
    let detail = v.text_at("detail");
    if detail.unicode_len() > 0 {
        s.push_str("\n  ");
        s.push_str(detail);
    }
    Some(s)
}

fn write_month_head(v: &Json) -> (r: String)
    ensures
        r@ == month_head(v@),
{
    let outs = list_text(v, "key_outputs", " / ");
    let mut s = "月度主线: ".to_owned();
    s.push_str(v.text_at("mainline"));
    if outs.as_str().unicode_len() > 0 {
        s.push_str("\n关键产出: ");
        s.push_str(outs.as_str());
    }
    s.push_str("\n关键词: ");
    s.push_str(list_text(v, "keywords", "·").as_str());
    s.push_str("\n");
    s
}

fn write_month_main(v: &Json) -> (r: String)
    ensures
        r@ == month_main(v@),
{
    let mut s = "## 月度主线\n".to_owned();
    s.push_str(v.text_at("mainline"));
    s.push_str("\n关键产出: ");
    s.push_str(list_text(v, "key_outputs", " / ").as_str());
    s.push_str("\n关键词: ");
    s.push_str(list_text(v, "keywords", "·").as_str());
    s.push_str("\n");
    s
}

fn write_day_card(mark: &str, v: &Json) -> (r: String)
    ensures
        r@ == mark@ + v@.text_at("date"@) + " ["@ + count_at(v@, "event_count"@) + "事件] "@
            + v@.text_at("day_title"@),
{
    let mut s = mark.to_owned();
    s.push_str(v.text_at("date"));
    s.push_str(" [");
    s.push_str(count_text(v, "event_count").as_str());
    s.push_str("事件] ");
    s.push_str(v.text_at("day_title"));
    s
}

/// The card of a record.
#[verifier::rlimit(40)]
pub fn make_card(kind: Card, v: &Json) -> (r: Option<String>)
    ensures
        opt_text(r) == card(kind, v@),
{
    let is_day = v.is_at("type", "day");
    let is_main = v.is_at("type", "mainline");
    let is_month = v.is_at("type", "month");
    let is_year = v.is_at("type", "year_mainline");
    match kind {
        Card::EventIndex => {
            let mut s = "- ".to_owned();
            s.push_str(v.text_at("hhmm"));
            s.push_str(" [");
            s.push_str(v.text_at("type"));
            s.push_str("] ");
            s.push_str(v.text_at("title"));
            s.push_str(" — seq[");
            s.push_str(write_range(v).as_str());
            s.push_str("]\n");
            Some(s)
        },
        Card::EventText => {
            let mut s = "## ".to_owned();
            s.push_str(v.text_at("hhmm"));
            s.push_str(" ");
            s.push_str(v.text_at("evt"));
            s.push_str(" [");
            s.push_str(v.text_at("type"));
            s.push_str("] ");
            s.push_str(v.text_at("title"));
            s.push_str("\n详情: ");
            s.push_str(v.text_at("detail"));
            s.push_str("\n关键词: ");
            s.push_str(list_text(v, "keywords", "·").as_str());
            s.push_str("\n主语: ");
            s.push_str(v.text_at("subject"));
            s.push_str("\n对话索引: ");
            s.push_str(v.text_at("ref"));
            s.push_str("\n\n");
            Some(s)
        },
        Card::EventLine => write_event_line(v),
        Card::DayIndex => {
            if !is_day {
                return None;
            }
            let mut s = write_day_card("- ", v);
            s.push_str("\n");
            Some(s)
        },
        Card::MonthText => {
            if !is_day {
                return if is_main {
                    Some(write_month_main(v))
                } else {
                    None
                };
            }
            let mut s = write_day_card("## ", v);
            s.push_str("\n关键词: ");
            s.push_str(list_text(v, "keywords", "·").as_str());
            s.push_str("\n→ ");
            s.push_str(v.text_at("drill"));
            s.push_str("\n\n");
            Some(s)
        },
        Card::MonthHead => {
            if !is_main {
                return None;
            }
            Some(write_month_head(v))
        },
        Card::DayLine => {
            if !is_day {
                return None;
            }
            let mut s = write_day_card("- ", v);
            let tops = match v.array_at("top_events") {
                Some(a) => strings_in(a),
                None => Vec::new(),
            };
            proof {
                if v@.array_at("top_events"@) is None {
                    assert(texts(tops@) =~= Seq::empty());
                }
            }
            s.push_str(write_points(&tops).as_str());
            Some(s)
        },
        Card::YearText => {
            if is_month {
                let mut s = "## ".to_owned();
                s.push_str(v.text_at("month"));
                s.push_str(" ");
                s.push_str(v.text_at("month_title"));
                s.push_str("\n→ ");
                s.push_str(v.text_at("drill"));
                s.push_str("\n");
                return Some(s);
            }
            if !is_year {
                return None;
            }
            let mut s = "## 年度主线\n".to_owned();
            s.push_str(v.text_at("year_mainline"));
            s.push_str("\n关键词: ");
            s.push_str(list_text(v, "keywords", "·").as_str());
            s.push_str("\n");
            Some(s)
        },
        Card::YearHead => {
            if !is_year {
                return None;
            }
            let mut s = "年度主线: ".to_owned();
            s.push_str(v.text_at("year_mainline"));
            s.push_str("\n");
            Some(s)
        },
        Card::MonthLine => {
            if !is_month {
                return None;
            }
            let mut s = "- ".to_owned();
            s.push_str(v.text_at("month"));
            s.push_str(" ");
            s.push_str(v.text_at("month_title"));
            Some(s)
        },
    }
}

/// The cards of records, in their order.
pub open spec fn cards(kind: Card, v: Seq<JsonView>) -> Seq<Seq<char>>
    decreases v.len(),
{
    if v.len() == 0 {
        Seq::empty()
    } else {
        let head = cards(kind, v.drop_last());
        match card(kind, v.last()) {
            Some(c) => head.push(c),
            None => head,
        }
    }
}

/// The cards of records.
pub fn make_cards(kind: Card, v: &Vec<Json>) -> (r: Vec<String>)
    ensures
        texts(r@) == cards(kind, jsons(v@)),
{
    let ghost all = jsons(v@);
    let mut out: Vec<String> = Vec::new();
    let mut i: usize = 0;
    proof {
        lemma_jsons_len(v@);
        assert(all.take(0) =~= Seq::empty());
        assert(texts(out@) =~= Seq::empty());
    }
    while i < v.len()
        invariant
            all == jsons(v@),
            all.len() == v@.len(),
            i <= v@.len(),
            texts(out@) == cards(kind, all.take(i as int)),
        decreases v@.len() - i,
    {
        proof {
            lemma_jsons_at(v@, i as int);
            let x = all.take(i + 1);
            assert(x.drop_last() =~= all.take(i as int));
            assert(x.last() == v@[i as int]@);
        }
        if let Some(c) = make_card(kind, &v[i]) {
            let ghost before = texts(out@);
            out.push(c);
            assert(texts(out@) =~= before.push(c@));
        }
        i = i + 1;
    }
    assert(all.take(i as int) =~= all);
    out
}

/// Lines, each with a line feed behind it.
pub open spec fn ended(v: Seq<Seq<char>>) -> Seq<char>
    decreases v.len(),
{
    if v.len() == 0 {
        Seq::empty()
    } else {
        ended(v.drop_last()) + v.last() + "\n"@
    }
}

/// Lines, each with a line feed behind it.
pub fn end_lines(v: &Vec<String>) -> (r: String)
    ensures
        r@ == ended(texts(v@)),
{
    let ghost all = texts(v@);
    let mut s = String::new();
    let mut i: usize = 0;
    assert(all.take(0) =~= Seq::empty());
    while i < v.len()
        invariant
            all == texts(v@),
            i <= v@.len(),
            s@ == ended(all.take(i as int)),
        decreases v@.len() - i,
    {
        proof {
            let x = all.take(i + 1);
            assert(x.drop_last() =~= all.take(i as int));
            assert(x.last() == v@[i as int]@);
        }
        s.push_str(v[i].as_str());
        s.push_str("\n");
        i = i + 1;
    }
    assert(all.take(i as int) =~= all);
    s
}

} // verus!
