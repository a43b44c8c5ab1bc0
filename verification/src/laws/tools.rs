//! What tools and the board give back: what a command wrote, what a document says, what
//! timers and tasks were set to.
use super::{holds, member, says, text_in};
use crate::bash::{run_text, RunEnd};
use crate::decimal::{dec, dec_int};
use crate::extract::{
    after_xml, after_xml_events, document_text, unescaped, unread, DocView, XmlView,
};
use crate::jobs::{JobKind, JobView};
use crate::json::JsonView;
use crate::setup::{names_to_move, own_names, running_list};
use crate::tasks::{
    artifact_of, artifacts_of, blocker_of, blockers_of, check_of, checks_of, due_change,
    known_name,
};
use crate::text::{contains, find, lemma_contains_find, lemma_find_least, occurs_at, trim};
use crate::thinking::{
    block_end, in_tag, parted, strung, take_blocks, untagged, without_blocks, Taken,
};
use crate::timers::{lemma_timer_index, timer_index, with_timer, TimerView};
use vstd::prelude::*;
use vstd::utf8::{decode_utf8, encode_utf8, valid_utf8};

verus! {

// ---------------------------------------------------------------------------
// Commands
// ---------------------------------------------------------------------------

/// What is told of a command that ended: its exit code and all that it wrote, to both
/// outputs, as long as that is not too much.
pub proof fn lemma_command_told(end: RunEnd, max: int)
    ensures
        end matches RunEnd::Ended { code, stdout, stderr } ==> {
            let all = match stderr {
                Some(e) => stdout@ + "\n[stderr]\n"@ + e@,
                None => stdout@,
            };
            crate::cut::byte_len(trim(all)) <= max ==> run_text(end, max) == "退出码 "@ + dec_int(
                match code {
                    Some(c) => c as int,
                    None => -1,
                },
            ) + "\n"@ + trim(all)
        },
        end matches RunEnd::NotStarted(e) ==> run_text(end, max) == "启动失败: "@ + e@,
        end matches RunEnd::WaitFailed(e) ==> run_text(end, max) == "执行失败: "@ + e@,
        end matches RunEnd::TimedOut(secs) ==> run_text(end, max) == "超时（"@ + dec(secs as nat)
            + "s），已终止"@,
        end is Interrupted ==> run_text(end, max) == "用户中断，已终止"@,
{
}

/// Of a command that wrote too much the beginning is told, as much as fits, with a mark
/// behind it.
pub proof fn lemma_long_output_cut(s: Seq<char>, max: int, mark: Seq<char>)
    requires
        max >= 0,
        crate::cut::byte_len(s) > max,
    ensures
        ({
            let r = crate::cut::capped(s, max, mark);
            exists|n: int|
                0 <= n <= s.len() && r == #[trigger] s.take(n) + mark && crate::cut::byte_len(
                    s.take(n),
                ) <= max && forall|k: int|
                    n < k <= s.len() ==> crate::cut::byte_len(#[trigger] s.take(k)) > max
        }),
{
    crate::cut::lemma_fit(s, max);
    let n = crate::cut::fit(s, max) as int;
    assert(crate::cut::capped(s, max, mark) == s.take(n) + mark);
}

// ---------------------------------------------------------------------------
// Timers
// ---------------------------------------------------------------------------

/// A timer that is put in is there under its id with its settings: a new one counts from
/// now, one that was there from when it last fired; every other timer stays in its
/// place.
pub proof fn lemma_timer_put_in(
    v: Seq<TimerView>,
    task: TimerView,
    fresh: Seq<char>,
    now: u64,
    k: int,
)
    requires
        trim(task.task_id).len() > 0,
    ensures
        ({
            let w = with_timer(v, task, fresh, now);
            &&& (forall|j: int| 0 <= j < v.len() ==> (#[trigger] v[j]).task_id != task.task_id)
                ==> w.len() == v.len() + 1 && w.last().task_id == task.task_id && w.last().settings
                == task.settings && w.last().last_fired_ts == now && w.last().last_fired_date.len()
                == 0
            &&& 0 <= k < v.len() && v[k].task_id == task.task_id && (forall|j: int|
                0 <= j < k ==> (#[trigger] v[j]).task_id != task.task_id) ==> w.len() == v.len()
                && w[k].task_id == task.task_id && w[k].settings == task.settings
                && w[k].last_fired_ts == v[k].last_fired_ts && w[k].last_fired_date
                == v[k].last_fired_date
            &&& 0 <= k < v.len() && v[k].task_id != task.task_id ==> w[k] == v[k]
        }),
{
    lemma_timer_index(v, task.task_id);
    if let Some(i) = timer_index(v, task.task_id) {
        assert(v[i].task_id == task.task_id);
    }
}

/// A timer without an id gets the new one.
pub proof fn lemma_timer_named(v: Seq<TimerView>, task: TimerView, fresh: Seq<char>, now: u64)
    requires
        trim(task.task_id).len() == 0,
        forall|j: int| 0 <= j < v.len() ==> (#[trigger] v[j]).task_id != fresh,
    ensures
        ({
            let w = with_timer(v, task, fresh, now);
            w.len() == v.len() + 1 && w.last().task_id == fresh && w.last().settings
                == task.settings && w.last().last_fired_ts == now
        }),
{
    lemma_timer_index(v, fresh);
}

// ---------------------------------------------------------------------------
// Tasks
// ---------------------------------------------------------------------------

/// What the board reads of the lists of a task: of a point its text, whether it is done
/// and what shows it; of a blocker its reason, its time and whether it is resolved; of
/// an artifact what it refers to.
pub proof fn lemma_task_items(x: JsonView, text: Seq<char>, n: i64)
    ensures
        says(x, "text"@, text) ==> (check_of(x) matches Some(c) && c.text == text && (c.done
            <==> holds(x, "done"@, JsonView::Bool(true))) && c.evidence == text_in(
            x,
            "evidence"@,
        )),
        text_in(x, "text"@) is None ==> check_of(x) is None,
        says(x, "reason"@, text) ==> (blocker_of(x) matches Some(b) && b.reason == text && (
        b.resolved <==> holds(x, "resolved"@, JsonView::Bool(true))) && (holds(
            x,
            "raised_at"@,
            JsonView::Int(n),
        ) ==> b.raised_at == n) && (member(x, "raised_at"@) is None ==> b.raised_at == 0)),
        says(x, "reference"@, text) ==> (artifact_of(x) matches Some(a) && a.reference == text
            && a.note == text_in(x, "note"@) && (text_in(x, "kind"@) is Some ==> a.kind == text_in(
            x,
            "kind"@,
        )->0) && (text_in(x, "kind"@) is None ==> a.kind == "file"@)),
{
}

/// The items of a list are read in their order, and each that can be read is.
pub proof fn lemma_items_in_order(v: Seq<JsonView>)
    requires
        forall|i: int| 0 <= i < v.len() ==> text_in(#[trigger] v[i], "text"@) is Some,
    ensures
        checks_of(v).len() == v.len(),
        forall|i: int|
            0 <= i < v.len() ==> Some(#[trigger] checks_of(v)[i].text) == text_in(v[i], "text"@),
    decreases v.len(),
{
    if v.len() > 0 {
        let t = v.drop_last();
        assert(text_in(v[v.len() - 1], "text"@) is Some);
        assert forall|i: int| 0 <= i < t.len() implies text_in(#[trigger] t[i], "text"@) is Some by {
            assert(t[i] == v[i]);
        }
        lemma_items_in_order(t);
        assert forall|i: int| 0 <= i < v.len() implies Some(#[trigger] checks_of(v)[i].text)
            == text_in(v[i], "text"@) by {
            if i < t.len() {
                assert(checks_of(v)[i] == checks_of(t)[i]);
                assert(t[i] == v[i]);
            }
        }
    }
}

/// A blocker or an artifact that can be read is among those that are.
pub proof fn lemma_items_read(v: Seq<JsonView>, i: int)
    requires
        0 <= i < v.len(),
    ensures
        blocker_of(v[i]) matches Some(b) ==> blockers_of(v).contains(b),
        artifact_of(v[i]) matches Some(a) ==> artifacts_of(v).contains(a),
    decreases v.len(),
{
    let t = v.drop_last();
    if i < t.len() {
        assert(t[i] == v[i]);
        lemma_items_read(t, i);
    }
    if let Some(b) = blocker_of(v[i]) {
        let all = blockers_of(v);
        if i < t.len() {
            let head = blockers_of(t);
            let k: int = choose|k: int| 0 <= k < head.len() && head[k] == b;
            assert(all[k] == b);
        } else {
            assert(all[all.len() - 1] == b);
        }
    }
    if let Some(a) = artifact_of(v[i]) {
        let all = artifacts_of(v);
        if i < t.len() {
            let head = artifacts_of(t);
            let k: int = choose|k: int| 0 <= k < head.len() && head[k] == a;
            assert(all[k] == a);
        } else {
            assert(all[all.len() - 1] == a);
        }
    }
}

/// A due date is taken away when that is asked for, set when a date is given, and left
/// alone otherwise; a name counts when the board knows it, and only then.
pub proof fn lemma_task_changes(p: JsonView, n: i64, name: Seq<char>, known: Seq<Seq<char>>)
    ensures
        holds(p, "clear_due"@, JsonView::Bool(true)) ==> due_change(p) == Some(None::<i64>),
        !holds(p, "clear_due"@, JsonView::Bool(true)) && holds(
            p,
            "due_date"@,
            JsonView::Int(n),
        ) ==> due_change(p) == Some(Some(n)),
        !holds(p, "clear_due"@, JsonView::Bool(true)) && member(p, "due_date"@) is None
            ==> due_change(p) is None,
        known.contains(name) ==> known_name(Some(name), known) == Some(name),
        !known.contains(name) ==> known_name(Some(name), known) is None,
{
}

// ---------------------------------------------------------------------------
// Setting up
// ---------------------------------------------------------------------------

/// A file moves from the user's files to the program's own exactly when it is one of the
/// program's, stands among the user's and not yet among its own.
pub proof fn lemma_moved(user: Seq<Seq<char>>, own: Seq<Seq<char>>, name: Seq<char>)
    ensures
        names_to_move(user, own).contains(name) <==> own_names().contains(name) && user.contains(
            name,
        ) && !own.contains(name),
{
    let p = |n: Seq<char>| user.contains(n) && !own.contains(n);
    let all = own_names();
    if all.contains(name) && user.contains(name) && !own.contains(name) {
        let i: int = choose|i: int| 0 <= i < all.len() && all[i] == name;
        all.lemma_filter_contains(p, i);
    }
    if names_to_move(user, own).contains(name) {
        all.lemma_filter_contains_rev(p, name);
        let k: int = choose|k: int| 0 <= k < all.filter(p).len() && all.filter(p)[k] == name;
        all.lemma_filter_pred(p, k);
    }
}

/// Before the window closes every job that still runs is named, with its id and label,
/// and no other.
pub proof fn lemma_running_named(v: Seq<JobView>, i: int)
    ensures
        0 <= i < v.len() && v[i].status is Running ==> exists|k: int|
            0 <= k < running_list(v).len() && says(#[trigger] running_list(v)[k], "id"@, v[i].id)
                && says(running_list(v)[k], "label"@, v[i].label) && says(
                running_list(v)[k],
                "kind"@,
                match v[i].kind {
                    JobKind::Process => "process"@,
                    JobKind::Agent => "agent"@,
                },
            ),
        running_list(v).len() == v.filter(|j: JobView| j.status is Running).len(),
    decreases v.len(),
{
    reveal(Seq::filter);
    reveal_strlit("id");
    reveal_strlit("label");
    reveal_strlit("kind");
    assert("id"@.len() == 2 && "label"@.len() == 5 && "kind"@.len() == 4);
    if v.len() > 0 {
        let t = v.drop_last();
        let all = running_list(v);
        let head = running_list(t);
        lemma_running_named(t, i);
        if 0 <= i < v.len() && v[i].status is Running {
            if i < t.len() {
                assert(t[i] == v[i]);
                let k: int = choose|k: int|
                    0 <= k < head.len() && says(#[trigger] head[k], "id"@, t[i].id) && says(
                        head[k],
                        "label"@,
                        t[i].label,
                    ) && says(
                        head[k],
                        "kind"@,
                        match t[i].kind {
                            JobKind::Process => "process"@,
                            JobKind::Agent => "agent"@,
                        },
                    );
                assert(all[k] == head[k]);
            } else {
                assert(says(all[all.len() - 1], "id"@, v[i].id));
            }
        }
    }
}

// ---------------------------------------------------------------------------
// Documents
// ---------------------------------------------------------------------------

proof fn lemma_tags()
    ensures
        encode_utf8("w:t"@) != encode_utf8("w:p"@),
        encode_utf8("w:tab"@) != encode_utf8("w:p"@),
        encode_utf8("w:br"@) != encode_utf8("w:p"@),
        encode_utf8("w:tab"@) != encode_utf8("w:br"@),
{
    reveal_strlit("w:t");
    reveal_strlit("w:p");
    reveal_strlit("w:tab");
    reveal_strlit("w:br");
    vstd::utf8::encode_utf8_decode_utf8("w:t"@);
    vstd::utf8::encode_utf8_decode_utf8("w:p"@);
    vstd::utf8::encode_utf8_decode_utf8("w:tab"@);
    vstd::utf8::encode_utf8_decode_utf8("w:br"@);
    assert("w:t"@[2] == 't' && "w:p"@[2] == 'p' && "w:tab"@.len() == 5 && "w:br"@.len() == 4);
    assert("w:t"@.len() == 3 && "w:p"@.len() == 3);
}

/// What a piece of text in a document says comes behind what was read before, whole;
/// what stands outside of such pieces is left out; a paragraph ends the line, a break
/// does too, and a tab is a space.
pub proof fn lemma_document_pieces(d: DocView, bytes: Seq<u8>, said: Seq<char>)
    requires
        !d.in_text,
        valid_utf8(bytes),
        unescaped(decode_utf8(bytes)) == Some(said),
    ensures
        after_xml(
            after_xml(
                after_xml(d, XmlView::Start(encode_utf8("w:t"@))),
                XmlView::Text(bytes),
            ),
            XmlView::End(encode_utf8("w:t"@)),
        ) == (DocView { out: d.out + said, in_text: false }),
        after_xml(d, XmlView::Text(bytes)) == d,
        d.out.len() > 0 ==> after_xml(d, XmlView::End(encode_utf8("w:p"@))) == (DocView {
            out: d.out.push('\n'),
            ..d
        }),
        d.out.len() == 0 ==> after_xml(d, XmlView::End(encode_utf8("w:p"@))) == d,
        d.out.len() > 0 ==> after_xml(
            d,
            XmlView::Start(encode_utf8("w:p"@)),
        ) == (DocView { out: d.out.push('\n'), ..d }) && after_xml(
            d,
            XmlView::Empty(encode_utf8("w:p"@)),
        ) == (DocView { out: d.out.push('\n'), ..d }),
        after_xml(d, XmlView::Empty(encode_utf8("w:br"@))) == (DocView {
            out: d.out.push('\n'),
            ..d
        }),
        after_xml(d, XmlView::Empty(encode_utf8("w:tab"@))) == (DocView {
            out: d.out.push(' '),
            ..d
        }),
{
    lemma_tags();
}

/// The text of a document is what the events come to, one after the other, without the
/// blanks at its ends.
pub proof fn lemma_document_read(v: Seq<XmlView>, e: XmlView)
    ensures
        document_text(v.push(e)) == trim(after_xml(after_xml_events(unread(), v), e).out),
        document_text(Seq::empty()).len() == 0,
{
    lemma_events_push(unread(), v, e);
}

proof fn lemma_events_push(d: DocView, v: Seq<XmlView>, e: XmlView)
    ensures
        after_xml_events(d, v.push(e)) == after_xml(after_xml_events(d, v), e),
    decreases v.len(),
{
    if v.len() == 0 {
        assert(v.push(e).skip(1) =~= Seq::<XmlView>::empty());
        reveal_with_fuel(after_xml_events, 2);
    } else {
        assert(v.push(e).skip(1) =~= v.skip(1).push(e));
        assert(v.push(e)[0] == v[0]);
        lemma_events_push(after_xml(d, v[0]), v.skip(1), e);
    }
}

// ---------------------------------------------------------------------------
// Thoughts
// ---------------------------------------------------------------------------

proof fn lemma_first_mark(a: Seq<char>, m: char, b: Seq<char>)
    requires
        !a.contains(m),
    ensures
        find(a + seq![m] + b, seq![m]) == Some(a.len() as int),
{
    let s = a + seq![m] + b;
    let n = a.len() as int;
    lemma_find_least(s, seq![m], 0);
    assert(s.subrange(n, n + 1) =~= seq![m]);
    assert(occurs_at(s, seq![m], n));
    let i = find(s, seq![m])->0;
    if i < n {
        assert(s.subrange(i, i + 1)[0] == s[i]);
        assert(s[i] == a[i]);
        assert(a.contains(a[i]));
    }
}

proof fn lemma_no_mark(a: Seq<char>, m: char)
    requires
        !a.contains(m),
    ensures
        find(a, seq![m]) is None,
{
    lemma_find_least(a, seq![m], 0);
    if let Some(i) = find(a, seq![m]) {
        assert(a.subrange(i, i + 1)[0] == a[i]);
        assert(a.contains(a[i]));
    }
}

proof fn lemma_untagged_plain(t: Seq<char>)
    requires
        !t.contains('<'),
        !t.contains('>'),
    ensures
        untagged(t) == t,
        !in_tag(t),
    decreases t.len(),
{
    if t.len() > 0 {
        let u = t.drop_last();
        assert(t.contains(t[t.len() - 1]));
        assert forall|i: int| 0 <= i < u.len() implies u[i] != '<' && u[i] != '>' by {
            assert(t.contains(t[i]));
        }
        lemma_untagged_plain(u);
        assert(u.push(t.last()) =~= t);
    } else {
        assert(untagged(t) =~= t);
    }
}

/// A thought that stands between two ellipses goes to the thoughts, as it is, and the
/// answer is what stands around it.
pub proof fn lemma_thought_parted(a: Seq<char>, t: Seq<char>, b: Seq<char>)
    requires
        !a.contains('…'),
        !t.contains('…'),
        !b.contains('…'),
        !t.contains('<'),
        !t.contains('>'),
        !contains(a + b, "<details"@),
    ensures
        ({
            let p = parted(a + seq!['…'] + (t + seq!['…'] + b));
            p.answer == trim(a + b) && p.thoughts == trim(t)
        }),
{
    reveal_strlit("…");
    reveal_strlit("");
    let m = seq!['…'];
    assert("…"@ =~= m);
    let rest = t + m + b;
    let s = a + m + rest;
    lemma_first_mark(a, '…', rest);
    lemma_first_mark(t, '…', b);
    lemma_no_mark(b, '…');
    assert(s.take(a.len() as int) =~= a);
    assert(s.skip(a.len() as int + 1) =~= rest);
    assert(rest.take(t.len() as int) =~= t);
    assert(rest.skip(t.len() as int + 1) =~= b);
    assert(contains(t, ""@)) by {
        assert(t.subrange(0, 0) =~= ""@);
        assert(occurs_at(t, ""@, 0));
    }
    reveal_with_fuel(take_blocks, 3);
    let none = Seq::<Seq<char>>::empty();
    let x = take_blocks(b, m, m, ""@);
    assert(x == (Taken { kept: b, taken: none }));
    let y = take_blocks(s, m, m, ""@);
    assert(y.kept == a + b);
    assert(y.taken =~= seq![t]);
    lemma_contains_find(a + b, "<details"@);
    reveal_with_fuel(strung, 2);
    assert(seq![t].drop_last() =~= none);
    assert(strung(seq![t]) == t);
    lemma_untagged_plain(t);
    let e = Seq::<char>::empty();
    assert(strung(none) == e);
    assert(untagged(e) == e);
    assert(trim(e).len() == 0);
}

/// A block of thoughts is left out of a text, from where it opens to behind where it
/// closes; what stands before it and behind it stays, and what is opened and never closed
/// is left out to the end.
pub proof fn lemma_block_left_out(a: Seq<char>, b: Seq<char>, c: Seq<char>)
    requires
        forall|k: int| 0 <= k < a.len() ==> !#[trigger] occurs_at(
            a + ("<think"@ + b),
            "<think"@,
            k,
        ),
    ensures
        ({
            let inner = "<think"@ + b;
            &&& !contains(inner, "</think"@) ==> without_blocks(
                a + inner,
                "<think"@,
                "</think"@,
            ) == a
            &&& b.len() >= c.len() + 8 && b.skip(b.len() - c.len() - 8) == "</think>"@ + c && (
            forall|k: int|
                0 <= k < inner.len() - c.len() - 8 ==> !#[trigger] occurs_at(
                    inner,
                    "</think"@,
                    k,
                )) ==> without_blocks(a + inner, "<think"@, "</think"@) == a + without_blocks(
                c,
                "<think"@,
                "</think"@,
            )
        }),
{
    reveal_strlit("<think");
    reveal_strlit("</think");
    reveal_strlit("</think>");
    let open = "<think"@;
    let close = "</think"@;
    let inner = open + b;
    let s = a + inner;
    let n = a.len() as int;
    assert(s.subrange(n, n + 6) =~= open);
    assert(occurs_at(s, open, n));
    lemma_find_least(s, open, 0);
    assert(find(s, open) == Some(n));
    assert(s.skip(n) =~= inner);
    assert(s.take(n) =~= a);
    lemma_contains_find(inner, close);
    if b.len() >= c.len() + 8 && b.skip(b.len() - c.len() - 8) == "</think>"@ + c && (forall|k: int|
        0 <= k < inner.len() - c.len() - 8 ==> !#[trigger] occurs_at(inner, close, k)) {
        let m = inner.len() - c.len() - 8;
        let tail = "</think>"@ + c;
        assert forall|k: int| 0 <= k < tail.len() implies #[trigger] inner[m + k] == tail[k] by {
            assert(b.skip(b.len() - c.len() - 8)[k] == tail[k]);
        }
        assert(inner.subrange(m, m + 7) =~= close) by {
            assert forall|k: int| 0 <= k < 7 implies inner.subrange(m, m + 7)[k] == close[k] by {
                assert(inner[m + k] == tail[k]);
            }
        }
        assert(occurs_at(inner, close, m));
        lemma_find_least(inner, close, 0);
        assert(find(inner, close) == Some(m));
        assert(inner[m + 7] == tail[7]);
        assert(block_end(inner, m, close) == m + 8);
        assert(inner.skip(m + 8) =~= c) by {
            assert forall|k: int| 0 <= k < c.len() implies inner.skip(m + 8)[k] == c[k] by {
                assert(inner[m + (8 + k)] == tail[8 + k]);
            }
        }
    }
}

} // verus!
