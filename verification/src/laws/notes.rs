//! What is written down as notes is read again: an event with all that is said of it,
//! and the items of a section.
use crate::notes::{
    after_word, first_word, heading, item_for, pointer, section_on, segment_line, segments_on,
    with_line, SegmentView,
};
use crate::text::{find, lemma_char_index_is, lemma_find_least, occurs_at, starts_with, strip_prefix};
use vstd::prelude::*;

verus! {

proof fn lemma_behind(p: Seq<char>, t: Seq<char>)
    ensures
        strip_prefix(p + t, p) == Some(t),
{
    assert((p + t).subrange(0, p.len() as int) =~= p);
    assert((p + t).skip(p.len() as int) =~= t);
}

proof fn lemma_not_behind(p: Seq<char>, q: Seq<char>, t: Seq<char>, i: int)
    requires
        0 <= i < p.len(),
        i < q.len(),
        p[i] != q[i],
    ensures
        strip_prefix(p + t, q) is None,
{
    if starts_with(p + t, q) {
        assert((p + t).subrange(0, q.len() as int)[i] == (p + t)[i]);
    }
}

proof fn lemma_marks()
    ensures
        "## "@.len() == 3 && "**主语**: "@.len() == 8 && "**详情**: "@.len() == 8
            && "**对话索引**: "@.len() == 10,
        "## "@[0] == '#' && "**主语**: "@[0] == '*' && "**详情**: "@[0] == '*'
            && "**对话索引**: "@[0] == '*',
        "**主语**: "@[2] == '主' && "**详情**: "@[2] == '详' && "**对话索引**: "@[2] == '对',
{
    reveal_strlit("## ");
    reveal_strlit("**主语**: ");
    reveal_strlit("**详情**: ");
    reveal_strlit("**对话索引**: ");
}

proof fn lemma_first_word(a: Seq<char>, b: Seq<char>)
    requires
        !a.contains(' '),
    ensures
        first_word(a + " "@ + b) == a,
        after_word(a + " "@ + b) == b,
{
    reveal_strlit(" ");
    let s = a + " "@ + b;
    let n = a.len() as int;
    assert(s[n] == ' ');
    assert forall|k: int| 0 <= k < n implies s[k] != ' ' by {
        assert(s[k] == a[k]);
        assert(a.contains(a[k]));
    }
    lemma_char_index_is(s, ' ', n);
    assert(s.take(n) =~= a);
    assert(s.skip(n + 1) =~= b);
}

/// An event that is written down with its time, its mark, its title, its subject, its
/// details and where it was said is read with each of these, behind the events before
/// it; its line in the index shows all of them.
pub proof fn lemma_event_read(
    v: Seq<Seq<char>>,
    hhmm: Seq<char>,
    mark: Seq<char>,
    title: Seq<char>,
    subject: Seq<char>,
    detail: Seq<char>,
    index: Seq<char>,
    date: Seq<char>,
)
    requires
        !hhmm.contains(' '),
        !mark.contains(' '),
        starts_with(mark, "evt-"@),
    ensures
        ({
            let w = v.push("## "@ + (hhmm + " "@ + (mark + " "@ + title))).push(
                "**主语**: "@ + subject,
            ).push("**详情**: "@ + detail).push("**对话索引**: "@ + index);
            let s = SegmentView { hhmm, title, subject, detail, index };
            &&& segments_on(w) == segments_on(v).push(s)
            &&& segment_line(date, s) == "- "@ + hhmm + " ["@ + subject + "] "@ + title + " — "@
                + detail + " → "@ + pointer(date, index)
        }),
{
    lemma_marks();
    let l0 = "## "@ + (hhmm + " "@ + (mark + " "@ + title));
    let l1 = "**主语**: "@ + subject;
    let l2 = "**详情**: "@ + detail;
    let l3 = "**对话索引**: "@ + index;
    let w0 = v.push(l0);
    let w1 = w0.push(l1);
    let w2 = w1.push(l2);
    let w3 = w2.push(l3);
    assert(w0.drop_last() =~= v);
    assert(w1.drop_last() =~= w0);
    assert(w2.drop_last() =~= w1);
    assert(w3.drop_last() =~= w2);
    let rest = mark + " "@ + title;
    lemma_first_word(hhmm, rest);
    lemma_first_word(mark, title);
    assert(starts_with(rest, "evt-"@)) by {
        let n = "evt-"@.len() as int;
        assert(rest.subrange(0, n) =~= mark.subrange(0, n));
    }
    lemma_behind("## "@, hhmm + " "@ + rest);
    lemma_behind("**主语**: "@, subject);
    lemma_behind("**详情**: "@, detail);
    lemma_behind("**对话索引**: "@, index);
    lemma_not_behind("**主语**: "@, "## "@, subject, 0);
    lemma_not_behind("**详情**: "@, "## "@, detail, 0);
    lemma_not_behind("**对话索引**: "@, "## "@, index, 0);
    lemma_not_behind("**详情**: "@, "**主语**: "@, detail, 2);
    lemma_not_behind("**对话索引**: "@, "**主语**: "@, index, 2);
    lemma_not_behind("**对话索引**: "@, "**详情**: "@, index, 2);
    let before = segments_on(v);
    let s0 = heading(hhmm + " "@ + rest);
    let s1 = SegmentView { subject, ..s0 };
    let s2 = SegmentView { detail, ..s1 };
    let s3 = SegmentView { index, ..s2 };
    assert(segments_on(w0) == before.push(s0));
    assert(with_line(before.push(s0), l1) =~= before.push(s1));
    assert(segments_on(w1) == before.push(s1));
    assert(with_line(before.push(s1), l2) =~= before.push(s2));
    assert(segments_on(w2) == before.push(s2));
    assert(with_line(before.push(s2), l3) =~= before.push(s3));
    assert(segments_on(w3) == before.push(s3));
    assert(s3 == (SegmentView { hhmm, title, subject, detail, index }));
}

/// Where an event was said is the day, and the range of it when one is noted.
pub proof fn lemma_pointer(date: Seq<char>, before: Seq<char>, range: Seq<char>)
    requires
        forall|k: int| 0 <= k < before.len() ==> !#[trigger] occurs_at(
            before + "#seq"@ + range,
            "#seq"@,
            k,
        ),
    ensures
        pointer(date, before + "#seq"@ + range) == date + "#seq"@ + range,
{
    let s = before + "#seq"@ + range;
    let n = before.len() as int;
    lemma_find_least(s, "#seq"@, 0);
    assert(s.subrange(n, n + "#seq"@.len()) =~= "#seq"@);
    assert(occurs_at(s, "#seq"@, n));
    assert(find(s, "#seq"@) == Some(n));
    assert(s.skip(n) =~= "#seq"@ + range);
    assert(date + ("#seq"@ + range) =~= date + "#seq"@ + range);
}

/// Below the heading of a section each line with a dash is one of its items, up to the
/// next heading; what stands below another heading is none.
pub proof fn lemma_section_read(v: Seq<Seq<char>>, head: Seq<char>, title: Seq<char>, item: Seq<char>)
    ensures
        ({
            let items = section_on(v, head).1;
            let line = "- "@ + item;
            let w = v.push("## "@ + title);
            &&& section_on(w, head).1 == items
            &&& crate::text::trim("## "@ + title) == head ==> section_on(w.push(line), head).1
                == items.push(line)
            &&& crate::text::trim("## "@ + title) != head ==> section_on(w.push(line), head).1
                == items
            &&& section_on(v.push(line), head).0 == section_on(v, head).0
            &&& section_on(v, head).0 ==> section_on(v.push(line), head).1 == items.push(line)
        }),
{
    reveal_strlit("## ");
    reveal_strlit("- ");
    let line = "- "@ + item;
    let w = v.push("## "@ + title);
    lemma_behind("## "@, title);
    lemma_behind("- "@, item);
    lemma_not_behind("- "@, "## "@, item, 0);
    assert(w.drop_last() =~= v);
    assert(w.push(line).drop_last() =~= w);
    assert(v.push(line).drop_last() =~= v);
    assert(w.last() == "## "@ + title && w.push(line).last() == line && v.push(line).last() == line);
    assert(section_on(w, head) == (crate::text::trim("## "@ + title) == head, section_on(v, head).1));
}

/// What an item with a name says is found, that of the first such item.
pub proof fn lemma_item_found(items: Seq<Seq<char>>, name: Seq<char>, text: Seq<char>, i: int)
    requires
        0 <= i < items.len(),
        items[i] == "- "@ + name + ": "@ + text,
        forall|k: int| 0 <= k < i ==> !starts_with(#[trigger] items[k], "- "@ + name + ": "@),
    ensures
        item_for(items, name) == Some(text),
    decreases items.len(),
{
    let t = items.drop_last();
    if i < t.len() {
        assert(t[i] == items[i]);
        assert forall|k: int| 0 <= k < i implies !starts_with(
            #[trigger] t[k],
            "- "@ + name + ": "@,
        ) by {
            assert(t[k] == items[k]);
        }
        lemma_item_found(t, name, text, i);
    } else {
        assert forall|k: int| 0 <= k < t.len() implies !starts_with(
            #[trigger] t[k],
            "- "@ + name + ": "@,
        ) by {
            assert(t[k] == items[k]);
        }
        lemma_item_none(t, name);
        lemma_behind("- "@ + name + ": "@, text);
    }
}

proof fn lemma_item_none(items: Seq<Seq<char>>, name: Seq<char>)
    requires
        forall|k: int|
            0 <= k < items.len() ==> !starts_with(#[trigger] items[k], "- "@ + name + ": "@),
    ensures
        item_for(items, name) is None,
    decreases items.len(),
{
    if items.len() > 0 {
        let t = items.drop_last();
        assert forall|k: int| 0 <= k < t.len() implies !starts_with(
            #[trigger] t[k],
            "- "@ + name + ": "@,
        ) by {
            assert(t[k] == items[k]);
        }
        lemma_item_none(t, name);
        assert(!starts_with(items[items.len() - 1], "- "@ + name + ": "@));
    }
}

} // verus!
