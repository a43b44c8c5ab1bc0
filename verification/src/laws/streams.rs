//! What a streamed reply comes to: nothing that the stream says is lost, doubled or
//! given to another call.
use super::{holds, is_call, is_saying, lacks, lemma_members, list_in, member, says, text_in};
use crate::decimal::dec;
use crate::json::JsonView;
use crate::lines::split;
use crate::sse::{
    after_event, after_lines, after_text, built_calls, concat, data_payload, event_pieces,
    in_index_order, lemma_chunks, lemma_pushed_order, line_event, line_pieces, lines_pieces,
    new_stream, nothing_heard, pushed, round_of, text_pieces, thoughts, with_pieces,
    without_returns, DeltaView, FinishReason, HeardView, PartView, StreamView,
};
use crate::text::{lemma_char_index, lemma_char_index_is};
use crate::wire::{json_read, Reading};
use vstd::prelude::*;

verus! {

// ---------------------------------------------------------------------------
// What the events say
// ---------------------------------------------------------------------------

/// The delta of an event's first choice.
pub open spec fn delta_in(o: JsonView) -> JsonView {
    let v = list_in(o, "choices"@);
    if v.len() > 0 {
        match member(v[0], "delta"@) {
            Some(d) => d,
            None => JsonView::Null,
        }
    } else {
        JsonView::Null
    }
}

/// All that the deltas of events list under a name, in their order.
pub open spec fn listed(events: Seq<JsonView>, key: Seq<char>) -> Seq<JsonView>
    decreases events.len(),
{
    if events.len() == 0 {
        Seq::empty()
    } else {
        listed(events.drop_last(), key) + list_in(delta_in(events.last()), key)
    }
}

/// The texts under a name of values, joined.
pub open spec fn joined(v: Seq<JsonView>, key: Seq<char>) -> Seq<char>
    decreases v.len(),
{
    if v.len() == 0 {
        Seq::empty()
    } else {
        joined(v.drop_last(), key) + match text_in(v.last(), key) {
            Some(s) => s,
            None => Seq::empty(),
        }
    }
}

/// The last text under a name that any of the values has.
pub open spec fn last_text(v: Seq<JsonView>, key: Seq<char>) -> Option<Seq<char>>
    decreases v.len(),
{
    if v.len() == 0 {
        None
    } else {
        match text_in(v.last(), key) {
            Some(s) => Some(s),
            None => last_text(v.drop_last(), key),
        }
    }
}

/// A piece of the call at an index: it names the index, or none and the index is zero.
pub open spec fn is_of(piece: JsonView, i: usize) -> bool {
    holds(piece, "index"@, JsonView::Uint(i as u64)) || i == 0 && lacks(piece, "index"@)
}

/// The pieces of the call at an index, and no others.
pub open spec fn pieces_of(v: Seq<JsonView>, i: usize) -> Seq<JsonView> {
    v.filter(|p: JsonView| is_of(p, i))
}

/// What pieces say of the function that they call.
pub open spec fn functions(v: Seq<JsonView>) -> Seq<JsonView> {
    v.map_values(
        |p: JsonView|
            match member(p, "function"@) {
                Some(f) => f,
                None => JsonView::Null,
            },
    )
}

/// What has been heard after events, one after another.
pub open spec fn after_events(h: HeardView, events: Seq<JsonView>) -> HeardView
    decreases events.len(),
{
    if events.len() == 0 {
        h
    } else {
        after_event(after_events(h, events.drop_last()), events.last())
    }
}

// ---------------------------------------------------------------------------
// Parts
// ---------------------------------------------------------------------------

/// The part at an index.
spec fn part_at(v: Seq<PartView>, i: usize) -> Option<PartView>
    decreases v.len(),
{
    if v.len() == 0 {
        None
    } else if v.last().index == i {
        Some(v.last())
    } else {
        part_at(v.drop_last(), i)
    }
}

proof fn lemma_order_head(v: Seq<PartView>)
    requires
        in_index_order(v),
        v.len() > 0,
    ensures
        in_index_order(v.drop_last()),
        forall|k: int| 0 <= k < v.len() - 1 ==> (#[trigger] v[k]).index < v.last().index,
{
    let t = v.drop_last();
    assert forall|i: int, j: int| 0 <= i < j < t.len() implies (#[trigger] t[i]).index < (
    #[trigger] t[j]).index by {
        assert(t[i] == v[i] && t[j] == v[j]);
    }
    assert forall|k: int| 0 <= k < v.len() - 1 implies (#[trigger] v[k]).index
        < v.last().index by {
        assert(v[k].index < v[v.len() - 1].index);
    }
}

proof fn lemma_part_beyond(v: Seq<PartView>, i: usize)
    requires
        in_index_order(v),
        v.len() == 0 || v.last().index < i,
    ensures
        part_at(v, i) is None,
    decreases v.len(),
{
    if v.len() > 0 {
        lemma_order_head(v);
        let t = v.drop_last();
        if t.len() > 0 {
            assert(t.last() == v[t.len() - 1]);
        }
        lemma_part_beyond(t, i);
    }
}

proof fn lemma_pushed_part(
    v: Seq<PartView>,
    n: usize,
    id: Option<Seq<char>>,
    name: Option<Seq<char>>,
    args: Option<Seq<char>>,
    i: usize,
)
    requires
        in_index_order(v),
    ensures
        ({
            let w = pushed(v, n, id, name, args);
            let none = PartView { index: n, id: None, name: None, args: Seq::empty() };
            let old_part = match part_at(v, n) {
                Some(p) => p,
                None => none,
            };
            if i == n {
                part_at(w, i) == Some(
                    PartView {
                        index: n,
                        id: if id is Some {
                            id
                        } else {
                            old_part.id
                        },
                        name: if name is Some {
                            name
                        } else {
                            old_part.name
                        },
                        args: old_part.args + match args {
                            Some(a) => a,
                            None => Seq::empty(),
                        },
                    },
                )
            } else {
                part_at(w, i) == part_at(v, i)
            }
        }),
    decreases v.len(),
{
    let w = pushed(v, n, id, name, args);
    if v.len() == 0 || v.last().index < n {
        lemma_part_beyond(v, n);
        assert(w.drop_last() =~= v);
    } else if v.last().index == n {
        assert(w.drop_last() =~= v.drop_last());
    } else {
        lemma_order_head(v);
        lemma_pushed_part(v.drop_last(), n, id, name, args, i);
        assert(w.drop_last() =~= pushed(v.drop_last(), n, id, name, args));
    }
}

/// What has come in of one call after pieces, given what had come in before them.
spec fn part_after(before: Option<PartView>, v: Seq<JsonView>, i: usize) -> Option<PartView> {
    let own = pieces_of(v, i);
    let base = match before {
        Some(p) => p,
        None => PartView { index: i, id: None, name: None, args: Seq::empty() },
    };
    if own.len() == 0 {
        before
    } else {
        let id = last_text(own, "id"@);
        let name = last_text(functions(own), "name"@);
        Some(
            PartView {
                index: i,
                id: if id is Some {
                    id
                } else {
                    base.id
                },
                name: if name is Some {
                    name
                } else {
                    base.name
                },
                args: base.args + joined(functions(own), "arguments"@),
            },
        )
    }
}

/// A piece that says where it belongs.
pub open spec fn is_placed(piece: JsonView) -> bool {
    exists|i: usize| #[trigger] is_of(piece, i)
}

/// A piece that belongs to an index below `n`.
pub open spec fn is_below(piece: JsonView, n: usize) -> bool {
    exists|i: usize| i < n && #[trigger] is_of(piece, i)
}

proof fn lemma_functions_push(v: Seq<JsonView>, p: JsonView)
    ensures
        functions(v.push(p)).drop_last() == functions(v),
        functions(v.push(p)).last() == (match member(p, "function"@) {
            Some(f) => f,
            None => JsonView::Null,
        }),
{
    assert(functions(v.push(p)).drop_last() =~= functions(v));
}

proof fn lemma_pieces_part(parts: Seq<PartView>, v: Seq<JsonView>, i: usize)
    requires
        in_index_order(parts),
        forall|k: int| 0 <= k < v.len() ==> is_placed(#[trigger] v[k]),
    ensures
        in_index_order(with_pieces(parts, v)),
        part_at(with_pieces(parts, v), i) == part_after(part_at(parts, i), v, i),
    decreases v.len(),
{
    reveal(Seq::filter);
    let f = |p: JsonView| is_of(p, i);
    if v.len() > 0 {
        let u = v.drop_last();
        let tc = v.last();
        assert(is_placed(v[v.len() - 1]));
        let n: usize = choose|n: usize| is_of(tc, n);
        assert forall|k: int| 0 <= k < u.len() implies is_placed(#[trigger] u[k]) by {
            assert(u[k] == v[k]);
        }
        lemma_pieces_part(parts, u, i);
        let before = with_pieces(parts, u);
        let id = text_in(tc, "id"@);
        let fun = match member(tc, "function"@) {
            Some(f) => f,
            None => JsonView::Null,
        };
        let name = text_in(fun, "name"@);
        let args = text_in(fun, "arguments"@);
        assert(crate::sse::piece_index(tc) == n);
        assert(with_pieces(parts, v) == pushed(before, n, id, name, args));
        lemma_pushed_order(before, n, id, name, args);
        lemma_pushed_part(before, n, id, name, args, i);
        assert(is_of(tc, i) <==> i == n);
        assert(v.filter(f) == if f(tc) {
            u.filter(f).push(tc)
        } else {
            u.filter(f)
        });
        if i == n {
            let own = pieces_of(u, i);
            assert(pieces_of(v, i) == own.push(tc));
            assert(own.push(tc).drop_last() =~= own);
            lemma_functions_push(own, tc);
            if own.len() == 0 {
                assert(functions(own) =~= Seq::empty());
            }
            let w = part_after(part_at(parts, i), v, i)->0;
            let got = part_at(with_pieces(parts, v), i)->0;
            assert(got.args =~= w.args);
        } else {
            assert(pieces_of(v, i) == pieces_of(u, i));
        }
    }
}

proof fn lemma_pieces_add(parts: Seq<PartView>, a: Seq<JsonView>, b: Seq<JsonView>)
    ensures
        with_pieces(parts, a + b) == with_pieces(with_pieces(parts, a), b),
    decreases b.len(),
{
    if b.len() == 0 {
        assert(a + b =~= a);
    } else {
        lemma_pieces_add(parts, a, b.drop_last());
        assert((a + b).drop_last() =~= a + b.drop_last());
    }
}

proof fn lemma_event_calls(h: HeardView, o: JsonView)
    ensures
        after_event(h, o).calls == with_pieces(h.calls, list_in(delta_in(o), "tool_calls"@)),
{
}

proof fn lemma_events_calls(events: Seq<JsonView>)
    ensures
        after_events(nothing_heard(), events).calls == with_pieces(
            Seq::empty(),
            listed(events, "tool_calls"@),
        ),
    decreases events.len(),
{
    if events.len() > 0 {
        let t = events.drop_last();
        lemma_events_calls(t);
        lemma_event_calls(after_events(nothing_heard(), t), events.last());
        lemma_pieces_add(
            Seq::empty(),
            listed(t, "tool_calls"@),
            list_in(delta_in(events.last()), "tool_calls"@),
        );
    }
}

proof fn lemma_part_of(v: Seq<PartView>, k: int)
    requires
        in_index_order(v),
        0 <= k < v.len(),
    ensures
        part_at(v, v[k].index) == Some(v[k]),
    decreases v.len(),
{
    lemma_order_head(v);
    if k < v.len() - 1 {
        assert(v.drop_last()[k] == v[k]);
        lemma_part_of(v.drop_last(), k);
    }
}

proof fn lemma_parts_all(v: Seq<PartView>, n: int)
    requires
        in_index_order(v),
        0 <= n <= usize::MAX,
        forall|i: usize| part_at(v, i) is Some <==> i < n,
    ensures
        v.len() == n,
        forall|k: int| 0 <= k < n ==> Some(#[trigger] v[k]) == part_at(v, k as usize),
    decreases n,
{
    if n == 0 {
        if v.len() > 0 {
            lemma_part_of(v, 0);
            assert(part_at(v, v[0].index) is Some);
        }
    } else {
        let m: usize = (n - 1) as usize;
        assert(part_at(v, m) is Some);
        assert(v.len() > 0);
        lemma_order_head(v);
        lemma_part_of(v, v.len() - 1);
        assert(v.last().index <= m);
        if v.last().index < m {
            lemma_part_beyond(v, m);
        }
        let t = v.drop_last();
        if t.len() > 0 {
            assert(t.last() == v[t.len() - 1]);
        }
        lemma_part_beyond(t, m);
        assert forall|i: usize| part_at(t, i) is Some <==> i < n - 1 by {
            if i == m {
            } else {
                assert(part_at(v, i) == part_at(t, i));
            }
        }
        lemma_parts_all(t, n - 1);
        assert forall|k: int| 0 <= k < n implies Some(#[trigger] v[k]) == part_at(
            v,
            k as usize,
        ) by {
            if k < n - 1 {
                assert(t[k] == v[k]);
            }
        }
    }
}

proof fn lemma_all_built(v: Seq<PartView>)
    requires
        forall|k: int|
            0 <= k < v.len() ==> (#[trigger] v[k]).name is Some && v[k].name->0.len() > 0,
    ensures
        built_calls(v).len() == v.len(),
        forall|k: int|
            0 <= k < v.len() ==> Some(#[trigger] built_calls(v)[k]) == crate::sse::built_call(
                v[k],
            ),
    decreases v.len(),
{
    if v.len() > 0 {
        let t = v.drop_last();
        assert forall|k: int| 0 <= k < t.len() implies (#[trigger] t[k]).name is Some
            && t[k].name->0.len() > 0 by {
            assert(t[k] == v[k]);
        }
        assert(v[v.len() - 1].name is Some);
        lemma_all_built(t);
        assert forall|k: int| 0 <= k < v.len() implies Some(#[trigger] built_calls(v)[k])
            == crate::sse::built_call(v[k]) by {
            if k < t.len() {
                assert(built_calls(t)[k] == built_calls(v)[k]);
                assert(t[k] == v[k]);
            }
        }
    }
}

// ---------------------------------------------------------------------------
// Laws
// ---------------------------------------------------------------------------

/// The id of the call at an index: the one that its pieces give, or one made from the
/// index.
pub open spec fn id_for(own: Seq<JsonView>, i: int) -> Seq<char> {
    match last_text(own, "id"@) {
        Some(s) => if s.len() > 0 {
            s
        } else {
            "call_synth_"@ + dec(i as nat)
        },
        None => "call_synth_"@ + dec(i as nat),
    }
}

/// The call at an index, as the pieces of that index and no others say it.
pub open spec fn call_from(c: JsonView, pieces: Seq<JsonView>, i: int) -> bool {
    let own = pieces_of(pieces, i as usize);
    &&& last_text(functions(own), "name"@) matches Some(name) && is_call(
        c,
        id_for(own, i),
        name,
        joined(functions(own), "arguments"@),
    )
    &&& says(c, "type"@, "function"@)
}

/// A reply whose pieces name the indices below `n`, each with a name, comes to `n`
/// calls: the one at `i` has the id, the name and the joined arguments of the pieces
/// with index `i`, and nothing of any other.
pub proof fn lemma_calls_by_index(events: Seq<JsonView>, n: usize)
    requires
        forall|k: int|
            0 <= k < listed(events, "tool_calls"@).len() ==> is_below(
                #[trigger] listed(events, "tool_calls"@)[k],
                n,
            ),
        forall|i: usize|
            i < n ==> (last_text(
                functions(#[trigger] pieces_of(listed(events, "tool_calls"@), i)),
                "name"@,
            ) matches Some(name) && name.len() > 0),
    ensures
        ({
            let calls = round_of(after_events(nothing_heard(), events)).tool_calls;
            &&& calls.len() == n
            &&& forall|i: int|
                0 <= i < n ==> call_from(
                    #[trigger] calls[i],
                    listed(events, "tool_calls"@),
                    i,
                )
        }),
{
    reveal(Seq::filter);
    let pieces = listed(events, "tool_calls"@);
    let h = after_events(nothing_heard(), events);
    let parts = with_pieces(Seq::empty(), pieces);
    lemma_events_calls(events);
    assert forall|k: int| 0 <= k < pieces.len() implies is_placed(#[trigger] pieces[k]) by {
        let tc = pieces[k];
        let i: usize = choose|i: usize| i < n && is_of(tc, i);
        assert(is_of(tc, i));
    }
    let none = Seq::<PartView>::empty();
    lemma_pieces_part(none, pieces, 0);
    assert forall|i: usize| part_at(parts, i) is Some <==> i < n by {
        lemma_pieces_part(none, pieces, i);
        if i < n {
            assert(last_text(functions(pieces_of(pieces, i)), "name"@) is Some);
        } else {
            lemma_no_pieces(pieces, i, n);
        }
    }
    lemma_parts_all(parts, n as int);
    assert forall|k: int| 0 <= k < parts.len() implies (#[trigger] parts[k]).name is Some
        && parts[k].name->0.len() > 0 by {
        lemma_pieces_part(none, pieces, k as usize);
        assert(Some(parts[k]) == part_at(parts, k as usize));
        assert(last_text(functions(pieces_of(pieces, k as usize)), "name"@) is Some);
    }
    lemma_all_built(parts);
    let calls = built_calls(parts);
    lemma_members();
    assert forall|i: int| 0 <= i < n implies call_from(#[trigger] calls[i], pieces, i) by {
        lemma_pieces_part(none, pieces, i as usize);
        assert(Some(parts[i]) == part_at(parts, i as usize));
        assert(last_text(functions(pieces_of(pieces, i as usize)), "name"@) is Some);
        let own = pieces_of(pieces, i as usize);
        assert(Seq::<char>::empty() + joined(functions(own), "arguments"@) =~= joined(
            functions(own),
            "arguments"@,
        ));
    }
}

proof fn lemma_no_pieces(v: Seq<JsonView>, i: usize, n: usize)
    requires
        i >= n,
        forall|k: int| 0 <= k < v.len() ==> is_below(#[trigger] v[k], n),
    ensures
        pieces_of(v, i).len() == 0,
    decreases v.len(),
{
    reveal(Seq::filter);
    if v.len() > 0 {
        let u = v.drop_last();
        assert forall|k: int| 0 <= k < u.len() implies is_below(#[trigger] u[k], n) by {
            assert(u[k] == v[k]);
        }
        lemma_no_pieces(u, i, n);
        let tc = v.last();
        assert(tc == v[v.len() - 1]);
        let j: usize = choose|j: usize| j < n && is_of(tc, j);
        assert(is_of(v.last(), j));
        assert(!is_of(v.last(), i));
    }
}

proof fn lemma_part_in(v: Seq<PartView>, i: usize)
    requires
        part_at(v, i) is Some,
    ensures
        exists|k: int| 0 <= k < v.len() && #[trigger] v[k] == part_at(v, i)->0,
        part_at(v, i)->0.index == i,
    decreases v.len(),
{
    if v.last().index == i {
        assert(v[v.len() - 1] == v.last());
    } else {
        let t = v.drop_last();
        lemma_part_in(t, i);
        let k: int = choose|k: int| 0 <= k < t.len() && #[trigger] t[k] == part_at(t, i)->0;
        assert(v[k] == t[k]);
    }
}

proof fn lemma_built_has(v: Seq<PartView>, p: int)
    requires
        0 <= p < v.len(),
        crate::sse::built_call(v[p]) is Some,
    ensures
        exists|k: int|
            0 <= k < built_calls(v).len() && Some(#[trigger] built_calls(v)[k])
                == crate::sse::built_call(v[p]),
    decreases v.len(),
{
    let t = v.drop_last();
    let calls = built_calls(v);
    if p == v.len() - 1 {
        assert(Some(calls[calls.len() - 1]) == crate::sse::built_call(v[p]));
    } else {
        assert(t[p] == v[p]);
        lemma_built_has(t, p);
        let head = built_calls(t);
        let k: int = choose|k: int|
            0 <= k < head.len() && Some(#[trigger] head[k]) == crate::sse::built_call(v[p]);
        assert(calls[k] == head[k]);
    }
}

proof fn lemma_built_from(v: Seq<PartView>, k: int) -> (p: int)
    requires
        0 <= k < built_calls(v).len(),
    ensures
        0 <= p < v.len(),
        Some(built_calls(v)[k]) == crate::sse::built_call(v[p]),
    decreases v.len(),
{
    let t = v.drop_last();
    if k < built_calls(t).len() {
        let p = lemma_built_from(t, k);
        assert(t[p] == v[p]);
        assert(built_calls(v)[k] == built_calls(t)[k]);
        p
    } else {
        v.len() - 1
    }
}

/// Whichever indices the pieces name, with gaps or not: an index whose pieces name a
/// tool has its call, and every call is that of an index.
pub proof fn lemma_call_per_index(events: Seq<JsonView>, i: usize, k: int)
    requires
        forall|k: int|
            0 <= k < listed(events, "tool_calls"@).len() ==> is_placed(
                #[trigger] listed(events, "tool_calls"@)[k],
            ),
    ensures
        ({
            let calls = round_of(after_events(nothing_heard(), events)).tool_calls;
            let pieces = listed(events, "tool_calls"@);
            &&& (last_text(functions(pieces_of(pieces, i)), "name"@) matches Some(name)
                && name.len() > 0) ==> exists|j: int|
                0 <= j < calls.len() && call_from(#[trigger] calls[j], pieces, i as int)
            &&& 0 <= k < calls.len() ==> exists|j: usize|
                #[trigger] call_from(calls[k], pieces, j as int)
        }),
{
    lemma_members();
    let pieces = listed(events, "tool_calls"@);
    let none = Seq::<PartView>::empty();
    let parts = with_pieces(none, pieces);
    let calls = built_calls(parts);
    lemma_events_calls(events);
    lemma_pieces_part(none, pieces, i);
    let own = pieces_of(pieces, i);
    let name = last_text(functions(own), "name"@);
    if name is Some && name->0.len() > 0 {
        assert(own.len() > 0);
        lemma_part_in(parts, i);
        let p: int = choose|p: int|
            0 <= p < parts.len() && #[trigger] parts[p] == part_at(parts, i)->0;
        lemma_built_has(parts, p);
        let j: int = choose|j: int|
            0 <= j < calls.len() && Some(#[trigger] calls[j]) == crate::sse::built_call(parts[p]);
        assert(Seq::<char>::empty() + joined(functions(own), "arguments"@) =~= joined(
            functions(own),
            "arguments"@,
        ));
        assert(call_from(calls[j], pieces, i as int));
    }
    if 0 <= k < calls.len() {
        let p = lemma_built_from(parts, k);
        let j = parts[p].index;
        lemma_part_of(parts, p);
        lemma_pieces_part(none, pieces, j);
        let mine = pieces_of(pieces, j);
        assert(Seq::<char>::empty() + joined(functions(mine), "arguments"@) =~= joined(
            functions(mine),
            "arguments"@,
        ));
        assert(call_from(calls[k], pieces, j as int));
    }
    assert(round_of(after_events(nothing_heard(), events)).tool_calls == calls);
}

/// The first choices of events.
pub open spec fn choices(events: Seq<JsonView>) -> Seq<JsonView> {
    events.map_values(
        |o: JsonView|
            if list_in(o, "choices"@).len() > 0 {
                list_in(o, "choices"@)[0]
            } else {
                JsonView::Null
            },
    )
}

/// The deltas of events.
pub open spec fn deltas(events: Seq<JsonView>) -> Seq<JsonView> {
    events.map_values(|o: JsonView| delta_in(o))
}

/// The last member under a name that any of the values has.
pub open spec fn last_member(v: Seq<JsonView>, key: Seq<char>) -> Option<JsonView>
    decreases v.len(),
{
    if v.len() == 0 {
        None
    } else {
        match member(v.last(), key) {
            Some(x) => Some(x),
            None => last_member(v.drop_last(), key),
        }
    }
}

proof fn lemma_thoughts_joined(v: Seq<JsonView>)
    ensures
        concat(thoughts(v)) == joined(v, "text"@),
    decreases v.len(),
{
    if v.len() > 0 {
        lemma_thoughts_joined(v.drop_last());
        let head = thoughts(v.drop_last());
        let t = crate::sse::thought(v.last());
        if t.len() > 0 {
            assert(head.push(t).drop_last() =~= head);
        } else {
            assert(t =~= Seq::<char>::empty());
            assert(joined(v, "text"@) =~= joined(v.drop_last(), "text"@));
        }
    }
}

proof fn lemma_joined_add(a: Seq<JsonView>, b: Seq<JsonView>, key: Seq<char>)
    ensures
        joined(a + b, key) == joined(a, key) + joined(b, key),
    decreases b.len(),
{
    if b.len() == 0 {
        assert(a + b =~= a);
        assert(joined(a, key) + joined(b, key) =~= joined(a, key));
    } else {
        lemma_joined_add(a, b.drop_last(), key);
        assert((a + b).drop_last() =~= a + b.drop_last());
        assert((a + b).last() == b.last());
        assert(joined(a + b, key) =~= joined(a, key) + joined(b, key));
    }
}

/// The answer is all that the deltas say, one after another, and so are the thoughts;
/// the reply ends in calls exactly when the last reason says so, and its usage is the
/// last that was told.
pub proof fn lemma_all_is_heard(events: Seq<JsonView>)
    ensures
        ({
            let h = after_events(nothing_heard(), events);
            &&& h.content == joined(deltas(events), "content"@)
            &&& h.reasoning == joined(listed(events, "reasoning_details"@), "text"@)
            &&& h.finish == FinishReason::ToolCalls <==> last_text(
                choices(events),
                "finish_reason"@,
            ) == Some("tool_calls"@)
            &&& h.usage == last_member(events, "usage"@)
        }),
    decreases events.len(),
{
    if events.len() > 0 {
        let t = events.drop_last();
        let o = events.last();
        lemma_all_is_heard(t);
        assert(deltas(events).drop_last() =~= deltas(t));
        assert(choices(events).drop_last() =~= choices(t));
        assert(deltas(events).last() == delta_in(o));
        let more = list_in(delta_in(o), "reasoning_details"@);
        lemma_thoughts_joined(more);
        lemma_joined_add(listed(t, "reasoning_details"@), more, "text"@);
        let h = after_events(nothing_heard(), t);
        let g = after_event(h, o);
        assert(g.content =~= h.content + match text_in(delta_in(o), "content"@) {
            Some(s) => s,
            None => Seq::empty(),
        });
        assert(g.reasoning =~= h.reasoning + joined(more, "text"@));
    }
}

/// What pieces show of the answer.
pub open spec fn shown_answer(v: Seq<DeltaView>) -> Seq<char>
    decreases v.len(),
{
    if v.len() == 0 {
        Seq::empty()
    } else {
        shown_answer(v.drop_last()) + match v.last() {
            DeltaView::Content(s) => s,
            DeltaView::Thinking(_) => Seq::empty(),
        }
    }
}

/// What pieces show of the thoughts.
pub open spec fn shown_thoughts(v: Seq<DeltaView>) -> Seq<char>
    decreases v.len(),
{
    if v.len() == 0 {
        Seq::empty()
    } else {
        shown_thoughts(v.drop_last()) + match v.last() {
            DeltaView::Content(_) => Seq::empty(),
            DeltaView::Thinking(s) => s,
        }
    }
}

proof fn lemma_shown_add(a: Seq<DeltaView>, b: Seq<DeltaView>)
    ensures
        shown_answer(a + b) == shown_answer(a) + shown_answer(b),
        shown_thoughts(a + b) == shown_thoughts(a) + shown_thoughts(b),
    decreases b.len(),
{
    if b.len() == 0 {
        assert(a + b =~= a);
        assert(shown_answer(a) + shown_answer(b) =~= shown_answer(a));
        assert(shown_thoughts(a) + shown_thoughts(b) =~= shown_thoughts(a));
    } else {
        lemma_shown_add(a, b.drop_last());
        assert((a + b).drop_last() =~= a + b.drop_last());
        assert((a + b).last() == b.last());
        assert(shown_answer(a + b) =~= shown_answer(a) + shown_answer(b));
        assert(shown_thoughts(a + b) =~= shown_thoughts(a) + shown_thoughts(b));
    }
}

proof fn lemma_shown_thoughts(v: Seq<Seq<char>>)
    ensures
        shown_thoughts(v.map_values(|t: Seq<char>| DeltaView::Thinking(t))) == concat(v),
        shown_answer(v.map_values(|t: Seq<char>| DeltaView::Thinking(t))) == Seq::<
            char,
        >::empty(),
    decreases v.len(),
{
    let f = |t: Seq<char>| DeltaView::Thinking(t);
    if v.len() > 0 {
        lemma_shown_thoughts(v.drop_last());
        assert(v.map_values(f).drop_last() =~= v.drop_last().map_values(f));
        assert(shown_answer(v.map_values(f)) =~= Seq::<char>::empty());
    }
}

/// What is shown while the reply streams in is what is heard: piece by piece the answer
/// and the thoughts grow by what an event shows of them.
pub proof fn lemma_shown_is_heard(h: HeardView, o: JsonView)
    ensures
        ({
            let g = after_event(h, o);
            &&& g.content == h.content + shown_answer(event_pieces(o))
            &&& g.reasoning == h.reasoning + shown_thoughts(event_pieces(o))
        }),
{
    let c = match text_in(delta_in(o), "content"@) {
        Some(s) => s,
        None => Seq::empty(),
    };
    let list = thoughts(list_in(delta_in(o), "reasoning_details"@));
    let tail = list.map_values(|t: Seq<char>| DeltaView::Thinking(t));
    let head = if c.len() > 0 {
        seq![DeltaView::Content(c)]
    } else {
        Seq::<DeltaView>::empty()
    };
    lemma_shown_add(head, tail);
    lemma_shown_thoughts(list);
    reveal_with_fuel(shown_answer, 2);
    reveal_with_fuel(shown_thoughts, 2);
    let e = Seq::<char>::empty();
    assert(seq![DeltaView::Content(c)].drop_last() =~= Seq::<DeltaView>::empty());
    assert(shown_answer(head) =~= c);
    assert(shown_thoughts(head) =~= e);
    assert(event_pieces(o) =~= head + tail);
    let g = after_event(h, o);
    assert(g.content =~= h.content + shown_answer(event_pieces(o)));
    assert(g.reasoning =~= h.reasoning + shown_thoughts(event_pieces(o)));
}

/// A reply in which no block of thoughts is opened is the answer as it is, and its
/// message says it: the text when nothing is called, the calls when something is.
pub proof fn lemma_reply_message(h: HeardView)
    ensures
        ({
            let r = round_of(h);
            &&& r.finish == h.finish && r.usage == h.usage
            &&& says(r.assistant_message, "role"@, "assistant"@)
            &&& r.tool_calls.len() == 0 ==> is_saying(
                r.assistant_message,
                "assistant"@,
                r.content,
            ) && lacks(r.assistant_message, "tool_calls"@)
            &&& r.tool_calls.len() > 0 ==> holds(
                r.assistant_message,
                "tool_calls"@,
                JsonView::Arr(r.tool_calls),
            )
            &&& !crate::text::contains(h.content, "…"@) && !crate::text::contains(
                h.content,
                "<details"@,
            ) ==> r.content == crate::text::trim(h.content) && r.reasoning == h.reasoning
        }),
{
    lemma_members();
    if !crate::text::contains(h.content, "…"@) && !crate::text::contains(h.content, "<details"@) {
        crate::thinking::lemma_no_thoughts(h.content);
    }
}

// ---------------------------------------------------------------------------
// Lines
// ---------------------------------------------------------------------------

/// A text on one line that does not end in a carriage return.
pub open spec fn on_a_line(p: Seq<char>) -> bool {
    !p.contains('\n') && (p.len() > 0 ==> p.last() != '\r')
}

/// What a payload adds to what has been heard: the event that it is, unless it says
/// that the stream is over or is no JSON.
pub open spec fn payload_heard(h: HeardView, p: Seq<char>) -> HeardView {
    match json_read(p) {
        Reading::Value(o) => if p == "[DONE]"@ {
            h
        } else {
            after_event(h, o)
        },
        Reading::Failure(_) => h,
    }
}

proof fn lemma_split_line(a: Seq<char>)
    requires
        !a.contains('\n'),
    ensures
        split(a.push('\n'), '\n') == seq![a, Seq::<char>::empty()],
{
    let s = a.push('\n');
    assert forall|k: int| 0 <= k < a.len() implies s[k] != '\n' by {
        assert(s[k] == a[k]);
        assert(a.contains(a[k]));
    }
    lemma_char_index_is(s, '\n', a.len() as int);
    assert(s.take(a.len() as int) =~= a);
    let e = Seq::<char>::empty();
    assert(s.skip(a.len() as int + 1) =~= e);
    lemma_char_index(e, '\n');
    assert(split(e, '\n') =~= seq![e]);
    assert(seq![a] + seq![e] =~= seq![a, e]);
}

/// A data line is heard as the event that stands behind `data:`, with or without the
/// space; any other line changes nothing.
pub proof fn lemma_line_heard(s: StreamView, p: Seq<char>)
    requires
        s.begun.len() == 0,
        on_a_line(p),
    ensures
        after_text(s, "data: "@ + p.push('\n')) == (StreamView {
            heard: payload_heard(s.heard, p),
            ..s
        }),
        p.len() > 0 && p[0] != ' ' ==> after_text(s, "data:"@ + p.push('\n')) == (StreamView {
            heard: payload_heard(s.heard, p),
            ..s
        }),
        !"data:"@.is_prefix_of(p) ==> after_text(s, p.push('\n')) == s,
{
    reveal_strlit("data: ");
    reveal_strlit("data:");
    let a = "data: "@ + p;
    let b = "data:"@ + p;
    let e = Seq::<char>::empty();
    assert(!a.contains('\n') && !b.contains('\n')) by {
        assert forall|k: int| 0 <= k < a.len() implies a[k] != '\n' by {
            if k >= 6 {
                assert(p.contains(p[k - 6]));
            }
        }
        assert forall|k: int| 0 <= k < b.len() implies b[k] != '\n' by {
            if k >= 5 {
                assert(p.contains(p[k - 5]));
            }
        }
    }
    lemma_split_line(a);
    lemma_split_line(b);
    lemma_split_line(p);
    assert(s.begun =~= e);
    assert(s.begun + ("data: "@ + p.push('\n')) =~= a.push('\n'));
    assert(s.begun + ("data:"@ + p.push('\n')) =~= b.push('\n'));
    assert(s.begun + p.push('\n') =~= p.push('\n'));
    assert(seq![a, e].drop_last() =~= seq![a]);
    assert(seq![b, e].drop_last() =~= seq![b]);
    assert(seq![p, e].drop_last() =~= seq![p]);
    reveal_with_fuel(crate::sse::after_lines, 2);
    assert(seq![a].drop_last() =~= Seq::<Seq<char>>::empty());
    assert(seq![b].drop_last() =~= Seq::<Seq<char>>::empty());
    assert(seq![p].drop_last() =~= Seq::<Seq<char>>::empty());
    assert(without_returns(a) == a) by {
        if p.len() == 0 {
            assert(a.last() == ' ');
        } else {
            assert(a.last() == p.last());
        }
    }
    assert(a.skip(5).skip(1) =~= p);
    assert(a.skip(5)[0] == ' ');
    assert(a.subrange(0, 5) =~= "data:"@);
    assert(data_payload(a) == Some(p));
    if p.len() > 0 && p[0] != ' ' {
        assert(b.last() == p.last());
        assert(b.skip(5) =~= p);
        assert(b.subrange(0, 5) =~= "data:"@);
        assert(data_payload(b) == Some(p));
    }
    if !"data:"@.is_prefix_of(p) {
        assert(without_returns(p) == p);
        assert(data_payload(p) is None) by {
            if crate::text::starts_with(p, "data:"@) {
                assert("data:"@ =~= p.take(5));
            }
        }
    }
}

/// The text of a stream that sends payloads, each as a data line with an empty line
/// behind it.
pub open spec fn sent(payloads: Seq<Seq<char>>) -> Seq<char>
    decreases payloads.len(),
{
    if payloads.len() == 0 {
        Seq::empty()
    } else {
        sent(payloads.drop_last()) + ("data: "@ + payloads.last().push('\n')).push('\n')
    }
}

/// The events that payloads are.
pub open spec fn events_in(payloads: Seq<Seq<char>>) -> Seq<JsonView>
    decreases payloads.len(),
{
    if payloads.len() == 0 {
        Seq::empty()
    } else {
        let head = events_in(payloads.drop_last());
        match json_read(payloads.last()) {
            Reading::Value(o) => if payloads.last() == "[DONE]"@ {
                head
            } else {
                head.push(o)
            },
            Reading::Failure(_) => head,
        }
    }
}

/// A stream that sends payloads is heard as their events, one after another.
pub proof fn lemma_stream_heard(payloads: Seq<Seq<char>>)
    requires
        forall|k: int| 0 <= k < payloads.len() ==> on_a_line(#[trigger] payloads[k]),
    ensures
        after_text(new_stream(), sent(payloads)) == (StreamView {
            begun: Seq::empty(),
            heard: after_events(nothing_heard(), events_in(payloads)),
        }),
    decreases payloads.len(),
{
    let e = Seq::<char>::empty();
    if payloads.len() == 0 {
        lemma_char_index(e, '\n');
        assert(e + e =~= e);
        assert(split(e, '\n') =~= seq![e]);
        assert(seq![e].drop_last() =~= Seq::<Seq<char>>::empty());
    } else {
        let t = payloads.drop_last();
        let p = payloads.last();
        assert forall|k: int| 0 <= k < t.len() implies on_a_line(#[trigger] t[k]) by {
            assert(t[k] == payloads[k]);
        }
        lemma_stream_heard(t);
        assert(on_a_line(payloads[payloads.len() - 1]));
        let one = "data: "@ + p.push('\n');
        let s = after_text(new_stream(), sent(t));
        lemma_line_heard(s, p);
        let u = after_text(s, one);
        lemma_line_heard(u, e);
        reveal_strlit("data:");
        assert(!"data:"@.is_prefix_of(e));
        lemma_chunks(s, one, e.push('\n'));
        assert(one + e.push('\n') =~= one.push('\n'));
        lemma_chunks(new_stream(), sent(t), one.push('\n'));
        let head = events_in(t);
        match json_read(p) {
            Reading::Value(o) => {
                assert(head.push(o).drop_last() =~= head);
            },
            Reading::Failure(_) => {},
        }
    }
}

proof fn lemma_lines_shown(h: HeardView, v: Seq<Seq<char>>)
    ensures
        after_lines(h, v).content == h.content + shown_answer(lines_pieces(v)),
        after_lines(h, v).reasoning == h.reasoning + shown_thoughts(lines_pieces(v)),
    decreases v.len(),
{
    let e = Seq::<char>::empty();
    if v.len() == 0 {
        assert(h.content + e =~= h.content);
        assert(h.reasoning + e =~= h.reasoning);
    } else {
        let t = v.drop_last();
        let g = after_lines(h, t);
        lemma_lines_shown(h, t);
        lemma_shown_add(lines_pieces(t), line_pieces(v.last()));
        let a = shown_answer(lines_pieces(t));
        let b = shown_thoughts(lines_pieces(t));
        match line_event(v.last()) {
            Some(o) => {
                lemma_shown_is_heard(g, o);
                let c = shown_answer(event_pieces(o));
                let d = shown_thoughts(event_pieces(o));
                assert(h.content + a + c =~= h.content + (a + c));
                assert(h.reasoning + b + d =~= h.reasoning + (b + d));
            },
            None => {
                assert(a + e =~= a);
                assert(b + e =~= b);
            },
        }
    }
}

/// What is shown while text comes in is what is heard of it, however the text is cut:
/// the answer and the thoughts grow by what is shown.
pub proof fn lemma_text_shown(s: StreamView, text: Seq<char>)
    ensures
        ({
            let g = after_text(s, text);
            &&& g.heard.content == s.heard.content + shown_answer(text_pieces(s, text))
            &&& g.heard.reasoning == s.heard.reasoning + shown_thoughts(text_pieces(s, text))
        }),
{
    lemma_lines_shown(s.heard, split(s.begun + text, '\n').drop_last());
}

} // verus!
