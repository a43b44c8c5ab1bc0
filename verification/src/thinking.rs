//! What the model writes beside its answer: thoughts inside the text, and calls
//! that repeat themselves.
use crate::decimal::{digit_like, is_digit};
use crate::json::{jsons, lemma_jsons_at, lemma_jsons_len, Json, JsonView};
use crate::lines::{join, join_strs, lemma_sorted_order_free, sort_strs, sorted};
use crate::pairing::{call_name, name_of_call};
use crate::purify::{args_of_call, call_args};
use crate::text::{
    contains, contains_chars, find, find_chars, from_chars, lemma_contains_find, lemma_find_least,
    text_or_empty, texts, to_chars, trim, trimmed,
};
use vstd::prelude::*;
use vstd::slice::slice_subrange;

verus! {

// ---------------------------------------------------------------------------
// Blocks of thought
// ---------------------------------------------------------------------------

/// Where a block ends that is closed at a place: behind the closing mark, and behind
/// the `>` that completes its tag when there is one.
pub open spec fn block_end(s: Seq<char>, j: int, close: Seq<char>) -> int {
    let e = j + close.len();
    if 0 <= e < s.len() && s[e] == '>' {
        e + 1
    } else {
        e
    }
}

/// A text without each block from `open` to the end of the next `close`; an open
/// without a close takes all that follows.
pub open spec fn without_blocks(s: Seq<char>, open: Seq<char>, close: Seq<char>) -> Seq<char>
    decreases s.len(),
{
    match find(s, open) {
        Some(i) => {
            let after = s.skip(i);
            match find(after, close) {
                Some(j) => if 0 <= i <= s.len() && 0 <= j && 0 < close.len() <= after.len() - j {
                    s.take(i) + without_blocks(after.skip(block_end(after, j, close)), open, close)
                } else {
                    s
                },
                None => s.take(i),
            }
        },
        None => s,
    }
}

/// Removes each block from `<think` to `</think` or `</think>`; one that is not
/// closed takes all that follows it.
pub fn strip_think(s: &str) -> (r: String)
    ensures
        r@ == trim(without_blocks(s@, "<think"@, "</think"@)),
{
    let v = to_chars(s);
    let open = to_chars("<think");
    let close = to_chars("</think");
    let n: usize = v.len();
    let mut out = String::new();
    let mut pos: usize = 0;
    proof {
        reveal_strlit("<think");
        reveal_strlit("</think");
        assert(s@.skip(0) =~= s@);
        assert(out@ + without_blocks(s@, open@, close@) =~= without_blocks(s@, open@, close@));
    }
    loop
        invariant
            v@ == s@,
            n == v@.len(),
            pos <= n,
            open@ == "<think"@,
            close@ == "</think"@,
            open@.len() == 6,
            close@.len() == 7,
            out@ + without_blocks(s@.skip(pos as int), open@, close@) == without_blocks(
                s@,
                open@,
                close@,
            ),
        decreases n - pos,
    {
        let ghost before = out@;
        let ghost rest = s@.skip(pos as int);
        proof {
            lemma_find_least(rest, open@, 0);
        }
        let tail = slice_subrange(v.as_slice(), pos, n);
        assert(tail@ =~= rest);
        match find_chars(tail, open.as_slice(), 0) {
            Some(i) => {
                out.push_str(from_chars(slice_subrange(tail, 0, i)).as_str());
                let after = slice_subrange(tail, i, tail.len());
                proof {
                    assert(rest.subrange(0, i as int) =~= rest.take(i as int));
                    assert(after@ =~= rest.skip(i as int));
                    lemma_find_least(after@, close@, 0);
                }
                match find_chars(after, close.as_slice(), 0) {
                    Some(j) => {
                        let behind: usize = j + close.len();
                        let end: usize = if behind < after.len() && after[behind] == '>' {
                            behind + 1
                        } else {
                            behind
                        };
                        pos = pos + i + end;
                        proof {
                            assert(end == block_end(after@, j as int, close@));
                            assert(s@.skip(pos as int) =~= after@.skip(end as int));
                            assert(out@ + without_blocks(s@.skip(pos as int), open@, close@)
                                =~= before + (rest.take(i as int) + without_blocks(
                                after@.skip(end as int),
                                open@,
                                close@,
                            )));
                        }
                    },
                    None => {
                        return trimmed(out.as_str());
                    },
                }
            },
            None => {
                out.push_str(from_chars(tail).as_str());
                return trimmed(out.as_str());
            },
        }
    }
}

/// A text in which no block is opened loses only the blanks at its ends.
pub proof fn lemma_no_think(s: Seq<char>, open: Seq<char>, close: Seq<char>)
    requires
        !contains(s, open),
    ensures
        without_blocks(s, open, close) == s,
{
    lemma_contains_find(s, open);
}

/// A text taken apart at blocks: what is kept, and what stood in the blocks that
/// were taken out.
pub struct Taken {
    pub kept: Seq<char>,
    pub taken: Seq<Seq<char>>,
}

/// Takes out the blocks from `open` to `close` in which `mark` stands, and keeps
/// the others as they are. An open without a close takes all that follows.
pub open spec fn take_blocks(
    s: Seq<char>,
    open: Seq<char>,
    close: Seq<char>,
    mark: Seq<char>,
) -> Taken
    decreases s.len(),
{
    match find(s, open) {
        Some(i) => if 0 <= i && 0 < open.len() <= s.len() - i {
            let head = s.take(i);
            let after = s.skip(i + open.len());
            match find(after, close) {
                Some(j) => if 0 <= j && close.len() <= after.len() - j {
                    let inner = after.take(j);
                    let rest = take_blocks(after.skip(j + close.len()), open, close, mark);
                    if contains(inner, mark) {
                        Taken { kept: head + rest.kept, taken: seq![inner] + rest.taken }
                    } else {
                        Taken { kept: head + open + inner + close + rest.kept, taken: rest.taken }
                    }
                } else {
                    Taken { kept: s, taken: Seq::empty() }
                },
                None => if contains(after, mark) {
                    Taken { kept: head, taken: seq![after] }
                } else {
                    Taken { kept: head + open + after, taken: Seq::empty() }
                },
            }
        } else {
            Taken { kept: s, taken: Seq::empty() }
        },
        None => Taken { kept: s, taken: Seq::empty() },
    }
}

/// Thoughts one after another, each on a line of its own behind one that is not
/// empty.
pub open spec fn strung(v: Seq<Seq<char>>) -> Seq<char>
    decreases v.len(),
{
    if v.len() == 0 {
        Seq::empty()
    } else {
        let head = strung(v.drop_last());
        if head.len() > 0 {
            head.push('\n') + v.last()
        } else {
            v.last()
        }
    }
}

fn string_on(out: &mut String, s: &str, v: Ghost<Seq<Seq<char>>>)
    requires
        old(out)@ == strung(v@),
    ensures
        final(out)@ == strung(v@.push(s@)),
{
    proof {
        assert(v@.push(s@).drop_last() =~= v@);
    }
    if out.as_str().unicode_len() > 0 {
        out.push('\n');
    }
    out.push_str(s);
    proof {
        assert(strung(v@.push(s@)) =~= out@);
    }
}

fn extract_delimited(s: &str, open: &str, close: &str, mark: &str) -> (r: (String, String))
    requires
        open@.len() > 0,
    ensures
        r.0@ == take_blocks(s@, open@, close@, mark@).kept,
        r.1@ == strung(take_blocks(s@, open@, close@, mark@).taken),
{
    let v = to_chars(s);
    let op = to_chars(open);
    let cl = to_chars(close);
    let mk = to_chars(mark);
    let n: usize = v.len();
    let ghost all = take_blocks(s@, open@, close@, mark@);
    let mut out = String::new();
    let mut extracted = String::new();
    let ghost mut done: Seq<Seq<char>> = Seq::empty();
    let mut pos: usize = 0;
    proof {
        assert(s@.skip(0) =~= s@);
        assert(out@ + all.kept =~= all.kept);
        assert(done + all.taken =~= all.taken);
    }
    loop
        invariant
            v@ == s@,
            n == v@.len(),
            pos <= n,
            op@ == open@,
            cl@ == close@,
            mk@ == mark@,
            open@.len() > 0,
            all == take_blocks(s@, open@, close@, mark@),
            extracted@ == strung(done),
            out@ + take_blocks(s@.skip(pos as int), open@, close@, mark@).kept == all.kept,
            done + take_blocks(s@.skip(pos as int), open@, close@, mark@).taken == all.taken,
        decreases n - pos,
    {
        let ghost before = out@;
        let ghost rest = s@.skip(pos as int);
        let ghost here = take_blocks(rest, open@, close@, mark@);
        proof {
            lemma_find_least(rest, open@, 0);
        }
        let tail = slice_subrange(v.as_slice(), pos, n);
        assert(tail@ =~= rest);
        let m: usize = tail.len();
        match find_chars(tail, op.as_slice(), 0) {
            Some(i) => {
                out.push_str(from_chars(slice_subrange(tail, 0, i)).as_str());
                let from: usize = i + op.len();
                let after = slice_subrange(tail, from, m);
                proof {
                    assert(rest.subrange(0, i as int) =~= rest.take(i as int));
                    assert(after@ =~= rest.skip(i + open@.len()));
                    lemma_find_least(after@, close@, 0);
                }
                match find_chars(after, cl.as_slice(), 0) {
                    Some(j) => {
                        let inner = slice_subrange(after, 0, j);
                        assert(inner@ =~= after@.take(j as int));
                        let piece = from_chars(inner);
                        let ghost next = take_blocks(
                            after@.skip(j + close@.len()),
                            open@,
                            close@,
                            mark@,
                        );
                        if contains_chars(inner, mk.as_slice()) {
                            string_on(&mut extracted, piece.as_str(), Ghost(done));
                            proof {
                                assert(done.push(piece@) + next.taken =~= done + here.taken);
                                done = done.push(piece@);
                                assert(out@ + next.kept =~= before + here.kept);
                            }
                        } else {
                            out.push_str(open);
                            out.push_str(piece.as_str());
                            out.push_str(close);
                            proof {
                                assert(out@ + next.kept =~= before + here.kept);
                            }
                        }
                        pos = pos + from + j + cl.len();
                        assert(s@.skip(pos as int) =~= after@.skip(j + close@.len()));
                    },
                    None => {
                        let piece = from_chars(after);
                        if contains_chars(after, mk.as_slice()) {
                            string_on(&mut extracted, piece.as_str(), Ghost(done));
                            proof {
                                assert(done.push(piece@) =~= done + here.taken);
                                assert(out@ =~= before + here.kept);
                            }
                        } else {
                            out.push_str(open);
                            out.push_str(piece.as_str());
                            proof {
                                assert(done =~= done + here.taken);
                                assert(out@ =~= before + here.kept);
                            }
                        }
                        return (out, extracted);
                    },
                }
            },
            None => {
                out.push_str(from_chars(tail).as_str());
                proof {
                    assert(done =~= done + here.taken);
                    assert(out@ =~= before + here.kept);
                }
                return (out, extracted);
            },
        }
    }
}

/// The end of the text stands inside a tag.
pub open spec fn in_tag(s: Seq<char>) -> bool
    decreases s.len(),
{
    if s.len() == 0 {
        false
    } else if s.last() == '<' {
        true
    } else if s.last() == '>' {
        false
    } else {
        in_tag(s.drop_last())
    }
}

/// A text without its tags, each from `<` to `>`.
pub open spec fn untagged(s: Seq<char>) -> Seq<char>
    decreases s.len(),
{
    if s.len() == 0 {
        Seq::empty()
    } else {
        let head = untagged(s.drop_last());
        let c = s.last();
        if c == '<' || c == '>' || in_tag(s.drop_last()) {
            head
        } else {
            head.push(c)
        }
    }
}

fn strip_inline_tags(s: &str) -> (r: String)
    ensures
        r@ == untagged(s@),
{
    let mut out = String::new();
    let mut inside = false;
    for c in it: s.chars()
        invariant
            it.seq() == s@,
            inside == in_tag(s@.take(it.index() as int)),
            out@ == untagged(s@.take(it.index() as int)),
    {
        proof {
            let t = s@.take(it.index() + 1);
            assert(t.drop_last() =~= s@.take(it.index() as int));
            assert(t.last() == c);
        }
        if c == '<' {
            inside = true;
        } else if c == '>' {
            inside = false;
        } else if !inside {
            out.push(c);
        }
    }
    assert(s@.take(s@.len() as int) =~= s@);
    out
}

/// The answer and the thoughts of a text.
pub struct Parted {
    pub answer: Seq<char>,
    pub thoughts: Seq<char>,
}

/// A text parted into the answer and the thoughts that stand between ellipses or
/// in a `<details>` block that speaks of thinking. The thoughts lose their tags.
pub open spec fn parted(s: Seq<char>) -> Parted {
    let a = take_blocks(s, "…"@, "…"@, ""@);
    let b = take_blocks(a.kept, "<details"@, "</details>"@, "思考"@);
    let first = untagged(strung(a.taken));
    let second = untagged(strung(b.taken));
    let thoughts = if trim(second).len() == 0 {
        first
    } else if first.len() == 0 {
        second
    } else {
        first.push('\n') + second
    };
    Parted { answer: trim(b.kept), thoughts: trim(thoughts) }
}

/// Parts a text into the answer and the thoughts in it.
pub fn strip_thinking_blocks(s: &str) -> (r: (String, String))
    ensures
        r.0@ == parted(s@).answer,
        r.1@ == parted(s@).thoughts,
{
    proof {
        reveal_strlit("…");
        reveal_strlit("<details");
    }
    let (after_think, think_text) = extract_delimited(s, "…", "…", "");
    let (clean, details_text) = extract_delimited(
        after_think.as_str(),
        "<details",
        "</details>",
        "思考",
    );
    let mut thinking = strip_inline_tags(think_text.as_str());
    let ghost first = thinking@;
    let stripped = strip_inline_tags(details_text.as_str());
    if trimmed(stripped.as_str()).as_str().unicode_len() > 0 {
        if thinking.as_str().unicode_len() > 0 {
            thinking.push('\n');
        }
        thinking.push_str(stripped.as_str());
    }
    proof {
        let second = stripped@;
        if trim(second).len() > 0 && first.len() == 0 {
            assert(thinking@ =~= second);
        }
    }
    (trimmed(clean.as_str()), trimmed(thinking.as_str()))
}

/// A text in which no block is opened is all answer and no thought.
pub proof fn lemma_no_thoughts(s: Seq<char>)
    requires
        !contains(s, "…"@),
        !contains(s, "<details"@),
    ensures
        parted(s).answer == trim(s),
        parted(s).thoughts == Seq::<char>::empty(),
{
    lemma_contains_find(s, "…"@);
    lemma_contains_find(s, "<details"@);
    let none = Seq::<Seq<char>>::empty();
    assert(strung(none) == Seq::<char>::empty());
    assert(untagged(Seq::<char>::empty()) == Seq::<char>::empty());
}

// ---------------------------------------------------------------------------
// Calls that repeat themselves
// ---------------------------------------------------------------------------

/// The arguments of a call with each run of digits as a single `#`.
pub open spec fn normalized(s: Seq<char>) -> Seq<char>
    decreases s.len(),
{
    if s.len() == 0 {
        Seq::empty()
    } else {
        let front = s.drop_last();
        let head = normalized(front);
        if !is_digit(s.last()) {
            head.push(s.last())
        } else if front.len() > 0 && is_digit(front.last()) {
            head
        } else {
            head.push('#')
        }
    }
}

/// Puts a single `#` for each run of digits.
pub fn normalize_args(args: &str) -> (r: String)
    ensures
        r@ == normalized(args@),
{
    let mut out = String::new();
    let mut in_digit = false;
    for c in it: args.chars()
        invariant
            it.seq() == args@,
            out@ == normalized(args@.take(it.index() as int)),
            in_digit == (it.index() > 0 && is_digit(args@[it.index() - 1])),
    {
        proof {
            let t = args@.take(it.index() + 1);
            assert(t.drop_last() =~= args@.take(it.index() as int));
            assert(t.last() == c);
        }
        if digit_like(c) {
            if !in_digit {
                out.push('#');
                in_digit = true;
            }
        } else {
            in_digit = false;
            out.push(c);
        }
    }
    assert(args@.take(args@.len() as int) =~= args@);
    out
}

proof fn lemma_normalized_no_digit(s: Seq<char>)
    ensures
        forall|i: int| 0 <= i < normalized(s).len() ==> !is_digit(#[trigger] normalized(s)[i]),
    decreases s.len(),
{
    if s.len() > 0 {
        let head = normalized(s.drop_last());
        lemma_normalized_no_digit(s.drop_last());
        assert forall|i: int| 0 <= i < normalized(s).len() implies !is_digit(
            #[trigger] normalized(s)[i],
        ) by {
            if i < head.len() {
                assert(normalized(s)[i] == head[i]);
            }
        }
    }
}

proof fn lemma_normalized_plain(s: Seq<char>)
    requires
        forall|i: int| 0 <= i < s.len() ==> !is_digit(#[trigger] s[i]),
    ensures
        normalized(s) == s,
    decreases s.len(),
{
    if s.len() > 0 {
        let t = s.drop_last();
        assert forall|i: int| 0 <= i < t.len() implies !is_digit(#[trigger] t[i]) by {
            assert(t[i] == s[i]);
        }
        lemma_normalized_plain(t);
        assert(s[s.len() - 1] == s.last());
        assert(t.push(s.last()) =~= s);
    }
}

/// Normalizing twice changes no more than normalizing once, and leaves no digit.
pub proof fn lemma_normalized_idempotent(s: Seq<char>)
    ensures
        normalized(normalized(s)) == normalized(s),
        forall|i: int| 0 <= i < normalized(s).len() ==> !is_digit(#[trigger] normalized(s)[i]),
{
    lemma_normalized_no_digit(s);
    lemma_normalized_plain(normalized(s));
}

proof fn lemma_normalized_run(a: Seq<char>, d: Seq<char>)
    requires
        d.len() > 0,
        forall|i: int| 0 <= i < d.len() ==> is_digit(#[trigger] d[i]),
    ensures
        normalized(a + d) == (if a.len() > 0 && is_digit(a.last()) {
            normalized(a)
        } else {
            normalized(a).push('#')
        }),
    decreases d.len(),
{
    let t = d.drop_last();
    assert((a + d).drop_last() =~= a + t);
    assert(is_digit(d[d.len() - 1]));
    if t.len() == 0 {
        assert(a + t =~= a);
    } else {
        assert forall|i: int| 0 <= i < t.len() implies is_digit(#[trigger] t[i]) by {
            assert(t[i] == d[i]);
        }
        lemma_normalized_run(a, t);
        assert(is_digit(t[t.len() - 1]));
    }
}

/// Arguments that differ only in the digits of a run come to the same.
pub proof fn lemma_digit_runs(a: Seq<char>, d: Seq<char>, e: Seq<char>, b: Seq<char>)
    requires
        d.len() > 0,
        e.len() > 0,
        forall|i: int| 0 <= i < d.len() ==> is_digit(#[trigger] d[i]),
        forall|i: int| 0 <= i < e.len() ==> is_digit(#[trigger] e[i]),
    ensures
        normalized(a + d + b) == normalized(a + e + b),
    decreases b.len(),
{
    if b.len() == 0 {
        assert(a + d + b =~= a + d);
        assert(a + e + b =~= a + e);
        lemma_normalized_run(a, d);
        lemma_normalized_run(a, e);
    } else {
        let t = b.drop_last();
        lemma_digit_runs(a, d, e, t);
        assert((a + d + b).drop_last() =~= a + d + t);
        assert((a + e + b).drop_last() =~= a + e + t);
        if t.len() == 0 {
            assert((a + d + t).last() == d[d.len() - 1]);
            assert((a + e + t).last() == e[e.len() - 1]);
        } else {
            assert((a + d + t).last() == t.last());
            assert((a + e + t).last() == t.last());
        }
    }
}

/// The characters of a text stand in another in the same order, each at a place of
/// its own.
pub open spec fn stands_in(a: Seq<char>, b: Seq<char>) -> bool
    decreases b.len(),
{
    if a.len() == 0 {
        true
    } else if b.len() == 0 {
        false
    } else if a.last() == b.last() {
        stands_in(a.drop_last(), b.drop_last())
    } else {
        stands_in(a, b.drop_last())
    }
}

proof fn lemma_stands_in(a: Seq<char>, b: Seq<char>, c: char)
    requires
        stands_in(a, b),
    ensures
        a.len() > 0 ==> stands_in(a.drop_last(), b),
        stands_in(a, b.push(c)),
    decreases b.len(),
{
    if a.len() > 0 {
        let t = a.drop_last();
        let d = b.drop_last();
        assert(b =~= d.push(b.last()));
        if a.last() == b.last() {
            lemma_stands_in(t, d, b.last());
        } else {
            lemma_stands_in(a, d, b.last());
            lemma_stands_in(t, d, b.last());
        }
        assert(b.push(c).drop_last() =~= b);
    }
}

/// Normalizing keeps every character that is no digit, in its order, and adds
/// nothing but the marks of runs.
pub proof fn lemma_others_kept(s: Seq<char>)
    ensures
        stands_in(s.filter(|c: char| !is_digit(c)), normalized(s)),
        normalized(s).filter(|c: char| c != '#') == s.filter(|c: char| !is_digit(c) && c != '#'),
    decreases s.len(),
{
    reveal(Seq::filter);
    let p = |c: char| !is_digit(c);
    let q = |c: char| c != '#';
    let o = |c: char| !is_digit(c) && c != '#';
    if s.len() > 0 {
        let front = s.drop_last();
        let head = normalized(front);
        lemma_others_kept(front);
        let c = s.last();
        if p(c) {
            assert(front.filter(p).push(c).drop_last() =~= front.filter(p));
            assert(head.push(c).drop_last() =~= head);
        } else {
            lemma_stands_in(front.filter(p), head, '#');
            assert(head.push('#').drop_last() =~= head);
        }
    }
}

/// A call as it counts for repetition: the tool, and the arguments normalized.
pub open spec fn call_shape(c: JsonView) -> Seq<char> {
    call_name(c) + "|"@ + normalized(text_or_empty(call_args(c)))
}

/// The calls of a round as they count for repetition.
pub open spec fn shapes(calls: Seq<JsonView>) -> Seq<Seq<char>> {
    calls.map_values(|c: JsonView| call_shape(c))
}

/// What two rounds have in common when they repeat each other.
pub open spec fn signature(calls: Seq<JsonView>) -> Seq<char> {
    join(sorted(shapes(calls)), ";;"@)
}

/// The signature of a round's calls.
pub fn iter_signature(calls: &Vec<Json>) -> (r: String)
    ensures
        r@ == signature(jsons(calls@)),
{
    let mut parts: Vec<String> = Vec::new();
    let mut i: usize = 0;
    while i < calls.len()
        invariant
            i <= calls@.len(),
            parts@.len() == i,
            forall|k: int| 0 <= k < i ==> (#[trigger] parts@[k])@ == call_shape(calls@[k]@),
        decreases calls@.len() - i,
    {
        let mut p = name_of_call(&calls[i]).to_owned();
        p.push_str("|");
        let args = match args_of_call(&calls[i]) {
            Some(a) => normalize_args(a),
            None => normalize_args(""),
        };
        proof {
            reveal_strlit("");
            assert(""@ =~= Seq::<char>::empty());
        }
        p.push_str(args.as_str());
        parts.push(p);
        i = i + 1;
    }
    proof {
        lemma_jsons_len(calls@);
        assert forall|k: int| 0 <= k < parts@.len() implies texts(parts@)[k] == shapes(
            jsons(calls@),
        )[k] by {
            lemma_jsons_at(calls@, k);
        }
        assert(texts(parts@) =~= shapes(jsons(calls@)));
    }
    let ordered = sort_strs(parts);
    join_strs(&ordered, ";;")
}

proof fn lemma_shapes_multiset(a: Seq<JsonView>, b: Seq<JsonView>)
    requires
        a.to_multiset() == b.to_multiset(),
    ensures
        shapes(a).to_multiset() == shapes(b).to_multiset(),
    decreases a.len(),
{
    broadcast use vstd::seq_lib::group_to_multiset_ensures;

    assert(a.to_multiset().len() == a.len() && b.to_multiset().len() == b.len());
    if a.len() == 0 {
        assert(shapes(a) =~= shapes(b));
    } else {
        let x = a.last();
        let t = a.drop_last();
        assert(a =~= t.push(x));
        assert(a.to_multiset().count(x) > 0);
        assert(b.contains(x));
        let j = choose|j: int| 0 <= j < b.len() && b[j] == x;
        let u = b.remove(j);
        assert(u.to_multiset() =~= b.to_multiset().remove(x));
        assert(t.to_multiset() =~= a.to_multiset().remove(x)) by {
            assert(t.push(x).to_multiset() =~= t.to_multiset().insert(x));
        }
        lemma_shapes_multiset(t, u);
        assert(shapes(a) =~= shapes(t).push(call_shape(x)));
        assert(shapes(b).remove(j) =~= shapes(u));
        assert(shapes(b)[j] == call_shape(x));
        assert(shapes(u).to_multiset() =~= shapes(b).to_multiset().remove(call_shape(x)));
        assert(shapes(b).contains(call_shape(x)));
        assert(shapes(b).to_multiset().count(call_shape(x)) > 0);
        assert(shapes(a).to_multiset() =~= shapes(t).to_multiset().insert(call_shape(x)));
        assert(shapes(a).to_multiset() =~= shapes(b).to_multiset());
    }
}

/// The order in which a round makes its calls does not change its signature.
pub proof fn lemma_signature_order_free(a: Seq<JsonView>, b: Seq<JsonView>)
    requires
        a.to_multiset() == b.to_multiset(),
    ensures
        signature(a) == signature(b),
{
    lemma_shapes_multiset(a, b);
    lemma_sorted_order_free(shapes(a), shapes(b));
}

/// Rounds whose calls count alike, one by one, have the same signature.
pub proof fn lemma_signature_shapes(a: Seq<JsonView>, b: Seq<JsonView>)
    requires
        a.len() == b.len(),
        forall|i: int|
            0 <= i < a.len() ==> call_name(#[trigger] a[i]) == call_name(b[i]) && normalized(
                text_or_empty(call_args(a[i])),
            ) == normalized(text_or_empty(call_args(b[i]))),
    ensures
        signature(a) == signature(b),
{
    assert forall|i: int| 0 <= i < a.len() implies shapes(a)[i] == shapes(b)[i] by {
        assert(call_name(a[i]) == call_name(b[i]));
    }
    assert(shapes(a) =~= shapes(b));
}

} // verus!
