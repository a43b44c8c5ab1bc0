//! Taking texts apart at separators, putting them together, and ordering them.
use crate::text::{
    blank, char_index, char_index_chars, from_chars, is_blank, lemma_char_index, texts, to_chars,
};
use vstd::prelude::*;
use vstd::slice::slice_subrange;

verus! {

/// The pieces of a text between the occurrences of a character: one more than
/// there are occurrences.
pub open spec fn split(s: Seq<char>, c: char) -> Seq<Seq<char>>
    decreases s.len(),
{
    match char_index(s, c) {
        Some(i) => if 0 <= i < s.len() {
            seq![s.take(i)] + split(s.skip(i + 1), c)
        } else {
            seq![s]
        },
        None => seq![s],
    }
}

/// A line without the carriage return before its line feed.
pub open spec fn chomp(s: Seq<char>) -> Seq<char> {
    if s.len() > 0 && s.last() == '\r' {
        s.drop_last()
    } else {
        s
    }
}

/// The lines of a text: each ends at a line feed, or at a carriage return and a
/// line feed; an end without one ends the last line.
pub open spec fn lines(s: Seq<char>) -> Seq<Seq<char>>
    decreases s.len(),
{
    if s.len() == 0 {
        Seq::empty()
    } else {
        match char_index(s, '\n') {
            Some(i) => if 0 <= i < s.len() {
                seq![chomp(s.take(i))] + lines(s.skip(i + 1))
            } else {
                seq![s]
            },
            None => seq![s],
        }
    }
}

/// The pieces with a separator between each two of them.
pub open spec fn join(parts: Seq<Seq<char>>, sep: Seq<char>) -> Seq<char>
    decreases parts.len(),
{
    if parts.len() == 0 {
        Seq::empty()
    } else if parts.len() == 1 {
        parts[0]
    } else {
        join(parts.drop_last(), sep) + sep + parts.last()
    }
}

proof fn lemma_texts_push(v: Seq<String>, s: String)
    ensures
        texts(v.push(s)) == texts(v).push(s@),
{
    assert(texts(v.push(s)) =~= texts(v).push(s@));
}

/// Splits a run of characters at a character.
pub fn split_chars(v: &[char], c: char) -> (r: Vec<String>)
    ensures
        texts(r@) == split(v@, c),
{
    let mut out: Vec<String> = Vec::new();
    let mut rest: &[char] = v;
    loop
        invariant
            texts(out@) + split(rest@, c) == split(v@, c),
        decreases rest@.len(),
    {
        let ghost before = out@;
        let ghost s = rest@;
        proof {
            lemma_char_index(s, c);
        }
        let n: usize = rest.len();
        match char_index_chars(rest, c) {
            Some(i) => {
                out.push(from_chars(slice_subrange(rest, 0, i)));
                rest = slice_subrange(rest, i + 1, n);
                proof {
                    lemma_texts_push(before, out@.last());
                    assert(out@ =~= before.push(out@.last()));
                    assert(s.subrange(0, i as int) =~= s.take(i as int));
                    assert(s.subrange(i + 1, s.len() as int) =~= s.skip(i + 1));
                    assert(texts(out@) + split(rest@, c) =~= texts(before) + split(s, c));
                }
            },
            None => {
                out.push(from_chars(rest));
                proof {
                    lemma_texts_push(before, out@.last());
                    assert(out@ =~= before.push(out@.last()));
                    assert(texts(out@) =~= texts(before) + split(s, c));
                }
                return out;
            },
        }
    }
}

/// Splits a string at a character.
pub fn split_str(s: &str, c: char) -> (r: Vec<String>)
    ensures
        texts(r@) == split(s@, c),
{
    let v = to_chars(s);
    split_chars(v.as_slice(), c)
}

fn chomp_chars(v: &[char]) -> (r: &[char])
    ensures
        r@ == chomp(v@),
{
    let n: usize = v.len();
    if n > 0 && v[n - 1] == '\r' {
        assert(v@.subrange(0, n - 1) =~= v@.drop_last());
        slice_subrange(v, 0, n - 1)
    } else {
        v
    }
}

/// The lines of a string.
pub fn lines_of(s: &str) -> (r: Vec<String>)
    ensures
        texts(r@) == lines(s@),
{
    let v = to_chars(s);
    let mut out: Vec<String> = Vec::new();
    let mut rest: &[char] = v.as_slice();
    while rest.len() > 0
        invariant
            texts(out@) + lines(rest@) == lines(s@),
        decreases rest@.len(),
    {
        let ghost before = out@;
        let ghost t = rest@;
        proof {
            lemma_char_index(t, '\n');
        }
        match char_index_chars(rest, '\n') {
            Some(i) => {
                out.push(from_chars(chomp_chars(slice_subrange(rest, 0, i))));
                rest = slice_subrange(rest, i + 1, rest.len());
                proof {
                    lemma_texts_push(before, out@.last());
                    assert(out@ =~= before.push(out@.last()));
                    assert(t.subrange(0, i as int) =~= t.take(i as int));
                    assert(t.subrange(i + 1, t.len() as int) =~= t.skip(i + 1));
                    assert(texts(out@) + lines(rest@) =~= texts(before) + lines(t));
                }
            },
            None => {
                out.push(from_chars(rest));
                proof {
                    lemma_texts_push(before, out@.last());
                    assert(out@ =~= before.push(out@.last()));
                    assert(texts(out@) =~= texts(before) + lines(t));
                }
                return out;
            },
        }
    }
    assert(texts(out@) =~= texts(out@) + lines(rest@));
    out
}

/// The lines of a text that are not blank.
pub open spec fn filled_lines(s: Seq<char>) -> Seq<Seq<char>> {
    lines(s).filter(|l: Seq<char>| !is_blank(l))
}

/// The lines of a string that are not blank: the records of a file that holds one
/// on each line.
pub fn record_lines(s: &str) -> (r: Vec<String>)
    ensures
        texts(r@) == filled_lines(s@),
{
    let v = lines_of(s);
    let ghost all = lines(s@);
    let ghost p = |l: Seq<char>| !is_blank(l);
    let mut out: Vec<String> = Vec::new();
    let mut i: usize = 0;
    proof {
        reveal(Seq::filter);
        assert(texts(out@) =~= all.take(0).filter(p));
    }
    while i < v.len()
        invariant
            all == texts(v@),
            p == (|l: Seq<char>| !is_blank(l)),
            i <= v@.len(),
            texts(out@) == all.take(i as int).filter(p),
        decreases v@.len() - i,
    {
        proof {
            reveal(Seq::filter);
            let x = all.take(i + 1);
            assert(x.drop_last() =~= all.take(i as int));
            assert(x.last() == v@[i as int]@);
        }
        if !blank(v[i].as_str()) {
            let ghost before = texts(out@);
            out.push(v[i].clone());
            assert(texts(out@) =~= before.push(v@[i as int]@));
        }
        i = i + 1;
    }
    assert(all.take(i as int) =~= all);
    out
}

/// Joins strings with a separator.
pub fn join_strs(parts: &Vec<String>, sep: &str) -> (r: String)
    ensures
        r@ == join(texts(parts@), sep@),
{
    let mut out = String::new();
    let mut i: usize = 0;
    while i < parts.len()
        invariant
            i <= parts@.len(),
            out@ == join(texts(parts@).take(i as int), sep@),
        decreases parts@.len() - i,
    {
        let ghost before = out@;
        if i > 0 {
            out.push_str(sep);
        }
        out.push_str(parts[i].as_str());
        proof {
            let t = texts(parts@).take(i + 1);
            assert(t.drop_last() =~= texts(parts@).take(i as int));
            assert(t.last() == parts@[i as int]@);
            if i == 0 {
                assert(out@ =~= parts@[0]@);
            }
        }
        i = i + 1;
    }
    assert(texts(parts@).take(i as int) =~= texts(parts@));
    out
}

// ---------------------------------------------------------------------------
// Order
// ---------------------------------------------------------------------------

/// `a` stands before `b` in the order of their characters' code points, which
/// is also the order of their UTF-8 bytes.
pub open spec fn lex_lt(a: Seq<char>, b: Seq<char>) -> bool
    decreases a.len(),
{
    if b.len() == 0 {
        false
    } else if a.len() == 0 {
        true
    } else if a[0] == b[0] {
        lex_lt(a.skip(1), b.skip(1))
    } else {
        a[0] < b[0]
    }
}

/// No text stands before itself.
pub proof fn lemma_lex_irreflexive(a: Seq<char>)
    ensures
        !lex_lt(a, a),
    decreases a.len(),
{
    if a.len() > 0 {
        lemma_lex_irreflexive(a.skip(1));
    }
}

/// Of two different texts one stands before the other.
pub proof fn lemma_lex_total(a: Seq<char>, b: Seq<char>)
    ensures
        lex_lt(a, b) || lex_lt(b, a) || a == b,
        !(lex_lt(a, b) && lex_lt(b, a)),
    decreases a.len(),
{
    if a.len() > 0 && b.len() > 0 {
        if a[0] == b[0] {
            lemma_lex_total(a.skip(1), b.skip(1));
            if a.skip(1) == b.skip(1) {
                assert(a =~= seq![a[0]] + a.skip(1));
                assert(b =~= seq![b[0]] + b.skip(1));
            }
        }
    } else if a.len() == 0 && b.len() == 0 {
        assert(a =~= b);
    }
}

/// The order is transitive.
pub proof fn lemma_lex_transitive(a: Seq<char>, b: Seq<char>, c: Seq<char>)
    requires
        lex_lt(a, b),
        lex_lt(b, c),
    ensures
        lex_lt(a, c),
    decreases a.len(),
{
    if a.len() > 0 && a[0] == b[0] && b[0] == c[0] {
        lemma_lex_transitive(a.skip(1), b.skip(1), c.skip(1));
    }
}

/// Whether `a` stands before `b`.
pub fn str_before(a: &str, b: &str) -> (r: bool)
    ensures
        r == lex_lt(a@, b@),
{
    let x = to_chars(a);
    let y = to_chars(b);
    let mut i: usize = 0;
    proof {
        assert(a@.skip(0) =~= a@);
        assert(b@.skip(0) =~= b@);
    }
    while i < x.len() && i < y.len() && x[i] == y[i]
        invariant
            x@ == a@,
            y@ == b@,
            i <= x@.len(),
            i <= y@.len(),
            lex_lt(a@, b@) == lex_lt(a@.skip(i as int), b@.skip(i as int)),
        decreases x@.len() - i,
    {
        proof {
            assert(a@.skip(i as int).skip(1) =~= a@.skip(i + 1));
            assert(b@.skip(i as int).skip(1) =~= b@.skip(i + 1));
        }
        i = i + 1;
    }
    if i >= y.len() {
        false
    } else if i >= x.len() {
        true
    } else {
        x[i] < y[i]
    }
}

/// `s` put into an ascending list behind the texts that do not stand after it.
pub open spec fn insert_sorted(v: Seq<Seq<char>>, s: Seq<char>) -> Seq<Seq<char>>
    decreases v.len(),
{
    if v.len() > 0 && lex_lt(s, v.last()) {
        insert_sorted(v.drop_last(), s).push(v.last())
    } else {
        v.push(s)
    }
}

/// The texts of a list in ascending order.
pub open spec fn sorted(v: Seq<Seq<char>>) -> Seq<Seq<char>>
    decreases v.len(),
{
    if v.len() == 0 {
        v
    } else {
        insert_sorted(sorted(v.drop_last()), v.last())
    }
}

/// A list in ascending order.
pub open spec fn ascending(v: Seq<Seq<char>>) -> bool {
    forall|i: int, j: int| 0 <= i < j < v.len() ==> !lex_lt(#[trigger] v[j], #[trigger] v[i])
}

proof fn lemma_insert_sorted(v: Seq<Seq<char>>, s: Seq<char>)
    requires
        ascending(v),
    ensures
        ascending(insert_sorted(v, s)),
        insert_sorted(v, s).to_multiset() == v.to_multiset().insert(s),
        forall|i: int|
            0 <= i < insert_sorted(v, s).len() ==> v.contains(#[trigger] insert_sorted(v, s)[i])
                || insert_sorted(v, s)[i] == s,
    decreases v.len(),
{
    let r = insert_sorted(v, s);
    if v.len() > 0 && lex_lt(s, v.last()) {
        let w = v.drop_last();
        assert forall|i: int, j: int| 0 <= i < j < w.len() implies !lex_lt(
            #[trigger] w[j],
            #[trigger] w[i],
        ) by {
            assert(w[j] == v[j] && w[i] == v[i]);
        }
        lemma_insert_sorted(w, s);
        let q = insert_sorted(w, s);
        assert forall|i: int, j: int| 0 <= i < j < r.len() implies !lex_lt(
            #[trigger] r[j],
            #[trigger] r[i],
        ) by {
            if j < q.len() {
                assert(r[j] == q[j] && r[i] == q[i]);
            } else {
                assert(r[i] == q[i]);
                if w.contains(q[i]) {
                    let k = choose|k: int| 0 <= k < w.len() && w[k] == q[i];
                    assert(v[k] == q[i]);
                    assert(!lex_lt(v[v.len() - 1], v[k]));
                } else {
                    lemma_lex_total(s, v.last());
                }
            }
        }
        assert forall|i: int| 0 <= i < r.len() implies v.contains(#[trigger] r[i]) || r[i] == s by {
            if i < q.len() {
                assert(r[i] == q[i]);
                if w.contains(q[i]) {
                    let k = choose|k: int| 0 <= k < w.len() && w[k] == q[i];
                    assert(v[k] == q[i]);
                }
            } else {
                assert(r[i] == v[v.len() - 1]);
            }
        }
        assert(v =~= w.push(v.last()));
        w.to_multiset_ensures();
        q.to_multiset_ensures();
        assert(r.to_multiset() =~= v.to_multiset().insert(s));
    } else {
        assert forall|i: int, j: int| 0 <= i < j < r.len() implies !lex_lt(
            #[trigger] r[j],
            #[trigger] r[i],
        ) by {
            if j < v.len() {
                assert(r[j] == v[j] && r[i] == v[i]);
            } else {
                assert(r[i] == v[i]);
                if lex_lt(s, v[i]) {
                    if i < v.len() - 1 {
                        assert(!lex_lt(v[v.len() - 1], v[i]));
                        lemma_lex_total(v[i], v.last());
                        if lex_lt(v[i], v.last()) {
                            lemma_lex_transitive(s, v[i], v.last());
                        }
                    }
                }
            }
        }
        assert forall|i: int| 0 <= i < r.len() implies v.contains(#[trigger] r[i]) || r[i] == s by {
            if i < v.len() {
                assert(r[i] == v[i]);
            }
        }
        v.to_multiset_ensures();
    }
}

/// `sorted` gives the texts of the list, each as often as it stands there, in
/// ascending order.
pub proof fn lemma_sorted(v: Seq<Seq<char>>)
    ensures
        ascending(sorted(v)),
        sorted(v).to_multiset() == v.to_multiset(),
    decreases v.len(),
{
    if v.len() > 0 {
        let w = v.drop_last();
        lemma_sorted(w);
        lemma_insert_sorted(sorted(w), v.last());
        assert(v =~= w.push(v.last()));
        w.to_multiset_ensures();
    }
}

/// Two ascending lists with the same texts are equal.
pub proof fn lemma_ascending_unique(a: Seq<Seq<char>>, b: Seq<Seq<char>>)
    requires
        ascending(a),
        ascending(b),
        a.to_multiset() == b.to_multiset(),
    ensures
        a == b,
    decreases a.len(),
{
    a.to_multiset_ensures();
    b.to_multiset_ensures();
    if a.len() == 0 {
        assert(a =~= b);
    } else {
        let x = a.last();
        let y = b.last();
        assert(a.to_multiset().contains(x)) by {
            assert(a[a.len() - 1] == x);
        }
        assert(b.to_multiset().contains(y)) by {
            assert(b[b.len() - 1] == y);
        }
        assert(b.contains(x));
        assert(a.contains(y));
        let i = choose|i: int| 0 <= i < b.len() && b[i] == x;
        let j = choose|j: int| 0 <= j < a.len() && a[j] == y;
        if x != y {
            assert(i < b.len() - 1);
            assert(j < a.len() - 1);
            assert(!lex_lt(b[b.len() - 1], b[i]));
            assert(!lex_lt(a[a.len() - 1], a[j]));
            lemma_lex_total(x, y);
        }
        let c = a.drop_last();
        let d = b.drop_last();
        assert(a =~= c.push(x));
        assert(b =~= d.push(y));
        c.to_multiset_ensures();
        d.to_multiset_ensures();
        assert(c.to_multiset() =~= a.to_multiset().remove(x));
        assert(d.to_multiset() =~= b.to_multiset().remove(y));
        assert forall|p: int, q: int| 0 <= p < q < c.len() implies !lex_lt(
            #[trigger] c[q],
            #[trigger] c[p],
        ) by {
            assert(c[q] == a[q] && c[p] == a[p]);
        }
        assert forall|p: int, q: int| 0 <= p < q < d.len() implies !lex_lt(
            #[trigger] d[q],
            #[trigger] d[p],
        ) by {
            assert(d[q] == b[q] && d[p] == b[p]);
        }
        lemma_ascending_unique(c, d);
    }
}

/// The order in which texts are listed does not change what sorting gives.
pub proof fn lemma_sorted_order_free(a: Seq<Seq<char>>, b: Seq<Seq<char>>)
    requires
        a.to_multiset() == b.to_multiset(),
    ensures
        sorted(a) == sorted(b),
{
    lemma_sorted(a);
    lemma_sorted(b);
    lemma_ascending_unique(sorted(a), sorted(b));
}

proof fn lemma_insert_at(v: Seq<Seq<char>>, s: Seq<char>, k: int)
    requires
        0 <= k <= v.len(),
        forall|i: int| k <= i < v.len() ==> lex_lt(s, v[i]),
        k == 0 || !lex_lt(s, v[k - 1]),
    ensures
        insert_sorted(v, s) == v.insert(k, s),
    decreases v.len() - k,
{
    if k < v.len() {
        let w = v.drop_last();
        lemma_insert_at(w, s, k);
        assert(w.insert(k, s).push(v.last()) =~= v.insert(k, s));
    } else {
        assert(v.push(s) =~= v.insert(k, s));
    }
}

/// Sorts strings in ascending order.
pub fn sort_strs(v: Vec<String>) -> (r: Vec<String>)
    ensures
        texts(r@) == sorted(texts(v@)),
{
    let mut out: Vec<String> = Vec::new();
    let mut i: usize = 0;
    while i < v.len()
        invariant
            i <= v@.len(),
            out@.len() == i,
            texts(out@) == sorted(texts(v@).take(i as int)),
        decreases v@.len() - i,
    {
        let mut k: usize = out.len();
        while k > 0 && str_before(v[i].as_str(), out[k - 1].as_str())
            invariant
                i < v@.len(),
                k <= out@.len(),
                forall|m: int| k <= m < out@.len() ==> lex_lt(v@[i as int]@, out@[m]@),
            decreases k,
        {
            k = k - 1;
        }
        proof {
            let t = texts(v@).take(i + 1);
            assert(t.drop_last() =~= texts(v@).take(i as int));
            assert(t.last() == v@[i as int]@);
            lemma_insert_at(texts(out@), v@[i as int]@, k as int);
        }
        let ghost before = out@;
        out.insert(k, v[i].clone());
        assert(texts(out@) =~= texts(before).insert(k as int, v@[i as int]@));
        i = i + 1;
    }
    assert(texts(v@).take(i as int) =~= texts(v@));
    out
}

/// Sorts strings in descending order.
pub fn sort_strs_down(v: Vec<String>) -> (r: Vec<String>)
    ensures
        texts(r@) == sorted(texts(v@)).reverse(),
{
    let up = sort_strs(v);
    let mut out: Vec<String> = Vec::new();
    let mut i: usize = up.len();
    while i > 0
        invariant
            i <= up@.len(),
            out@.len() == up@.len() - i,
            forall|m: int| 0 <= m < out@.len() ==> out@[m]@ == up@[up@.len() - 1 - m]@,
        decreases i,
    {
        out.push(up[i - 1].clone());
        i = i - 1;
    }
    assert(texts(out@) =~= texts(up@).reverse());
    out
}

} // verus!
