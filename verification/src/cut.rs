//! Texts measured and cut by their UTF-8 bytes.
use crate::text::{from_chars, to_chars};
use vstd::prelude::*;
use vstd::slice::slice_subrange;
use vstd::utf8::{char_is_scalar, encode_scalar, encode_utf8};

verus! {

/// How many bytes a character takes in UTF-8.
pub open spec fn char_width(c: char) -> nat {
    let n = c as u32;
    if n <= 0x7F {
        1
    } else if n <= 0x7FF {
        2
    } else if n <= 0xFFFF {
        3
    } else {
        4
    }
}

/// How many bytes a text takes in UTF-8.
pub open spec fn byte_len(s: Seq<char>) -> nat
    decreases s.len(),
{
    if s.len() == 0 {
        0
    } else {
        byte_len(s.drop_last()) + char_width(s.last())
    }
}

/// How many characters at the beginning of a text fit into `n` bytes.
pub open spec fn fit(s: Seq<char>, n: int) -> nat
    decreases s.len(),
{
    if s.len() == 0 || char_width(s[0]) > n {
        0
    } else {
        1 + fit(s.skip(1), n - char_width(s[0]))
    }
}

/// The longest beginning of a text that fits into `n` bytes.
pub open spec fn head_within(s: Seq<char>, n: int) -> Seq<char> {
    s.take(fit(s, n) as int)
}

proof fn lemma_byte_len_head(s: Seq<char>)
    requires
        s.len() > 0,
    ensures
        byte_len(s) == char_width(s[0]) + byte_len(s.skip(1)),
    decreases s.len(),
{
    if s.len() == 1 {
        assert(s.drop_last() =~= Seq::<char>::empty());
        assert(s.skip(1) =~= Seq::<char>::empty());
    } else {
        lemma_byte_len_head(s.drop_last());
        assert(s.drop_last().skip(1) =~= s.skip(1).drop_last());
    }
}

/// The bytes of a text are those of its parts.
pub proof fn lemma_byte_len_add(a: Seq<char>, b: Seq<char>)
    ensures
        byte_len(a + b) == byte_len(a) + byte_len(b),
    decreases b.len(),
{
    if b.len() == 0 {
        assert(a + b =~= a);
    } else {
        lemma_byte_len_add(a, b.drop_last());
        assert((a + b).drop_last() =~= a + b.drop_last());
    }
}

/// `byte_len` is the length of the UTF-8 encoding.
pub proof fn lemma_byte_len_encoding(s: Seq<char>)
    ensures
        byte_len(s) == encode_utf8(s).len(),
    decreases s.len(),
{
    if s.len() > 0 {
        lemma_byte_len_head(s);
        lemma_byte_len_encoding(s.skip(1));
        assert(s.skip(1) =~= s.drop_first());
        char_is_scalar(s[0]);
        assert(encode_scalar(s[0] as u32).len() == char_width(s[0]));
    }
}

/// `fit` counts as many characters as fit, and no fewer.
pub proof fn lemma_fit(s: Seq<char>, n: int)
    requires
        n >= 0,
    ensures
        fit(s, n) <= s.len(),
        byte_len(s.take(fit(s, n) as int)) <= n,
        forall|k: int| fit(s, n) < k <= s.len() ==> byte_len(#[trigger] s.take(k)) > n,
    decreases s.len(),
{
    if s.len() == 0 || char_width(s[0]) > n {
        assert(s.take(0) =~= Seq::<char>::empty());
        assert forall|k: int| 0 < k <= s.len() implies byte_len(#[trigger] s.take(k)) > n by {
            lemma_byte_len_head(s.take(k));
            assert(s.take(k)[0] == s[0]);
        }
    } else {
        let t = s.skip(1);
        let m = n - char_width(s[0]);
        lemma_fit(t, m);
        let f = fit(t, m) as int;
        assert(s.take(f + 1).skip(1) =~= t.take(f));
        lemma_byte_len_head(s.take(f + 1));
        assert forall|k: int| f + 1 < k <= s.len() implies byte_len(#[trigger] s.take(k)) > n by {
            lemma_byte_len_head(s.take(k));
            assert(s.take(k).skip(1) =~= t.take(k - 1));
        }
    }
}

/// Counts the characters at the beginning of `v` that fit into `n` bytes.
fn fit_chars(v: &[char], n: usize) -> (r: usize)
    ensures
        r == fit(v@, n as int),
        r <= v@.len(),
{
    let mut left: usize = n;
    let mut i: usize = 0;
    proof {
        assert(v@.skip(0) =~= v@);
    }
    while i < v.len()
        invariant
            i <= v@.len(),
            fit(v@, n as int) == i + fit(v@.skip(i as int), left as int),
        decreases v@.len() - i,
    {
        let c: u32 = v[i] as u32;
        let w: usize = if c <= 0x7F {
            1
        } else if c <= 0x7FF {
            2
        } else if c <= 0xFFFF {
            3
        } else {
            4
        };
        if w > left {
            return i;
        }
        assert(v@.skip(i as int).skip(1) =~= v@.skip(i + 1));
        left = left - w;
        i = i + 1;
    }
    i
}

/// How many bytes a string has.
pub fn bytes_of(s: &str) -> (r: usize)
    ensures
        r == byte_len(s@),
{
    proof {
        lemma_byte_len_encoding(s@);
    }
    s.as_bytes().len()
}

/// The longest beginning of a string that fits into `n` bytes.
pub fn head_str(s: &str, n: usize) -> (r: String)
    ensures
        r@ == head_within(s@, n as int),
{
    let v = to_chars(s);
    let k: usize = fit_chars(v.as_slice(), n);
    assert(v@.subrange(0, k as int) =~= v@.take(k as int));
    from_chars(slice_subrange(v.as_slice(), 0, k))
}

/// A text of more than `cap` bytes cut to what fits, with a mark behind it; a
/// shorter one as it is.
pub open spec fn capped(s: Seq<char>, cap: int, mark: Seq<char>) -> Seq<char> {
    if byte_len(s) > cap {
        head_within(s, cap) + mark
    } else {
        s
    }
}

/// Cuts a string of more than `cap` bytes and puts a mark behind it.
pub fn cap_str(s: &str, cap: usize, mark: &str) -> (r: String)
    ensures
        r@ == capped(s@, cap as int, mark@),
{
    if bytes_of(s) > cap {
        let mut t = head_str(s, cap);
        t.push_str(mark);
        t
    } else {
        s.to_owned()
    }
}

/// What is capped takes no more bytes than the cap and the mark.
pub proof fn lemma_capped_bound(s: Seq<char>, cap: int, mark: Seq<char>)
    requires
        cap >= 0,
    ensures
        byte_len(capped(s, cap, mark)) <= cap + byte_len(mark),
{
    lemma_fit(s, cap);
    lemma_byte_len_add(head_within(s, cap), mark);
}

/// A text can be cut at byte `n`: it has no more bytes, or a character ends
/// there.
pub open spec fn cuts_at(s: Seq<char>, n: int) -> bool {
    byte_len(s) <= n || byte_len(head_within(s, n)) == n
}

/// Whether a string can be cut at byte `n`.
pub fn can_cut(s: &str, n: usize) -> (r: bool)
    ensures
        r == cuts_at(s@, n as int),
{
    bytes_of(s) <= n || bytes_of(head_str(s, n).as_str()) == n
}

/// A text of more than `n` bytes cut at byte `n`, with an ellipsis.
pub open spec fn truncated(s: Seq<char>, n: int) -> Seq<char> {
    if byte_len(s) > n {
        head_within(s, n) + "…"@
    } else {
        s
    }
}

/// Cuts a string of more than `n` bytes at byte `n` and puts an ellipsis behind
/// it.
pub fn truncate(s: &str, n: usize) -> (r: String)
    requires
        cuts_at(s@, n as int),
    ensures
        r@ == truncated(s@, n as int),
{
    cap_str(s, n, "…")
}

/// The longest end of a text that fits into `n` bytes.
pub open spec fn tail_within(s: Seq<char>, n: int) -> Seq<char>
    decreases s.len(),
{
    if byte_len(s) <= n || s.len() == 0 {
        s
    } else {
        tail_within(s.skip(1), n)
    }
}

/// The longest end of a string that fits into `n` bytes.
pub fn tail_str(s: &str, n: usize) -> (r: String)
    ensures
        r@ == tail_within(s@, n as int),
{
    let v = to_chars(s);
    let mut total: usize = bytes_of(s);
    let mut i: usize = 0;
    proof {
        assert(v@.skip(0) =~= v@);
    }
    while i < v.len() && total > n
        invariant
            v@ == s@,
            i <= v@.len(),
            total == byte_len(v@.skip(i as int)),
            tail_within(s@, n as int) == tail_within(v@.skip(i as int), n as int),
        decreases v@.len() - i,
    {
        proof {
            lemma_byte_len_head(v@.skip(i as int));
            assert(v@.skip(i as int).skip(1) =~= v@.skip(i + 1));
        }
        let c: u32 = v[i] as u32;
        let w: usize = if c <= 0x7F {
            1
        } else if c <= 0x7FF {
            2
        } else if c <= 0xFFFF {
            3
        } else {
            4
        };
        total = total - w;
        i = i + 1;
    }
    proof {
        assert(v@.subrange(i as int, v@.len() as int) =~= v@.skip(i as int));
    }
    from_chars(slice_subrange(v.as_slice(), i, v.len()))
}

} // verus!
