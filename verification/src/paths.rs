//! Paths: names, extensions, joining and containment. Their names stand between
//! slashes; in a path of Windows, which begins with a drive or with two backslashes,
//! they stand between slashes and backslashes.
use crate::lines::{split, split_chars};
use crate::text::{
    from_chars, lemma_char_index, opt_text, starts_with, str_eq, strip_prefix_chars, texts,
    to_chars,
};
use vstd::prelude::*;
use vstd::slice::slice_subrange;

verus! {

// ---------------------------------------------------------------------------
// How a path begins
// ---------------------------------------------------------------------------

/// A path from the root.
pub open spec fn is_absolute(path: Seq<char>) -> bool {
    path.len() > 0 && path[0] == '/'
}

/// What stands between the names in a path of Windows. In one that is taken as it
/// stands it is a backslash only.
pub open spec fn is_separator(c: char, verbatim: bool) -> bool {
    c == '\\' || (c == '/' && !verbatim)
}

/// A path that begins with the letter of a drive, such as `C:`.
pub open spec fn has_drive(path: Seq<char>) -> bool {
    &&& path.len() >= 2
    &&& 'a' <= path[0] <= 'z' || 'A' <= path[0] <= 'Z'
    &&& path[1] == ':'
}

/// A path that begins with two backslashes, such as `\\server\share`.
pub open spec fn is_share(path: Seq<char>) -> bool {
    path.len() >= 2 && path[0] == '\\' && path[1] == '\\'
}

/// A path that is taken as it stands, such as `\\?\C:\dir`: only a backslash
/// separates its names, and a `.` is a name.
pub open spec fn is_verbatim(path: Seq<char>) -> bool {
    is_share(path) && path.len() >= 4 && path[2] == '?' && path[3] == '\\'
}

/// A path of Windows: it is a drive, or begins with one and a separator, or begins
/// with two backslashes.
pub open spec fn is_windows(path: Seq<char>) -> bool {
    is_share(path) || (has_drive(path) && (path.len() == 2 || is_separator(path[2], false)))
}

/// How many characters stand before the n-th separator of a text, or in all of it.
pub open spec fn before_separator(s: Seq<char>, n: nat, verbatim: bool) -> nat
    decreases s.len(),
{
    if s.len() == 0 {
        0
    } else if !is_separator(s[0], verbatim) {
        1 + before_separator(s.skip(1), n, verbatim)
    } else if n <= 1 {
        0
    } else {
        1 + before_separator(s.skip(1), (n - 1) as nat, verbatim)
    }
}

/// How many characters of a path name the drive or the share on which it lies.
pub open spec fn prefix_len(path: Seq<char>) -> nat {
    if is_share(path) {
        let n = if starts_with(path, "\\\\?\\UNC\\"@) {
            6nat
        } else {
            4nat
        };
        before_separator(path, n, is_verbatim(path))
    } else if is_windows(path) {
        2
    } else {
        0
    }
}

fn separates(c: char, verbatim: bool) -> (r: bool)
    ensures
        r == is_separator(c, verbatim),
{
    c == '\\' || (c == '/' && !verbatim)
}

fn drive_first(v: &[char]) -> (r: bool)
    ensures
        r == has_drive(v@),
{
    v.len() >= 2 && (('a' <= v[0] && v[0] <= 'z') || ('A' <= v[0] && v[0] <= 'Z')) && v[1] == ':'
}

fn share(v: &[char]) -> (r: bool)
    ensures
        r == is_share(v@),
{
    v.len() >= 2 && v[0] == '\\' && v[1] == '\\'
}

fn verbatim(v: &[char]) -> (r: bool)
    ensures
        r == is_verbatim(v@),
{
    share(v) && v.len() >= 4 && v[2] == '?' && v[3] == '\\'
}

fn windows(v: &[char]) -> (r: bool)
    ensures
        r == is_windows(v@),
{
    share(v) || (drive_first(v) && (v.len() == 2 || separates(v[2], false)))
}

fn count_before(v: &[char], n: usize, verbatim: bool) -> (r: usize)
    ensures
        r == before_separator(v@, n as nat, verbatim),
        r <= v@.len(),
{
    let mut left: usize = n;
    let mut i: usize = 0;
    assert(v@.skip(0) =~= v@);
    while i < v.len()
        invariant
            i <= v@.len(),
            before_separator(v@, n as nat, verbatim) == i + before_separator(
                v@.skip(i as int),
                left as nat,
                verbatim,
            ),
        decreases v@.len() - i,
    {
        proof {
            assert(v@.skip(i as int)[0] == v@[i as int]);
            assert(v@.skip(i as int).skip(1) =~= v@.skip(i + 1));
        }
        if separates(v[i], verbatim) {
            if left <= 1 {
                return i;
            }
            left = left - 1;
        }
        i = i + 1;
    }
    i
}

fn prefix_chars(v: &[char]) -> (r: usize)
    ensures
        r == prefix_len(v@),
        r <= v@.len(),
{
    if share(v) {
        let unc = to_chars("\\\\?\\UNC\\");
        let n: usize = if strip_prefix_chars(v, unc.as_slice()).is_some() {
            6
        } else {
            4
        };
        count_before(v, n, verbatim(v))
    } else if windows(v) {
        2
    } else {
        0
    }
}

// ---------------------------------------------------------------------------
// The parts of a path
// ---------------------------------------------------------------------------

/// A segment that names something: not empty and not the directory itself.
pub open spec fn is_named(segment: Seq<char>) -> bool {
    segment.len() > 0 && segment != seq!['.']
}

/// The segments of a list that name something.
pub open spec fn named(segments: Seq<Seq<char>>) -> Seq<Seq<char>> {
    segments.filter(|s: Seq<char>| is_named(s))
}

/// The segments of a list that are not empty.
pub open spec fn filled(segments: Seq<Seq<char>>) -> Seq<Seq<char>> {
    segments.filter(|s: Seq<char>| s.len() > 0)
}

/// A text with another character in place of each of one kind.
pub open spec fn replaced(s: Seq<char>, from: char, to: char) -> Seq<char> {
    s.map_values(|c: char| if c == from { to } else { c })
}

/// What stands between the separators of a path, behind its drive or share.
pub open spec fn segments(path: Seq<char>) -> Seq<Seq<char>> {
    let rest = path.skip(prefix_len(path) as int);
    if is_verbatim(path) {
        split(rest, '\\')
    } else if is_windows(path) {
        split(replaced(rest, '\\', '/'), '/')
    } else {
        split(rest, '/')
    }
}

/// The names in a path, behind its drive or share.
pub open spec fn names(path: Seq<char>) -> Seq<Seq<char>> {
    if is_verbatim(path) {
        filled(segments(path))
    } else {
        named(segments(path))
    }
}

/// A text whose drive, when it begins with one, is a capital letter.
pub open spec fn capital_drive(s: Seq<char>) -> Seq<char> {
    if has_drive(s) && 'a' <= s[0] {
        s.update(0, (s[0] as u32 - 32) as char)
    } else {
        s
    }
}

/// The drive or the share of a path of Windows, in the one way in which it is
/// compared with others.
pub open spec fn prefix_part(path: Seq<char>) -> Seq<char> {
    let p = path.take(prefix_len(path) as int);
    if is_verbatim(path) {
        if p.len() == 6 {
            p.take(4) + capital_drive(p.skip(4))
        } else {
            p
        }
    } else {
        capital_drive(replaced(p, '/', '\\'))
    }
}

/// A path of Windows that goes from the root of its drive or share.
pub open spec fn is_rooted(path: Seq<char>) -> bool {
    (is_share(path) && !is_verbatim(path)) || path.len() > prefix_len(path)
}

/// The parts of a path: its drive or share, a mark for the root, a leading `.` of a
/// relative path, and its names.
pub open spec fn parts(path: Seq<char>) -> Seq<Seq<char>> {
    let head = if is_windows(path) {
        if is_rooted(path) {
            seq![prefix_part(path), seq!['\\']]
        } else {
            seq![prefix_part(path)]
        }
    } else if is_absolute(path) {
        seq![seq!['/']]
    } else if segments(path)[0] == seq!['.'] {
        seq![seq!['.']]
    } else {
        Seq::empty()
    };
    head + names(path)
}

/// The last name of a path; none for a root, a `.` or a `..`.
pub open spec fn file_name(path: Seq<char>) -> Option<Seq<char>> {
    let all = names(path);
    if all.len() == 0 || all.last() == seq!['.'] || all.last() == seq!['.', '.'] {
        None
    } else {
        Some(all.last())
    }
}

/// The last position of a character in a text.
pub open spec fn last_index(s: Seq<char>, c: char) -> Option<int>
    decreases s.len(),
{
    if s.len() == 0 {
        None
    } else if s.last() == c {
        Some(s.len() - 1)
    } else {
        last_index(s.drop_last(), c)
    }
}

/// The extension of a file name: what stands behind its last dot, unless that
/// dot begins the name.
pub open spec fn name_extension(name: Seq<char>) -> Option<Seq<char>> {
    match last_index(name, '.') {
        Some(i) => if i > 0 {
            Some(name.skip(i + 1))
        } else {
            None
        },
        None => None,
    }
}

/// A file name without its extension and the dot before it.
pub open spec fn name_stem(name: Seq<char>) -> Seq<char> {
    match last_index(name, '.') {
        Some(i) => if i > 0 {
            name.take(i)
        } else {
            name
        },
        None => name,
    }
}

/// The extension of a path's last name.
pub open spec fn extension(path: Seq<char>) -> Option<Seq<char>> {
    match file_name(path) {
        Some(name) => name_extension(name),
        None => None,
    }
}

// ---------------------------------------------------------------------------
// Joining
// ---------------------------------------------------------------------------

/// A list of names after one more segment of a path: `.` stays, `..` goes back.
pub open spec fn stepped(v: Seq<Seq<char>>, segment: Seq<char>) -> Seq<Seq<char>> {
    if !is_named(segment) {
        v
    } else if segment != seq!['.', '.'] {
        v.push(segment)
    } else if v.len() == 0 || v.last() == seq!['.'] || v.last() == seq!['.', '.'] {
        v
    } else {
        v.drop_last()
    }
}

/// A list of names after the segments of a path.
pub open spec fn stepped_all(v: Seq<Seq<char>>, way: Seq<Seq<char>>) -> Seq<Seq<char>>
    decreases way.len(),
{
    if way.len() == 0 {
        v
    } else {
        stepped(stepped_all(v, way.drop_last()), way.last())
    }
}

/// Names, each behind a backslash.
pub open spec fn backslashed(v: Seq<Seq<char>>) -> Seq<char>
    decreases v.len(),
{
    if v.len() == 0 {
        Seq::empty()
    } else {
        backslashed(v.drop_last()) + seq!['\\'] + v.last()
    }
}

/// A path below a directory whose path is taken as it stands: it is written out, since
/// nothing in it is taken in another way later.
pub open spec fn written_out(dir: Seq<char>, rest: Seq<char>) -> Seq<char> {
    let from_root = is_separator(rest[0], false);
    let start = if from_root {
        Seq::empty()
    } else {
        names(dir)
    };
    let all = stepped_all(start, split(replaced(rest, '\\', '/'), '/'));
    let prefix = dir.take(prefix_len(dir) as int);
    if all.len() > 0 {
        prefix + backslashed(all)
    } else if from_root || is_rooted(dir) {
        prefix + seq!['\\']
    } else {
        prefix
    }
}

/// A path below a directory. A path that begins with a drive or a share, and one from
/// the root, stand for themselves; from the root in a directory of Windows, a path
/// stays on the directory's drive.
pub open spec fn joined(dir: Seq<char>, rest: Seq<char>) -> Seq<char> {
    if is_windows(rest) || (is_windows(dir) && has_drive(rest)) {
        rest
    } else if is_windows(dir) {
        if is_verbatim(dir) && rest.len() > 0 {
            written_out(dir, rest)
        } else if rest.len() > 0 && is_separator(rest[0], false) {
            dir.take(prefix_len(dir) as int) + rest
        } else if is_separator(dir.last(), false) || (has_drive(dir) && dir.len() == 2) {
            dir + rest
        } else {
            dir + seq!['\\'] + rest
        }
    } else if is_absolute(rest) {
        rest
    } else if dir.len() == 0 || dir.last() == '/' {
        dir + rest
    } else {
        dir + seq!['/'] + rest
    }
}

/// A path lies in a directory, or is that directory: its parts begin with the
/// directory's.
pub open spec fn lies_within(path: Seq<char>, root: Seq<char>) -> bool {
    parts(root).is_prefix_of(parts(path))
}

proof fn lemma_split_nonempty(s: Seq<char>, c: char)
    ensures
        split(s, c).len() > 0,
{
}

/// Whether a path starts from the root.
fn absolute(path: &str) -> (r: bool)
    ensures
        r == is_absolute(path@),
{
    let v = to_chars(path);
    v.len() > 0 && v[0] == '/'
}

fn replace_chars(v: &[char], from: char, to: char) -> (r: Vec<char>)
    ensures
        r@ == replaced(v@, from, to),
{
    let mut out: Vec<char> = Vec::new();
    let mut i: usize = 0;
    while i < v.len()
        invariant
            i <= v@.len(),
            out@ =~= replaced(v@.take(i as int), from, to),
        decreases v@.len() - i,
    {
        let c = v[i];
        if c == from {
            out.push(to);
        } else {
            out.push(c);
        }
        i = i + 1;
    }
    assert(v@.take(i as int) =~= v@);
    out
}

fn segments_of(v: &[char]) -> (r: Vec<String>)
    ensures
        texts(r@) == segments(v@),
        r@.len() > 0,
{
    let n = prefix_chars(v);
    assert(v@.subrange(n as int, v@.len() as int) =~= v@.skip(n as int));
    let rest = slice_subrange(v, n, v.len());
    let r = if verbatim(v) {
        proof {
            lemma_split_nonempty(rest@, '\\');
        }
        split_chars(rest, '\\')
    } else if windows(v) {
        let w = replace_chars(rest, '\\', '/');
        proof {
            lemma_split_nonempty(w@, '/');
        }
        split_chars(w.as_slice(), '/')
    } else {
        proof {
            lemma_split_nonempty(rest@, '/');
        }
        split_chars(rest, '/')
    };
    assert(texts(r@).len() == r@.len());
    r
}

fn names_of(v: &[char]) -> (r: Vec<String>)
    ensures
        texts(r@) == names(v@),
{
    let all = segments_of(v);
    let whole = verbatim(v);
    let mut out: Vec<String> = Vec::new();
    let mut i: usize = 0;
    proof {
        reveal(Seq::filter);
        reveal_strlit(".");
        assert("."@ =~= seq!['.']);
    }
    while i < all.len()
        invariant
            i <= all@.len(),
            texts(out@) == (if whole {
                filled(texts(all@).take(i as int))
            } else {
                named(texts(all@).take(i as int))
            }),
            "."@ == seq!['.'],
        decreases all@.len() - i,
    {
        let ghost before = out@;
        proof {
            reveal(Seq::filter);
            let t = texts(all@).take(i + 1);
            assert(t.drop_last() =~= texts(all@).take(i as int));
            assert(t.last() == all@[i as int]@);
        }
        if all[i].as_str().unicode_len() > 0 && (whole || !str_eq(all[i].as_str(), ".")) {
            out.push(all[i].clone());
            assert(texts(out@) =~= texts(before).push(all@[i as int]@));
        }
        i = i + 1;
    }
    assert(texts(all@).take(i as int) =~= texts(all@));
    out
}

fn raise_drive(mut s: Vec<char>) -> (r: Vec<char>)
    ensures
        r@ == capital_drive(s@),
{
    if drive_first(s.as_slice()) && 'a' <= s[0] {
        let c = (s[0] as u8 - 32) as char;
        s.set(0, c);
    }
    s
}

fn chars_between(v: &[char], from: usize, to: usize) -> (r: Vec<char>)
    requires
        from <= to <= v@.len(),
    ensures
        r@ == v@.subrange(from as int, to as int),
{
    let mut out: Vec<char> = Vec::new();
    let mut i: usize = from;
    while i < to
        invariant
            from <= i <= to <= v@.len(),
            out@ =~= v@.subrange(from as int, i as int),
        decreases to - i,
    {
        out.push(v[i]);
        i = i + 1;
    }
    out
}

fn prefix_part_of(v: &[char]) -> (r: String)
    ensures
        r@ == prefix_part(v@),
{
    let n = prefix_chars(v);
    let ghost p = v@.take(n as int);
    assert(v@.subrange(0, n as int) =~= p);
    if verbatim(v) {
        if n == 6 {
            assert(v@.subrange(0, 4) =~= p.take(4));
            assert(v@.subrange(4, 6) =~= p.skip(4));
            let mut s = from_chars(slice_subrange(v, 0, 4));
            let drive = raise_drive(chars_between(v, 4, 6));
            s.push_str(from_chars(drive.as_slice()).as_str());
            s
        } else {
            from_chars(slice_subrange(v, 0, n))
        }
    } else {
        let w = raise_drive(replace_chars(slice_subrange(v, 0, n), '/', '\\'));
        from_chars(w.as_slice())
    }
}

fn rooted(v: &[char]) -> (r: bool)
    ensures
        r == is_rooted(v@),
{
    (share(v) && !verbatim(v)) || v.len() > prefix_chars(v)
}

fn parts_of(path: &str) -> (r: Vec<String>)
    ensures
        texts(r@) == parts(path@),
{
    let v = to_chars(path);
    let all = names_of(v.as_slice());
    let first = segments_of(v.as_slice());
    proof {
        assert(texts(first@)[0] == first@[0]@);
        reveal_strlit(".");
        assert("."@ =~= seq!['.']);
        reveal_strlit("/");
        assert("/"@ =~= seq!['/']);
        reveal_strlit("\\");
        assert("\\"@ =~= seq!['\\']);
    }
    let mut out: Vec<String> = Vec::new();
    if windows(v.as_slice()) {
        out.push(prefix_part_of(v.as_slice()));
        if rooted(v.as_slice()) {
            out.push("\\".to_owned());
        }
    } else if absolute(path) {
        out.push("/".to_owned());
    } else if str_eq(first[0].as_str(), ".") {
        out.push(".".to_owned());
    }
    let ghost head = texts(out@);
    let mut i: usize = 0;
    while i < all.len()
        invariant
            i <= all@.len(),
            texts(out@) == head + texts(all@).take(i as int),
        decreases all@.len() - i,
    {
        let ghost before = out@;
        out.push(all[i].clone());
        assert(texts(out@) =~= texts(before).push(all@[i as int]@));
        assert(texts(all@).take(i + 1) =~= texts(all@).take(i as int).push(all@[i as int]@));
        assert(texts(out@) =~= head + texts(all@).take(i + 1));
        i = i + 1;
    }
    assert(texts(out@) =~= head + texts(all@));
    assert(texts(out@) =~= parts(path@));
    out
}

/// The last name of a path.
pub fn name_of(path: &str) -> (r: Option<String>)
    ensures
        opt_text(r) == file_name(path@),
{
    let mut all = names_of(to_chars(path).as_slice());
    let ghost before = all@;
    proof {
        reveal_strlit(".");
        assert("."@ =~= seq!['.']);
        reveal_strlit("..");
        assert(".."@ =~= seq!['.', '.']);
    }
    match all.pop() {
        Some(n) => {
            assert(texts(before).last() == n@);
            if str_eq(n.as_str(), ".") || str_eq(n.as_str(), "..") {
                None
            } else {
                Some(n)
            }
        },
        None => None,
    }
}

proof fn lemma_last_index(s: Seq<char>, c: char, i: int)
    requires
        0 <= i < s.len(),
        s[i] == c,
        forall|k: int| i < k < s.len() ==> s[k] != c,
    ensures
        last_index(s, c) == Some(i),
    decreases s.len(),
{
    if i < s.len() - 1 {
        lemma_last_index(s.drop_last(), c, i);
    }
}

/// A last position lies in the text.
pub proof fn lemma_last_index_within(s: Seq<char>, c: char)
    ensures
        last_index(s, c) matches Some(i) ==> 0 <= i < s.len() && s[i] == c,
    decreases s.len(),
{
    if s.len() > 0 && s.last() != c {
        lemma_last_index_within(s.drop_last(), c);
    }
}

proof fn lemma_last_index_none(s: Seq<char>, c: char)
    requires
        forall|k: int| 0 <= k < s.len() ==> s[k] != c,
    ensures
        last_index(s, c) is None,
    decreases s.len(),
{
    if s.len() > 0 {
        lemma_last_index_none(s.drop_last(), c);
    }
}

fn last_index_chars(v: &[char], c: char) -> (r: Option<usize>)
    ensures
        match r {
            Some(i) => i < v@.len() && last_index(v@, c) == Some(i as int),
            None => last_index(v@, c) is None,
        },
{
    let mut i: usize = v.len();
    while i > 0
        invariant
            i <= v@.len(),
            forall|k: int| i <= k < v@.len() ==> v@[k] != c,
        decreases i,
    {
        i = i - 1;
        if v[i] == c {
            proof {
                lemma_last_index(v@, c, i as int);
            }
            return Some(i);
        }
    }
    proof {
        lemma_last_index_none(v@, c);
    }
    None
}

/// The extension of a file name.
pub fn extension_of_name(name: &str) -> (r: Option<String>)
    ensures
        opt_text(r) == name_extension(name@),
{
    let v = to_chars(name);
    let n: usize = v.len();
    match last_index_chars(v.as_slice(), '.') {
        Some(i) => if i > 0 {
            assert(v@.subrange(i + 1, n as int) =~= v@.skip(i + 1));
            Some(from_chars(slice_subrange(v.as_slice(), i + 1, n)))
        } else {
            None
        },
        None => None,
    }
}

/// A file name without its extension.
pub fn stem_of_name(name: &str) -> (r: String)
    ensures
        r@ == name_stem(name@),
{
    let v = to_chars(name);
    match last_index_chars(v.as_slice(), '.') {
        Some(i) => if i > 0 {
            assert(v@.subrange(0, i as int) =~= v@.take(i as int));
            from_chars(slice_subrange(v.as_slice(), 0, i))
        } else {
            name.to_owned()
        },
        None => name.to_owned(),
    }
}

/// The extension of a path.
pub fn extension_of(path: &str) -> (r: Option<String>)
    ensures
        opt_text(r) == extension(path@),
{
    match name_of(path) {
        Some(n) => extension_of_name(n.as_str()),
        None => None,
    }
}

fn step(v: &mut Vec<String>, segment: &str)
    ensures
        texts(final(v)@) == stepped(texts(old(v)@), segment@),
{
    proof {
        reveal_strlit(".");
        assert("."@ =~= seq!['.']);
        reveal_strlit("..");
        assert(".."@ =~= seq!['.', '.']);
    }
    if segment.unicode_len() == 0 || str_eq(segment, ".") {
        return;
    }
    if !str_eq(segment, "..") {
        v.push(segment.to_owned());
        assert(texts(v@) =~= texts(old(v)@).push(segment@));
        return;
    }
    let n: usize = v.len();
    if n == 0 {
        return;
    }
    assert(texts(v@).last() == v@[n - 1]@);
    if str_eq(v[n - 1].as_str(), ".") || str_eq(v[n - 1].as_str(), "..") {
        return;
    }
    v.pop();
    assert(texts(v@) =~= texts(old(v)@).drop_last());
}

fn write_out(dir: &[char], rest: &[char]) -> (r: String)
    requires
        rest@.len() > 0,
    ensures
        r@ == written_out(dir@, rest@),
{
    let from_root = separates(rest[0], false);
    let mut all: Vec<String> = if from_root {
        Vec::new()
    } else {
        names_of(dir)
    };
    let ghost start = texts(all@);
    assert(from_root ==> start =~= Seq::empty());
    let way = split_chars(replace_chars(rest, '\\', '/').as_slice(), '/');
    let mut i: usize = 0;
    assert(texts(way@).take(0) =~= Seq::empty());
    while i < way.len()
        invariant
            i <= way@.len(),
            texts(all@) == stepped_all(start, texts(way@).take(i as int)),
        decreases way@.len() - i,
    {
        proof {
            let t = texts(way@).take(i + 1);
            assert(t.drop_last() =~= texts(way@).take(i as int));
            assert(t.last() == way@[i as int]@);
        }
        step(&mut all, way[i].as_str());
        i = i + 1;
    }
    assert(texts(way@).take(i as int) =~= texts(way@));
    let n = prefix_chars(dir);
    assert(dir@.subrange(0, n as int) =~= dir@.take(n as int));
    let mut s = from_chars(slice_subrange(dir, 0, n));
    let ghost prefix = s@;
    let ghost v = texts(all@);
    if all.len() == 0 && (from_root || rooted(dir)) {
        s.push('\\');
        assert(s@ =~= prefix + seq!['\\']);
        return s;
    }
    let mut k: usize = 0;
    assert(v.take(0) =~= Seq::empty());
    assert(s@ =~= prefix + backslashed(v.take(0)));
    while k < all.len()
        invariant
            v == texts(all@),
            k <= all@.len(),
            s@ == prefix + backslashed(v.take(k as int)),
        decreases all@.len() - k,
    {
        proof {
            let t = v.take(k + 1);
            assert(t.drop_last() =~= v.take(k as int));
            assert(t.last() == all@[k as int]@);
        }
        s.push('\\');
        s.push_str(all[k].as_str());
        assert(s@ =~= prefix + backslashed(v.take(k + 1)));
        k = k + 1;
    }
    assert(v.take(k as int) =~= v);
    assert(all.len() == 0 ==> s@ =~= prefix);
    s
}

/// A path below a directory.
pub fn join_path(dir: &str, rest: &str) -> (r: String)
    ensures
        r@ == joined(dir@, rest@),
{
    let d = to_chars(dir);
    let t = to_chars(rest);
    let n: usize = d.len();
    let on_windows = windows(d.as_slice());
    if windows(t.as_slice()) || (on_windows && drive_first(t.as_slice())) {
        return rest.to_owned();
    }
    if on_windows && t.len() > 0 {
        if verbatim(d.as_slice()) {
            return write_out(d.as_slice(), t.as_slice());
        }
        if separates(t[0], false) {
            let k = prefix_chars(d.as_slice());
            assert(d@.subrange(0, k as int) =~= d@.take(k as int));
            let mut s = from_chars(slice_subrange(d.as_slice(), 0, k));
            s.push_str(rest);
            return s;
        }
    }
    if !on_windows && absolute(rest) {
        return rest.to_owned();
    }
    let mut s = dir.to_owned();
    if on_windows {
        if !(separates(d[n - 1], false) || (drive_first(d.as_slice()) && n == 2)) {
            s.push('\\');
            assert(s@ =~= dir@ + seq!['\\']);
        }
    } else if !(n == 0 || d[n - 1] == '/') {
        s.push('/');
        assert(s@ =~= dir@ + seq!['/']);
    }
    s.push_str(rest);
    s
}

/// A path below a directory that starts from the root begins as the directory does,
/// unless it stands for itself; and it stands for itself from then on.
pub proof fn lemma_prefix_kept(dir: Seq<char>, rest: Seq<char>)
    requires
        if is_windows(dir) {
            is_rooted(dir)
        } else {
            is_absolute(dir)
        },
    ensures
        ({
            let p = joined(dir, rest);
            &&& joined(dir, p) == p
            &&& p == rest || (p.len() >= 1 && p[0] == dir[0] && is_windows(p) == is_windows(dir))
        }),
{
    let p = joined(dir, rest);
    if is_share(dir) {
        reveal_with_fuel(before_separator, 4);
        assert(dir.skip(1)[0] == '\\');
        assert(prefix_len(dir) >= 2);
        let head = dir.take(prefix_len(dir) as int);
        lemma_before_separator(dir, 4, is_verbatim(dir));
        lemma_before_separator(dir, 6, is_verbatim(dir));
        assert(head[0] == '\\' && head[1] == '\\');
        if p != rest {
            assert(p[0] == '\\' && p[1] == '\\');
        }
    } else if is_windows(dir) {
        if p != rest {
            assert(p[0] == dir[0] && p[1] == dir[1]);
            assert(is_separator(p[2], false));
        }
    }
}

proof fn lemma_before_separator(s: Seq<char>, n: nat, verbatim: bool)
    ensures
        before_separator(s, n, verbatim) <= s.len(),
    decreases s.len(),
{
    if s.len() > 0 {
        lemma_before_separator(s.skip(1), n, verbatim);
        if n > 1 {
            lemma_before_separator(s.skip(1), (n - 1) as nat, verbatim);
        }
    }
}

/// A path below a directory ends as the name that was put behind it does.
pub proof fn lemma_joined_name(dir: Seq<char>, name: Seq<char>)
    requires
        is_named(name),
        name != seq!['.', '.'],
        forall|k: int| 0 <= k < name.len() ==> !is_separator(#[trigger] name[k], false),
    ensures
        joined(dir, name).len() > 0,
        joined(dir, name).last() == name.last(),
{
    if is_verbatim(dir) && !has_drive(name) {
        let r = replaced(name, '\\', '/');
        assert(r =~= name);
        lemma_char_index(name, '/');
        let way = split(r, '/');
        assert(way =~= seq![name]);
        assert(way.drop_last() =~= Seq::empty());
        let start = names(dir);
        reveal_with_fuel(stepped_all, 2);
        assert(stepped_all(start, way) == start.push(name));
        assert(start.push(name).drop_last() =~= start);
    }
}

/// Whether a path lies in a directory.
pub fn within(path: &str, root: &str) -> (r: bool)
    ensures
        r == lies_within(path@, root@),
{
    let p = parts_of(path);
    let q = parts_of(root);
    if q.len() > p.len() {
        return false;
    }
    let mut i: usize = 0;
    while i < q.len()
        invariant
            texts(p@) == parts(path@),
            texts(q@) == parts(root@),
            q@.len() <= p@.len(),
            i <= q@.len(),
            forall|k: int| 0 <= k < i ==> q@[k]@ == p@[k]@,
        decreases q@.len() - i,
    {
        if !str_eq(q[i].as_str(), p[i].as_str()) {
            proof {
                assert(texts(q@)[i as int] == q@[i as int]@);
                assert(texts(p@)[i as int] == p@[i as int]@);
                assert(texts(p@).subrange(0, q@.len() as int)[i as int] == p@[i as int]@);
            }
            return false;
        }
        i = i + 1;
    }
    assert(texts(q@) =~= texts(p@).subrange(0, q@.len() as int));
    true
}

/// A directory contains itself, and what lies in a directory that lies in
/// another lies in that other.
pub proof fn lemma_within_order(a: Seq<char>, b: Seq<char>, c: Seq<char>)
    ensures
        lies_within(a, a),
        lies_within(a, b) && lies_within(b, c) ==> lies_within(a, c),
{
    assert(parts(a) =~= parts(a).subrange(0, parts(a).len() as int));
    if lies_within(a, b) && lies_within(b, c) {
        assert(parts(c) =~= parts(a).subrange(0, parts(c).len() as int)) by {
            assert forall|i: int| 0 <= i < parts(c).len() implies parts(c)[i] == parts(a)[i] by {
                assert(parts(b).subrange(0, parts(c).len() as int)[i] == parts(b)[i]);
                assert(parts(a).subrange(0, parts(b).len() as int)[i] == parts(a)[i]);
            }
        }
    }
}

} // verus!
