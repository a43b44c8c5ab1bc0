//! Where a path leads: what is put below a directory lies in it and in no other.
use crate::config::{cache_path, workspace_path};
use crate::lines::split;
use crate::paths::{file_name, is_named, joined, lies_within, named, names, parts, segments};
use crate::text::{char_index, lemma_char_index, lemma_char_index_is, trim};
use vstd::prelude::*;

verus! {

/// A directory that is named from the root.
pub open spec fn from_root(dir: Seq<char>) -> bool {
    dir.len() > 1 && dir[0] == '/' && dir.last() != '/'
}

/// A name of a file or a directory.
pub open spec fn is_name(name: Seq<char>) -> bool {
    name.len() > 0 && name != "."@ && name != ".."@ && !name.contains('/') && !name.contains('\\')
        && !name.contains(':')
}

/// What stands below a directory under a name.
pub open spec fn below(dir: Seq<char>, name: Seq<char>) -> Seq<char> {
    dir + "/"@ + name
}

proof fn lemma_dots()
    ensures
        "."@ == seq!['.'],
        ".."@ == seq!['.', '.'],
        "/"@ == seq!['/'],
{
    reveal_strlit(".");
    reveal_strlit("..");
    reveal_strlit("/");
    assert("."@ =~= seq!['.']);
    assert(".."@ =~= seq!['.', '.']);
    assert("/"@ =~= seq!['/']);
}

/// A text without a separator is one piece.
pub proof fn lemma_split_none(s: Seq<char>, c: char)
    requires
        !s.contains(c),
    ensures
        split(s, c) == seq![s],
{
    lemma_char_index(s, c);
    if char_index(s, c) is Some {
        assert(s.contains(s[char_index(s, c)->0]));
    }
}

/// At a separator a text parts into the pieces before it and those behind it.
pub proof fn lemma_split_at(a: Seq<char>, c: char, b: Seq<char>)
    ensures
        split(a + seq![c] + b, c) == split(a, c) + split(b, c),
    decreases a.len(),
{
    let s = a + seq![c] + b;
    lemma_char_index(a, c);
    match char_index(a, c) {
        Some(i) => {
            assert forall|k: int| 0 <= k < i implies s[k] != c by {
                assert(s[k] == a[k]);
            }
            lemma_char_index_is(s, c, i);
            assert(s.take(i) =~= a.take(i));
            assert(s.skip(i + 1) =~= a.skip(i + 1) + seq![c] + b);
            lemma_split_at(a.skip(i + 1), c, b);
            assert(split(s, c) =~= split(a, c) + split(b, c));
        },
        None => {
            let n = a.len() as int;
            assert forall|k: int| 0 <= k < n implies s[k] != c by {
                assert(s[k] == a[k]);
            }
            assert(s[n] == c);
            lemma_char_index_is(s, c, n);
            assert(s.take(n) =~= a);
            assert(s.skip(n + 1) =~= b);
        },
    }
}

proof fn lemma_parts_below(dir: Seq<char>, name: Seq<char>)
    requires
        from_root(dir),
        is_name(name),
    ensures
        parts(below(dir, name)) == parts(dir).push(name),
        names(below(dir, name)) == names(dir).push(name),
{
    lemma_dots();
    reveal(Seq::filter);
    let p = below(dir, name);
    lemma_split_at(dir, '/', name);
    lemma_split_none(name, '/');
    assert(p.skip(0) =~= p);
    assert(dir.skip(0) =~= dir);
    assert(segments(p) =~= segments(dir).push(name));
    assert(segments(p).drop_last() =~= segments(dir));
    assert(is_named(name));
    assert(named(segments(p)) == named(segments(dir)).push(name));
    assert(parts(p) =~= parts(dir).push(name));
}

/// What is put below a directory under a name stands there, has that name, lies in the
/// directory, and does not contain it; what has another name lies beside it.
pub proof fn lemma_below(dir: Seq<char>, a: Seq<char>, b: Seq<char>)
    requires
        from_root(dir),
        is_name(a),
        is_name(b),
    ensures
        joined(dir, a) == below(dir, a),
        file_name(below(dir, a)) == Some(a),
        lies_within(below(dir, a), dir),
        !lies_within(dir, below(dir, a)),
        lies_within(below(dir, a), below(dir, b)) <==> a == b,
        lies_within(below(below(dir, a), b), below(dir, a)),
        a != b ==> !lies_within(below(below(dir, a), b), below(dir, b)),
{
    lemma_dots();
    lemma_parts_below(dir, a);
    lemma_parts_below(dir, b);
    assert(below(dir, a).last() == a.last());
    assert(a.contains(a.last()));
    lemma_parts_below(below(dir, a), b);
    let d = parts(dir);
    let n = d.len() as int;
    assert(d.push(a).subrange(0, n) =~= d);
    assert(d.push(a).push(b).subrange(0, n + 1) =~= d.push(a));
    if lies_within(below(dir, a), below(dir, b)) {
        assert(d.push(a)[n] == d.push(b)[n]);
    } else {
        assert(d.push(a).subrange(0, n + 1) =~= d.push(a));
    }
    if lies_within(below(below(dir, a), b), below(dir, b)) {
        assert(d.push(a).push(b)[n] == d.push(b)[n]);
    }
    assert(a.contains(a[0]));
    if a.len() > 1 {
        assert(a.contains(a[1]));
    }
}

/// A directory of the settings stands for itself when it is named from the root, lies
/// below the program's own directory when it is a name, and is the usual one when it is
/// left out.
pub proof fn lemma_directories_meant(
    field: Seq<char>,
    dir: Seq<char>,
    profile: Option<Seq<char>>,
    home: Option<Seq<char>>,
)
    requires
        from_root(dir),
    ensures
        from_root(trim(field)) ==> workspace_path(field, dir, profile, home) == trim(field)
            && cache_path(field, dir) == trim(field),
        is_name(trim(field)) ==> workspace_path(field, dir, profile, home) == below(
            dir,
            trim(field),
        ) && cache_path(field, dir) == below(dir, trim(field)),
        trim(field).len() == 0 ==> cache_path(field, dir) == below(dir, "cache"@),
        trim(field).len() == 0 && profile is Some && from_root(profile->0) ==> workspace_path(
            field,
            dir,
            profile,
            home,
        ) == below(below(profile->0, "Documents"@), "ovoice"@),
        trim(field).len() == 0 && profile is None && home is Some && from_root(home->0)
            ==> workspace_path(field, dir, profile, home) == below(
            below(home->0, "Documents"@),
            "ovoice"@,
        ),
{
    lemma_dots();
    let t = trim(field);
    if is_name(t) {
        lemma_below(dir, t, t);
    }
    lemma_usual_names();
    lemma_below(dir, "cache"@, "cache"@);
    if profile is Some && from_root(profile->0) {
        let d = below(profile->0, "Documents"@);
        lemma_below(profile->0, "Documents"@, "Documents"@);
        assert(d.last() == "Documents"@.last());
        lemma_below(d, "ovoice"@, "ovoice"@);
    }
    if home is Some && from_root(home->0) {
        let d = below(home->0, "Documents"@);
        lemma_below(home->0, "Documents"@, "Documents"@);
        assert(d.last() == "Documents"@.last());
        lemma_below(d, "ovoice"@, "ovoice"@);
    }
}

proof fn lemma_usual_names()
    ensures
        is_name("cache"@),
        is_name("Documents"@),
        is_name("ovoice"@),
        "Documents"@.last() == 's',
{
    lemma_dots();
    reveal_strlit("cache");
    reveal_strlit("Documents");
    reveal_strlit("ovoice");
    assert("cache"@.len() == 5 && "Documents"@.len() == 9 && "ovoice"@.len() == 6);
}

} // verus!
