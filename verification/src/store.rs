//! What the memory's files hold: the directories below it and the files in them, as
//! they were found.
use crate::cut::{byte_len, bytes_of};
use crate::lines::{lines, lines_of, sort_strs, sorted, split, split_str};
use crate::paths::{
    extension_of_name, join_path, joined, name_extension, name_stem, stem_of_name,
};
use crate::text::{begins, opt_str, opt_text, starts_with, str_eq, texts, trim, trimmed};
use vstd::prelude::*;

verus! {

/// A directory or a file: the directory that it is in, as a path below the root,
/// and its name. A file that could not be read has no text.
#[derive(Debug)]
pub struct Entry {
    pub dir: String,
    pub name: String,
    pub is_dir: bool,
    pub text: Option<String>,
}

/// What an entry holds.
pub struct EntryView {
    pub dir: Seq<char>,
    pub name: Seq<char>,
    pub is_dir: bool,
    pub text: Option<Seq<char>>,
}

impl View for Entry {
    type V = EntryView;

    open spec fn view(&self) -> EntryView {
        EntryView {
            dir: self.dir@,
            name: self.name@,
            is_dir: self.is_dir,
            text: opt_text(self.text),
        }
    }
}

/// What entries hold.
pub open spec fn entry_views(v: Seq<Entry>) -> Seq<EntryView> {
    v.map_values(|e: Entry| e@)
}

/// The files and directories below a root, each directory followed by what is in
/// it.
#[derive(Debug)]
pub struct Store {
    pub root: String,
    pub entries: Vec<Entry>,
}

/// What a store holds.
pub struct StoreView {
    pub root: Seq<char>,
    pub entries: Seq<EntryView>,
}

impl View for Store {
    type V = StoreView;

    open spec fn view(&self) -> StoreView {
        StoreView { root: self.root@, entries: entry_views(self.entries@) }
    }
}

/// The text of the first file with a name in a directory.
pub open spec fn text_of(v: Seq<EntryView>, dir: Seq<char>, name: Seq<char>) -> Option<Seq<char>>
    decreases v.len(),
{
    if v.len() == 0 {
        None
    } else if !v[0].is_dir && v[0].dir == dir && v[0].name == name {
        v[0].text
    } else {
        text_of(v.skip(1), dir, name)
    }
}

/// The names of the directories in a directory.
pub open spec fn dirs_in(v: Seq<EntryView>, dir: Seq<char>) -> Seq<Seq<char>>
    decreases v.len(),
{
    if v.len() == 0 {
        Seq::empty()
    } else {
        let head = dirs_in(v.drop_last(), dir);
        if v.last().is_dir && v.last().dir == dir {
            head.push(v.last().name)
        } else {
            head
        }
    }
}

/// A file with records of a period: its name has the extension of such files, and
/// before it a date of the given length.
pub open spec fn is_record_file(e: EntryView, dir: Seq<char>, len: nat) -> bool {
    &&& !e.is_dir
    &&& e.dir == dir
    &&& name_extension(e.name) == Some("jsonl"@)
    &&& byte_len(name_stem(e.name)) == len
}

/// The lines of a text that begin with a brace.
pub open spec fn braced(v: Seq<Seq<char>>) -> Seq<Seq<char>> {
    v.filter(|l: Seq<char>| starts_with(trim(l), "{"@))
}

/// The lines that stand for events in the files of a month's days.
pub open spec fn event_lines(v: Seq<EntryView>, dir: Seq<char>) -> Seq<Seq<char>>
    decreases v.len(),
{
    if v.len() == 0 {
        Seq::empty()
    } else {
        let head = event_lines(v.drop_last(), dir);
        let e = v.last();
        match e.text {
            Some(t) => if is_record_file(e, dir, 10) {
                head + braced(lines(t))
            } else {
                head
            },
            None => head,
        }
    }
}

/// The names of a month's days that are kept as Markdown.
pub open spec fn note_names(v: Seq<EntryView>, dir: Seq<char>) -> Seq<Seq<char>>
    decreases v.len(),
{
    if v.len() == 0 {
        Seq::empty()
    } else {
        let head = note_names(v.drop_last(), dir);
        let e = v.last();
        if !e.is_dir && e.dir == dir && name_extension(e.name) == Some("md"@) && byte_len(
            name_stem(e.name),
        ) == 10 {
            head.push(e.name)
        } else {
            head
        }
    }
}

/// A directory, or one below it.
pub open spec fn is_under(dir: Seq<char>, top: Seq<char>) -> bool {
    dir == top || starts_with(dir, top + "/"@)
}

/// A file with an extension in a directory or below it.
pub open spec fn has_extension(e: EntryView, top: Seq<char>, ext: Seq<char>) -> bool {
    !e.is_dir && is_under(e.dir, top) && name_extension(e.name) == Some(ext)
}

/// Some file in a directory or below it has an extension.
pub open spec fn some_extension(v: Seq<EntryView>, top: Seq<char>, ext: Seq<char>) -> bool {
    exists|i: int| 0 <= i < v.len() && has_extension(#[trigger] v[i], top, ext)
}

/// Whether a directory is another or lies below it.
pub fn under(dir: &str, top: &str) -> (r: bool)
    ensures
        r == is_under(dir@, top@),
{
    let mut p = top.to_owned();
    p.push_str("/");
    str_eq(dir, top) || begins(dir, p.as_str())
}

/// Whether a name has an extension.
pub fn name_has_extension(name: &str, ext: &str) -> (r: bool)
    ensures
        r == (name_extension(name@) == Some(ext@)),
{
    match extension_of_name(name) {
        Some(e) => str_eq(e.as_str(), ext),
        None => false,
    }
}

/// How many bytes a name has before its extension.
pub fn stem_len(name: &str) -> (r: usize)
    ensures
        r == byte_len(name_stem(name@)),
{
    bytes_of(stem_of_name(name).as_str())
}

fn braced_lines(text: &str) -> (r: Vec<String>)
    ensures
        texts(r@) == braced(lines(text@)),
{
    let v = lines_of(text);
    let ghost all = lines(text@);
    let ghost p = |l: Seq<char>| starts_with(trim(l), "{"@);
    let mut out: Vec<String> = Vec::new();
    let mut i: usize = 0;
    proof {
        reveal(Seq::filter);
        assert(texts(out@) =~= all.take(0).filter(p));
    }
    while i < v.len()
        invariant
            all == texts(v@),
            p == (|l: Seq<char>| starts_with(trim(l), "{"@)),
            i <= v@.len(),
            texts(out@) == all.take(i as int).filter(p),
        decreases v@.len() - i,
    {
        proof {
            reveal(Seq::filter);
            let x = all.take(i + 1);
            assert(x.drop_last() =~= all.take(i as int));
            assert(x.last() == v@[i as int]@);
        }
        if begins(trimmed(v[i].as_str()).as_str(), "{") {
            let ghost before = texts(out@);
            out.push(v[i].clone());
            assert(texts(out@) =~= before.push(v@[i as int]@));
        }
        i = i + 1;
    }
    assert(all.take(i as int) =~= all);
    out
}

/// A directory's path below another, with names between slashes.
pub open spec fn sub_dir(dir: Seq<char>, name: Seq<char>) -> Seq<char> {
    dir + "/"@ + name
}

/// A directory's path below another.
pub fn below_dir(dir: &str, name: &str) -> (r: String)
    ensures
        r@ == sub_dir(dir@, name@),
{
    let mut s = dir.to_owned();
    s.push_str("/");
    s.push_str(name);
    s
}

/// A path below a directory, name by name.
pub open spec fn joined_all(dir: Seq<char>, way: Seq<Seq<char>>) -> Seq<char>
    decreases way.len(),
{
    if way.len() == 0 {
        dir
    } else {
        joined(joined_all(dir, way.drop_last()), way.last())
    }
}

/// The path of an entry.
pub open spec fn entry_path(root: Seq<char>, e: EntryView) -> Seq<char> {
    joined(joined_all(root, split(e.dir, '/')), e.name)
}

impl Store {
    /// The text of a file, when it is there and could be read.
    pub fn text(&self, dir: &str, name: &str) -> (r: Option<&str>)
        ensures
            opt_str(r) == text_of(self@.entries, dir@, name@),
    {
        let ghost all = self@.entries;
        let mut i: usize = 0;
        assert(all.skip(0) =~= all);
        while i < self.entries.len()
            invariant
                all == entry_views(self.entries@),
                i <= self.entries@.len(),
                text_of(all, dir@, name@) == text_of(all.skip(i as int), dir@, name@),
            decreases self.entries@.len() - i,
        {
            let e = &self.entries[i];
            proof {
                let x = all.skip(i as int);
                assert(x[0] == e@);
                assert(x.skip(1) =~= all.skip(i + 1));
            }
            if !e.is_dir && str_eq(e.dir.as_str(), dir) && str_eq(e.name.as_str(), name) {
                return match &e.text {
                    Some(t) => Some(t.as_str()),
                    None => None,
                };
            }
            i = i + 1;
        }
        None
    }

    /// The names of the directories in a directory, in ascending order.
    pub fn dirs(&self, dir: &str) -> (r: Vec<String>)
        ensures
            texts(r@) == sorted(dirs_in(self@.entries, dir@)),
    {
        let ghost all = self@.entries;
        let mut out: Vec<String> = Vec::new();
        let mut i: usize = 0;
        proof {
            assert(all.take(0) =~= Seq::empty());
            assert(texts(out@) =~= Seq::empty());
        }
        while i < self.entries.len()
            invariant
                all == entry_views(self.entries@),
                i <= self.entries@.len(),
                texts(out@) == dirs_in(all.take(i as int), dir@),
            decreases self.entries@.len() - i,
        {
            let e = &self.entries[i];
            proof {
                let x = all.take(i + 1);
                assert(x.drop_last() =~= all.take(i as int));
                assert(x.last() == e@);
            }
            if e.is_dir && str_eq(e.dir.as_str(), dir) {
                let ghost before = texts(out@);
                out.push(e.name.clone());
                assert(texts(out@) =~= before.push(e.name@));
            }
            i = i + 1;
        }
        assert(all.take(i as int) =~= all);
        sort_strs(out)
    }

    /// The lines that stand for events in the files of a month's days.
    pub fn events_in(&self, dir: &str) -> (r: Vec<String>)
        ensures
            texts(r@) == event_lines(self@.entries, dir@),
    {
        let ghost all = self@.entries;
        let mut out: Vec<String> = Vec::new();
        let mut i: usize = 0;
        proof {
            assert(all.take(0) =~= Seq::empty());
            assert(texts(out@) =~= Seq::empty());
        }
        while i < self.entries.len()
            invariant
                all == entry_views(self.entries@),
                i <= self.entries@.len(),
                texts(out@) == event_lines(all.take(i as int), dir@),
            decreases self.entries@.len() - i,
        {
            let e = &self.entries[i];
            proof {
                let x = all.take(i + 1);
                assert(x.drop_last() =~= all.take(i as int));
                assert(x.last() == e@);
            }
            if !e.is_dir && str_eq(e.dir.as_str(), dir) && name_has_extension(
                e.name.as_str(),
                "jsonl",
            ) && stem_len(e.name.as_str()) == 10 {
                if let Some(t) = &e.text {
                    let ghost before = texts(out@);
                    let mut more = braced_lines(t.as_str());
                    let ghost added = texts(more@);
                    out.append(&mut more);
                    assert(texts(out@) =~= before + added);
                }
            }
            i = i + 1;
        }
        assert(all.take(i as int) =~= all);
        out
    }

    /// The names of a month's days that are kept as Markdown, in ascending order.
    pub fn notes_in(&self, dir: &str) -> (r: Vec<String>)
        ensures
            texts(r@) == sorted(note_names(self@.entries, dir@)),
    {
        let ghost all = self@.entries;
        let mut out: Vec<String> = Vec::new();
        let mut i: usize = 0;
        proof {
            assert(all.take(0) =~= Seq::empty());
            assert(texts(out@) =~= Seq::empty());
        }
        while i < self.entries.len()
            invariant
                all == entry_views(self.entries@),
                i <= self.entries@.len(),
                texts(out@) == note_names(all.take(i as int), dir@),
            decreases self.entries@.len() - i,
        {
            let e = &self.entries[i];
            proof {
                let x = all.take(i + 1);
                assert(x.drop_last() =~= all.take(i as int));
                assert(x.last() == e@);
            }
            if !e.is_dir && str_eq(e.dir.as_str(), dir) && name_has_extension(
                e.name.as_str(),
                "md",
            ) && stem_len(e.name.as_str()) == 10 {
                let ghost before = texts(out@);
                out.push(e.name.clone());
                assert(texts(out@) =~= before.push(e.name@));
            }
            i = i + 1;
        }
        assert(all.take(i as int) =~= all);
        sort_strs(out)
    }

    /// Whether some file in a directory or below it has an extension.
    pub fn holds(&self, top: &str, ext: &str) -> (r: bool)
        ensures
            r == some_extension(self@.entries, top@, ext@),
    {
        let ghost all = self@.entries;
        let mut i: usize = 0;
        while i < self.entries.len()
            invariant
                all == entry_views(self.entries@),
                i <= self.entries@.len(),
                forall|k: int| 0 <= k < i ==> !has_extension(#[trigger] all[k], top@, ext@),
            decreases self.entries@.len() - i,
        {
            let e = &self.entries[i];
            assert(all[i as int] == e@);
            if !e.is_dir && under(e.dir.as_str(), top) && name_has_extension(e.name.as_str(), ext) {
                return true;
            }
            i = i + 1;
        }
        false
    }

    /// The path of an entry.
    pub fn path(&self, e: &Entry) -> (r: String)
        ensures
            r@ == entry_path(self@.root, e@),
    {
        let way = split_str(e.dir.as_str(), '/');
        let mut s = self.root.clone();
        let mut i: usize = 0;
        assert(texts(way@).take(0) =~= Seq::empty());
        while i < way.len()
            invariant
                i <= way@.len(),
                s@ == joined_all(self@.root, texts(way@).take(i as int)),
            decreases way@.len() - i,
        {
            proof {
                let t = texts(way@).take(i + 1);
                assert(t.drop_last() =~= texts(way@).take(i as int));
                assert(t.last() == way@[i as int]@);
            }
            s = join_path(s.as_str(), way[i].as_str());
            i = i + 1;
        }
        assert(texts(way@).take(i as int) =~= texts(way@));
        join_path(s.as_str(), e.name.as_str())
    }
}

} // verus!
