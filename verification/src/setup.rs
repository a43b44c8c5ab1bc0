//! What is done when the program starts and ends: files that move, files that are
//! missing, and jobs that still run.
use crate::config::Config;
use crate::cut::{cap_str, capped};
use crate::files::{ext_of, mime_from_ext, mime_of};
use crate::jobs::{JobKind, JobRegistry, JobView};
use crate::json::{jsons, lemma_jsons_len, lemma_jsons_push, Fields, Json, JsonView};
use crate::llm::{base64_encode, base64_text};
use crate::text::{list_has, opt_text, texts, trim, trimmed};
use vstd::prelude::*;

verus! {

/// The program's own files, which stood among the user's files once.
pub open spec fn own_names() -> Seq<Seq<char>> {
    seq![
        "SOUL.md"@,
        "AGENT.md"@,
        "MEMORY.md"@,
        "memory"@,
        "history"@,
        "attachments"@,
        ".ovoice-jobs"@,
    ]
}

/// The program's own files that are among the user's and not yet among its own.
pub open spec fn names_to_move(user: Seq<Seq<char>>, own: Seq<Seq<char>>) -> Seq<Seq<char>> {
    own_names().filter(|n: Seq<char>| user.contains(n) && !own.contains(n))
}

fn list_own_names() -> (r: Vec<String>)
    ensures
        texts(r@) == own_names(),
{
    let mut v: Vec<String> = Vec::new();
    v.push("SOUL.md".to_owned());
    v.push("AGENT.md".to_owned());
    v.push("MEMORY.md".to_owned());
    v.push("memory".to_owned());
    v.push("history".to_owned());
    v.push("attachments".to_owned());
    v.push(".ovoice-jobs".to_owned());
    assert(texts(v@) =~= own_names());
    v
}

/// The files to move from the user's directory to the program's own, by what each
/// of them holds: nothing that is there is replaced.
pub fn legacy_moves(user: &Vec<String>, own: &Vec<String>) -> (r: Vec<String>)
    ensures
        texts(r@) == names_to_move(texts(user@), texts(own@)),
{
    let names = list_own_names();
    let ghost all = own_names();
    let ghost p = |n: Seq<char>| texts(user@).contains(n) && !texts(own@).contains(n);
    let mut out: Vec<String> = Vec::new();
    let mut i: usize = 0;
    proof {
        reveal(Seq::filter);
        assert(texts(out@) =~= all.take(0).filter(p));
    }
    while i < names.len()
        invariant
            texts(names@) == all,
            p == (|n: Seq<char>| texts(user@).contains(n) && !texts(own@).contains(n)),
            i <= names@.len(),
            texts(out@) == all.take(i as int).filter(p),
        decreases names@.len() - i,
    {
        proof {
            reveal(Seq::filter);
            let t = all.take(i + 1);
            assert(t.drop_last() =~= all.take(i as int));
            assert(t.last() == names@[i as int]@);
        }
        if list_has(user, names[i].as_str()) && !list_has(own, names[i].as_str()) {
            let ghost before = texts(out@);
            out.push(names[i].clone());
            assert(texts(out@) =~= before.push(names@[i as int]@));
        }
        i = i + 1;
    }
    assert(all.take(i as int) =~= all);
    out
}

/// A file of the program's own that is there is never among those that move.
pub proof fn lemma_never_replaced(user: Seq<Seq<char>>, own: Seq<Seq<char>>, name: Seq<char>)
    requires
        own.contains(name),
    ensures
        !names_to_move(user, own).contains(name),
{
    let p = |n: Seq<char>| user.contains(n) && !own.contains(n);
    let v = own_names().filter(p);
    if v.contains(name) {
        let i = choose|i: int| 0 <= i < v.len() && v[i] == name;
        own_names().lemma_filter_pred(p, i);
    }
}

/// The files that are written with what they hold by default when they are missing.
pub open spec fn default_names() -> Seq<Seq<char>> {
    seq!["SOUL.md"@, "AGENT.md"@, "MEMORY.md"@]
}

/// The files to write with what they hold by default: nothing that is there is
/// replaced.
pub fn missing_defaults(own: &Vec<String>) -> (r: Vec<String>)
    ensures
        texts(r@) == default_names().filter(|n: Seq<char>| !texts(own@).contains(n)),
{
    let mut names: Vec<String> = Vec::new();
    names.push("SOUL.md".to_owned());
    names.push("AGENT.md".to_owned());
    names.push("MEMORY.md".to_owned());
    let ghost all = default_names();
    let ghost p = |n: Seq<char>| !texts(own@).contains(n);
    let mut out: Vec<String> = Vec::new();
    let mut i: usize = 0;
    proof {
        reveal(Seq::filter);
        assert(texts(names@) =~= all);
        assert(texts(out@) =~= all.take(0).filter(p));
    }
    while i < names.len()
        invariant
            texts(names@) == all,
            p == (|n: Seq<char>| !texts(own@).contains(n)),
            i <= names@.len(),
            texts(out@) == all.take(i as int).filter(p),
        decreases names@.len() - i,
    {
        proof {
            reveal(Seq::filter);
            let t = all.take(i + 1);
            assert(t.drop_last() =~= all.take(i as int));
            assert(t.last() == names@[i as int]@);
        }
        if !list_has(own, names[i].as_str()) {
            let ghost before = texts(out@);
            out.push(names[i].clone());
            assert(texts(out@) =~= before.push(names@[i as int]@));
        }
        i = i + 1;
    }
    assert(all.take(i as int) =~= all);
    out
}

// ---------------------------------------------------------------------------
// The background
// ---------------------------------------------------------------------------

/// A file as an address that holds it.
pub open spec fn inline_address(path: Seq<char>, bytes: Seq<u8>) -> Seq<char> {
    "data:"@ + mime_of(ext_of(path)) + ";base64,"@ + base64_text(bytes)
}

/// A file as an address that holds it.
pub fn data_url(path: &str, bytes: &Vec<u8>) -> (r: String)
    ensures
        r@ == inline_address(path@, bytes@),
{
    let mut s = "data:".to_owned();
    s.push_str(mime_from_ext(path));
    s.push_str(";base64,");
    s.push_str(base64_encode(bytes.as_slice()).as_str());
    s
}

/// The file of the background, when there is to be one.
pub fn background_file(cfg: &Config) -> (r: Option<String>)
    ensures
        opt_text(r) == (if cfg.bg_enabled && trim(cfg.bg_path@).len() > 0 {
            Some(trim(cfg.bg_path@))
        } else {
            None
        }),
{
    if !cfg.bg_enabled {
        return None;
    }
    let t = trimmed(cfg.bg_path.as_str());
    if t.as_str().unicode_len() == 0 {
        return None;
    }
    Some(t)
}

// ---------------------------------------------------------------------------
// Jobs
// ---------------------------------------------------------------------------

/// A log as it is shown: without the blanks at its ends, and cut when it is long.
pub fn log_text(decoded: &str, max: usize) -> (r: String)
    ensures
        r@ == capped(trim(decoded@), max as int, "\n…[已截断]"@),
{
    cap_str(trimmed(decoded).as_str(), max, "\n…[已截断]")
}

/// What is shown of a job that still runs.
pub open spec fn running_json(j: JobView) -> JsonView {
    JsonView::Obj(
        map![
            "id"@ => JsonView::Str(j.id),
            "label"@ => JsonView::Str(j.label),
            "kind"@ => JsonView::Str(match j.kind {
                JobKind::Process => "process"@,
                JobKind::Agent => "agent"@,
            })],
    )
}

/// What is shown of the jobs that still run.
pub open spec fn running_list(v: Seq<JobView>) -> Seq<JsonView>
    decreases v.len(),
{
    if v.len() == 0 {
        Seq::empty()
    } else {
        let head = running_list(v.drop_last());
        if v.last().status is Running {
            head.push(running_json(v.last()))
        } else {
            head
        }
    }
}

/// What is asked before the window closes: nothing when no job runs.
pub fn close_question(registry: &JobRegistry) -> (r: Option<Json>)
    ensures
        match r {
            Some(q) => running_list(registry@.jobs).len() > 0 && q@ == JsonView::Obj(
                map!["jobs"@ => JsonView::Arr(running_list(registry@.jobs))],
            ),
            None => running_list(registry@.jobs).len() == 0,
        },
{
    let ghost v = registry@.jobs;
    let mut out: Vec<Json> = Vec::new();
    let mut i: usize = 0;
    proof {
        assert(v.take(0) =~= Seq::empty());
        assert(jsons(out@) =~= Seq::empty());
    }
    while i < registry.jobs.len()
        invariant
            v == registry@.jobs,
            i <= registry.jobs@.len(),
            jsons(out@) == running_list(v.take(i as int)),
        decreases registry.jobs@.len() - i,
    {
        let j = &registry.jobs[i];
        proof {
            let t = v.take(i + 1);
            assert(t.drop_last() =~= v.take(i as int));
            assert(t.last() == j@);
        }
        if j.status.is_running() {
            let mut f = Fields::new();
            f.insert("id", Json::str(j.id.as_str()));
            f.insert("label", Json::str(j.label.as_str()));
            f.insert(
                "kind",
                Json::str(
                    match j.kind {
                        JobKind::Process => "process",
                        JobKind::Agent => "agent",
                    },
                ),
            );
            let x = Json::Obj(f);
            proof {
                assert(x@ == running_json(j@));
                lemma_jsons_push(out@, x);
            }
            out.push(x);
        }
        i = i + 1;
    }
    proof {
        assert(v.take(i as int) =~= v);
        lemma_jsons_len(out@);
    }
    if out.len() == 0 {
        return None;
    }
    let mut f = Fields::new();
    f.insert("jobs", Json::array(out));
    Some(Json::Obj(f))
}

} // verus!
