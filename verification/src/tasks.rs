//! Tasks: what the user's input sets and changes.
use crate::json::{
    jsons, lemma_jsons_at, lemma_jsons_len, strings_in, strings_of, Json, JsonView,
};
use crate::text::{list_has, opt_str, opt_text, texts};
use vstd::prelude::*;

verus! {

/// A point that is checked before a task counts as done.
#[derive(Debug)]
pub struct CheckItem {
    pub text: String,
    pub done: bool,
    pub evidence: Option<String>,
}

/// What a point holds.
pub struct CheckView {
    pub text: Seq<char>,
    pub done: bool,
    pub evidence: Option<Seq<char>>,
}

impl View for CheckItem {
    type V = CheckView;

    open spec fn view(&self) -> CheckView {
        CheckView { text: self.text@, done: self.done, evidence: opt_text(self.evidence) }
    }
}

/// What keeps a task from going on.
#[derive(Debug)]
pub struct Blocker {
    pub reason: String,
    pub raised_at: i64,
    pub resolved: bool,
}

/// What a blocker holds.
pub struct BlockerView {
    pub reason: Seq<char>,
    pub raised_at: i64,
    pub resolved: bool,
}

impl View for Blocker {
    type V = BlockerView;

    open spec fn view(&self) -> BlockerView {
        BlockerView { reason: self.reason@, raised_at: self.raised_at, resolved: self.resolved }
    }
}

/// What a task brings forth.
#[derive(Debug)]
pub struct Artifact {
    pub kind: String,
    pub reference: String,
    pub note: Option<String>,
}

/// What an artifact holds.
pub struct ArtifactView {
    pub kind: Seq<char>,
    pub reference: Seq<char>,
    pub note: Option<Seq<char>>,
}

impl View for Artifact {
    type V = ArtifactView;

    open spec fn view(&self) -> ArtifactView {
        ArtifactView {
            kind: self.kind@,
            reference: self.reference@,
            note: opt_text(self.note),
        }
    }
}

/// The integer at a name.
pub open spec fn i64_at(v: JsonView, key: Seq<char>) -> Option<i64> {
    match v.get(key) {
        Some(x) => x.as_i64(),
        None => None,
    }
}

fn int_at(v: &Json, key: &str) -> (r: Option<i64>)
    ensures
        r == i64_at(v@, key@),
{
    match v.get(key) {
        Some(x) => x.as_i64(),
        None => None,
    }
}

fn text_of(v: &Json, key: &str) -> (r: Option<String>)
    ensures
        opt_text(r) == v@.str_at(key@),
{
    match v.str_at(key) {
        Some(s) => Some(s.to_owned()),
        None => None,
    }
}

fn flag_of(v: &Json, key: &str) -> (r: bool)
    ensures
        r == (v@.bool_at(key@) == Some(true)),
{
    match v.bool_at(key) {
        Some(b) => b,
        None => false,
    }
}

/// The point that a value stands for: none without a text.
pub open spec fn check_of(x: JsonView) -> Option<CheckView> {
    match x.str_at("text"@) {
        Some(t) => Some(
            CheckView {
                text: t,
                done: x.bool_at("done"@) == Some(true),
                evidence: x.str_at("evidence"@),
            },
        ),
        None => None,
    }
}

/// The points in a list.
pub open spec fn checks_of(v: Seq<JsonView>) -> Seq<CheckView>
    decreases v.len(),
{
    if v.len() == 0 {
        Seq::empty()
    } else {
        let head = checks_of(v.drop_last());
        match check_of(v.last()) {
            Some(c) => head.push(c),
            None => head,
        }
    }
}

/// What points hold.
pub open spec fn check_views(v: Seq<CheckItem>) -> Seq<CheckView> {
    v.map_values(|c: CheckItem| c@)
}

fn read_checks(v: &Vec<Json>) -> (r: Vec<CheckItem>)
    ensures
        check_views(r@) == checks_of(jsons(v@)),
{
    let ghost all = jsons(v@);
    let mut out: Vec<CheckItem> = Vec::new();
    let mut i: usize = 0;
    proof {
        lemma_jsons_len(v@);
        assert(all.take(0) =~= Seq::empty());
        assert(check_views(out@) =~= Seq::empty());
    }
    while i < v.len()
        invariant
            all == jsons(v@),
            all.len() == v@.len(),
            i <= v@.len(),
            check_views(out@) == checks_of(all.take(i as int)),
        decreases v@.len() - i,
    {
        let x = &v[i];
        proof {
            lemma_jsons_at(v@, i as int);
            let t = all.take(i + 1);
            assert(t.drop_last() =~= all.take(i as int));
            assert(t.last() == x@);
        }
        if let Some(t) = x.str_at("text") {
            let c = CheckItem {
                text: t.to_owned(),
                done: flag_of(x, "done"),
                evidence: text_of(x, "evidence"),
            };
            let ghost before = check_views(out@);
            out.push(c);
            assert(check_views(out@) =~= before.push(c@));
        }
        i = i + 1;
    }
    assert(all.take(i as int) =~= all);
    out
}

/// The blocker that a value stands for: none without a reason.
pub open spec fn blocker_of(x: JsonView) -> Option<BlockerView> {
    match x.str_at("reason"@) {
        Some(t) => Some(
            BlockerView {
                reason: t,
                raised_at: match i64_at(x, "raised_at"@) {
                    Some(n) => n,
                    None => 0,
                },
                resolved: x.bool_at("resolved"@) == Some(true),
            },
        ),
        None => None,
    }
}

/// The blockers in a list.
pub open spec fn blockers_of(v: Seq<JsonView>) -> Seq<BlockerView>
    decreases v.len(),
{
    if v.len() == 0 {
        Seq::empty()
    } else {
        let head = blockers_of(v.drop_last());
        match blocker_of(v.last()) {
            Some(c) => head.push(c),
            None => head,
        }
    }
}

/// What blockers hold.
pub open spec fn blocker_views(v: Seq<Blocker>) -> Seq<BlockerView> {
    v.map_values(|c: Blocker| c@)
}

fn read_blockers(v: &Vec<Json>) -> (r: Vec<Blocker>)
    ensures
        blocker_views(r@) == blockers_of(jsons(v@)),
{
    let ghost all = jsons(v@);
    let mut out: Vec<Blocker> = Vec::new();
    let mut i: usize = 0;
    proof {
        lemma_jsons_len(v@);
        assert(all.take(0) =~= Seq::empty());
        assert(blocker_views(out@) =~= Seq::empty());
    }
    while i < v.len()
        invariant
            all == jsons(v@),
            all.len() == v@.len(),
            i <= v@.len(),
            blocker_views(out@) == blockers_of(all.take(i as int)),
        decreases v@.len() - i,
    {
        let x = &v[i];
        proof {
            lemma_jsons_at(v@, i as int);
            let t = all.take(i + 1);
            assert(t.drop_last() =~= all.take(i as int));
            assert(t.last() == x@);
        }
        if let Some(t) = x.str_at("reason") {
            let c = Blocker {
                reason: t.to_owned(),
                raised_at: match int_at(x, "raised_at") {
                    Some(n) => n,
                    None => 0,
                },
                resolved: flag_of(x, "resolved"),
            };
            let ghost before = blocker_views(out@);
            out.push(c);
            assert(blocker_views(out@) =~= before.push(c@));
        }
        i = i + 1;
    }
    assert(all.take(i as int) =~= all);
    out
}

/// The artifact that a value stands for: none without a reference; a file unless
/// it says otherwise.
pub open spec fn artifact_of(x: JsonView) -> Option<ArtifactView> {
    match x.str_at("reference"@) {
        Some(t) => Some(
            ArtifactView {
                kind: match x.str_at("kind"@) {
                    Some(k) => k,
                    None => "file"@,
                },
                reference: t,
                note: x.str_at("note"@),
            },
        ),
        None => None,
    }
}

/// The artifacts in a list.
pub open spec fn artifacts_of(v: Seq<JsonView>) -> Seq<ArtifactView>
    decreases v.len(),
{
    if v.len() == 0 {
        Seq::empty()
    } else {
        let head = artifacts_of(v.drop_last());
        match artifact_of(v.last()) {
            Some(c) => head.push(c),
            None => head,
        }
    }
}

/// What artifacts hold.
pub open spec fn artifact_views(v: Seq<Artifact>) -> Seq<ArtifactView> {
    v.map_values(|c: Artifact| c@)
}

fn read_artifacts(v: &Vec<Json>) -> (r: Vec<Artifact>)
    ensures
        artifact_views(r@) == artifacts_of(jsons(v@)),
{
    let ghost all = jsons(v@);
    let mut out: Vec<Artifact> = Vec::new();
    let mut i: usize = 0;
    proof {
        lemma_jsons_len(v@);
        assert(all.take(0) =~= Seq::empty());
        assert(artifact_views(out@) =~= Seq::empty());
    }
    while i < v.len()
        invariant
            all == jsons(v@),
            all.len() == v@.len(),
            i <= v@.len(),
            artifact_views(out@) == artifacts_of(all.take(i as int)),
        decreases v@.len() - i,
    {
        let x = &v[i];
        proof {
            lemma_jsons_at(v@, i as int);
            let t = all.take(i + 1);
            assert(t.drop_last() =~= all.take(i as int));
            assert(t.last() == x@);
        }
        if let Some(t) = x.str_at("reference") {
            let c = Artifact {
                kind: match x.str_at("kind") {
                    Some(k) => k.to_owned(),
                    None => "file".to_owned(),
                },
                reference: t.to_owned(),
                note: text_of(x, "note"),
            };
            let ghost before = artifact_views(out@);
            out.push(c);
            assert(artifact_views(out@) =~= before.push(c@));
        }
        i = i + 1;
    }
    assert(all.take(i as int) =~= all);
    out
}

/// How far off a task lies: among the current ones, or as a name of the board says.
#[derive(Debug)]
pub enum Horizon {
    Current,
    Named(String),
}

/// Where a task stands: still to do, or as a name of the board says.
#[derive(Debug)]
pub enum Status {
    Todo,
    Named(String),
}

/// What a horizon holds: a name, when it is given one.
pub open spec fn horizon_name(h: Horizon) -> Option<Seq<char>> {
    match h {
        Horizon::Current => None,
        Horizon::Named(s) => Some(s@),
    }
}

/// What a status holds: a name, when it is given one.
pub open spec fn status_name(h: Status) -> Option<Seq<char>> {
    match h {
        Status::Todo => None,
        Status::Named(s) => Some(s@),
    }
}

/// The text at a name, when it is one of those that are known.
pub open spec fn known_at(v: JsonView, key: Seq<char>, known: Seq<Seq<char>>) -> Option<Seq<char>> {
    known_name(v.str_at(key), known)
}

fn known_of(v: &Json, key: &str, known: &Vec<String>) -> (r: Option<String>)
    ensures
        opt_text(r) == known_at(v@, key@, texts(known@)),
{
    name_known(v.str_at(key), known)
}

/// Which tasks are listed: those of a horizon, of a status and below a task, where
/// these are set, and either those in use or those put away.
#[derive(Debug)]
pub struct TaskFilter {
    pub horizon: Option<String>,
    pub status: Option<String>,
    pub archived: bool,
    pub parent_id: Option<i64>,
}

/// A name, when it is one of those that are known.
pub open spec fn known_name(name: Option<Seq<char>>, known: Seq<Seq<char>>) -> Option<Seq<char>> {
    match name {
        Some(s) => if known.contains(s) {
            Some(s)
        } else {
            None
        },
        None => None,
    }
}

fn name_known(name: Option<&str>, known: &Vec<String>) -> (r: Option<String>)
    ensures
        opt_text(r) == known_name(opt_str(name), texts(known@)),
{
    match name {
        Some(s) => if list_has(known, s) {
            Some(s.to_owned())
        } else {
            None
        },
        None => None,
    }
}

/// Which tasks the user asks for. A horizon or a status that the board does not know
/// leaves none out, and tasks put away are listed only where they are asked for.
pub fn task_filter(
    horizon: Option<&str>,
    status: Option<&str>,
    archived: Option<bool>,
    horizons: &Vec<String>,
    statuses: &Vec<String>,
) -> (r: TaskFilter)
    ensures
        opt_text(r.horizon) == known_name(opt_str(horizon), texts(horizons@)),
        opt_text(r.status) == known_name(opt_str(status), texts(statuses@)),
        r.archived == (archived == Some(true)),
        r.parent_id is None,
{
    TaskFilter {
        horizon: name_known(horizon, horizons),
        status: name_known(status, statuses),
        archived: match archived {
            Some(b) => b,
            None => false,
        },
        parent_id: None,
    }
}

/// A task that the user adds.
#[derive(Debug)]
pub struct TaskInput {
    pub title: String,
    pub goal: String,
    pub detail: String,
    pub horizon: Horizon,
    pub parent_id: Option<i64>,
    pub tags: Vec<String>,
    pub status: Status,
    pub acceptance: Vec<CheckItem>,
    pub due_date: Option<i64>,
}

/// The elements at a name, none when there is no list.
pub open spec fn list_at(v: JsonView, key: Seq<char>) -> Seq<JsonView> {
    match v.array_at(key) {
        Some(a) => a,
        None => Seq::empty(),
    }
}

/// The task that an input stands for. It must have a title. It is a current one and
/// still to do, unless it is given a horizon or a status that the board knows.
pub fn task_input(input: &Json, horizons: &Vec<String>, statuses: &Vec<String>) -> (r: Result<
    TaskInput,
    String,
>)
    ensures
        r is Ok <==> input@.str_at("title"@) is Some,
        r matches Err(e) ==> e@ == "缺少 title"@,
        r matches Ok(t) ==> {
            &&& Some(t.title@) == input@.str_at("title"@)
            &&& t.goal@ == input@.text_at("goal"@)
            &&& t.detail@ == input@.text_at("detail"@)
            &&& horizon_name(t.horizon) == known_at(input@, "horizon"@, texts(horizons@))
            &&& t.parent_id == i64_at(input@, "parent_id"@)
            &&& texts(t.tags@) == strings_of(list_at(input@, "tags"@))
            &&& status_name(t.status) == known_at(input@, "status"@, texts(statuses@))
            &&& check_views(t.acceptance@) == checks_of(list_at(input@, "acceptance"@))
            &&& t.due_date == i64_at(input@, "due_date"@)
        },
{
    let title = match input.str_at("title") {
        Some(s) => s.to_owned(),
        None => {
            return Err("缺少 title".to_owned());
        },
    };
    let none: Vec<Json> = Vec::new();
    proof {
        lemma_jsons_len(none@);
        assert(jsons(none@) =~= Seq::empty());
    }
    let tags = match input.array_at("tags") {
        Some(a) => strings_in(a),
        None => strings_in(&none),
    };
    let acceptance = match input.array_at("acceptance") {
        Some(a) => read_checks(a),
        None => read_checks(&none),
    };
    Ok(
        TaskInput {
            title,
            goal: input.text_at("goal").to_owned(),
            detail: input.text_at("detail").to_owned(),
            horizon: match known_of(input, "horizon", horizons) {
                Some(s) => Horizon::Named(s),
                None => Horizon::Current,
            },
            parent_id: int_at(input, "parent_id"),
            tags,
            status: match known_of(input, "status", statuses) {
                Some(s) => Status::Named(s),
                None => Status::Todo,
            },
            acceptance,
            due_date: int_at(input, "due_date"),
        },
    )
}

/// What the user changes of a task: what is `None` stays. A due date can be set or
/// taken away.
#[derive(Debug)]
pub struct TaskPatch {
    pub title: Option<String>,
    pub goal: Option<String>,
    pub detail: Option<String>,
    pub horizon: Option<String>,
    pub status: Option<String>,
    pub sort_index: Option<i32>,
    pub due_date: Option<Option<i64>>,
    pub verified: Option<bool>,
    pub blockers: Option<Vec<Blocker>>,
    pub artifacts: Option<Vec<Artifact>>,
    pub acceptance: Option<Vec<CheckItem>>,
}

/// The change of the due date.
pub open spec fn due_change(patch: JsonView) -> Option<Option<i64>> {
    if patch.bool_at("clear_due"@) == Some(true) {
        Some(None)
    } else {
        match i64_at(patch, "due_date"@) {
            Some(d) => Some(Some(d)),
            None => None,
        }
    }
}

/// The change that a patch stands for. A horizon or a status that the board does not
/// know changes nothing.
pub fn task_patch(patch: &Json, horizons: &Vec<String>, statuses: &Vec<String>) -> (r: TaskPatch)
    ensures
        opt_text(r.title) == patch@.str_at("title"@),
        opt_text(r.goal) == patch@.str_at("goal"@),
        opt_text(r.detail) == patch@.str_at("detail"@),
        opt_text(r.horizon) == known_at(patch@, "horizon"@, texts(horizons@)),
        opt_text(r.status) == known_at(patch@, "status"@, texts(statuses@)),
        r.sort_index == (match i64_at(patch@, "sort_index"@) {
            Some(n) => Some(n as i32),
            None => None,
        }),
        r.due_date == due_change(patch@),
        r.verified == patch@.bool_at("verified"@),
        (r.blockers is Some) == (patch@.array_at("blockers"@) is Some),
        r.blockers matches Some(v) ==> blocker_views(v@) == blockers_of(
            list_at(patch@, "blockers"@),
        ),
        (r.artifacts is Some) == (patch@.array_at("artifacts"@) is Some),
        r.artifacts matches Some(v) ==> artifact_views(v@) == artifacts_of(
            list_at(patch@, "artifacts"@),
        ),
        (r.acceptance is Some) == (patch@.array_at("acceptance"@) is Some),
        r.acceptance matches Some(v) ==> check_views(v@) == checks_of(
            list_at(patch@, "acceptance"@),
        ),
{
    let sort_index: Option<i32> = match int_at(patch, "sort_index") {
        Some(n) => Some(n as i32),
        None => None,
    };
    let due_date = if flag_of(patch, "clear_due") {
        Some(None)
    } else {
        match int_at(patch, "due_date") {
            Some(d) => Some(Some(d)),
            None => None,
        }
    };
    let blockers = match patch.array_at("blockers") {
        Some(a) => Some(read_blockers(a)),
        None => None,
    };
    let artifacts = match patch.array_at("artifacts") {
        Some(a) => Some(read_artifacts(a)),
        None => None,
    };
    let acceptance = match patch.array_at("acceptance") {
        Some(a) => Some(read_checks(a)),
        None => None,
    };
    TaskPatch {
        title: text_of(patch, "title"),
        goal: text_of(patch, "goal"),
        detail: text_of(patch, "detail"),
        horizon: known_of(patch, "horizon", horizons),
        status: known_of(patch, "status", statuses),
        sort_index,
        due_date,
        verified: patch.bool_at("verified"),
        blockers,
        artifacts,
        acceptance,
    }
}

} // verus!
