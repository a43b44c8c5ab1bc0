//! Background jobs: which run, how they are numbered, how they end, and what is
//! kept of them.
use crate::cut::{byte_len, bytes_of, tail_str, tail_within};
use crate::dates::{date_from_ts_local, date_of, offset_fits, shifted};
use crate::decimal::{
    all_digits, dec, digit_like, digits_value, is_digit, lemma_dec_reads_back, padded,
    parse_unsigned, read_u64, write_padded, write_u64,
};
use crate::paths::{
    extension_of_name, join_path, joined, lemma_last_index_within, name_extension, name_stem,
    stem_of_name,
};
use crate::text::{
    clone_opt, clone_texts, opt_text, starts_with, str_eq, strip_prefix, strip_prefix_chars, texts,
    to_chars, trim, trimmed,
};
use std::collections::VecDeque;
use vstd::prelude::*;

verus! {

/// How many processes run at once at most.
pub const MAX_RUNNING: usize = 8;

/// How many subagents run at once at most, unless the settings say otherwise.
pub const MAX_AGENTS: usize = 4;

/// How many bytes of a log's end are shown.
pub const TAIL: usize = 4096;

// ---------------------------------------------------------------------------
// Jobs
// ---------------------------------------------------------------------------

/// What a job runs.
#[derive(Debug, Clone, Copy, PartialEq, Eq, Structural)]
pub enum JobKind {
    Process,
    Agent,
}

/// How a job stands.
#[derive(Debug)]
pub enum JobStatus {
    Running,
    Done { code: i32 },
    Failed { reason: String },
    Killed,
}

/// What a job's status holds.
pub enum StatusView {
    Running,
    Done { code: i32 },
    Failed { reason: Seq<char> },
    Killed,
}

impl View for JobStatus {
    type V = StatusView;

    open spec fn view(&self) -> StatusView {
        match self {
            JobStatus::Running => StatusView::Running,
            JobStatus::Done { code } => StatusView::Done { code: *code },
            JobStatus::Failed { reason } => StatusView::Failed { reason: reason@ },
            JobStatus::Killed => StatusView::Killed,
        }
    }
}

impl Clone for JobStatus {
    fn clone(&self) -> (r: JobStatus)
        ensures
            r@ == self@,
    {
        match self {
            JobStatus::Running => JobStatus::Running,
            JobStatus::Done { code } => JobStatus::Done { code: *code },
            JobStatus::Failed { reason } => JobStatus::Failed { reason: reason.clone() },
            JobStatus::Killed => JobStatus::Killed,
        }
    }
}

impl JobStatus {
    /// Whether the job runs.
    pub fn is_running(&self) -> (r: bool)
        ensures
            r == (self@ is Running),
    {
        match self {
            JobStatus::Running => true,
            _ => false,
        }
    }

    /// Whether the job was killed.
    pub fn is_killed(&self) -> (r: bool)
        ensures
            r == (self@ is Killed),
    {
        match self {
            JobStatus::Killed => true,
            _ => false,
        }
    }
}

/// A background job. Times are in milliseconds since 1970.
#[derive(Debug)]
pub struct Job {
    pub id: String,
    pub kind: JobKind,
    pub label: String,
    pub status: JobStatus,
    pub log_path: String,
    pub started_at: u64,
    pub finished_at: Option<u64>,
    /// Whether it can be asked to stop.
    pub cancel: bool,
    pub answer: Option<String>,
    /// Whether its end is kept from the model.
    pub suppress_inject: bool,
}

/// What a job holds.
pub struct JobView {
    pub id: Seq<char>,
    pub kind: JobKind,
    pub label: Seq<char>,
    pub status: StatusView,
    pub log_path: Seq<char>,
    pub started_at: u64,
    pub finished_at: Option<u64>,
    pub cancel: bool,
    pub answer: Option<Seq<char>>,
    pub suppress_inject: bool,
}

impl View for Job {
    type V = JobView;

    open spec fn view(&self) -> JobView {
        JobView {
            id: self.id@,
            kind: self.kind,
            label: self.label@,
            status: self.status@,
            log_path: self.log_path@,
            started_at: self.started_at,
            finished_at: self.finished_at,
            cancel: self.cancel,
            answer: opt_text(self.answer),
            suppress_inject: self.suppress_inject,
        }
    }
}

impl Clone for Job {
    fn clone(&self) -> (r: Job)
        ensures
            r@ == self@,
    {
        Job {
            id: self.id.clone(),
            kind: self.kind,
            label: self.label.clone(),
            status: self.status.clone(),
            log_path: self.log_path.clone(),
            started_at: self.started_at,
            finished_at: self.finished_at,
            cancel: self.cancel,
            answer: clone_opt(&self.answer),
            suppress_inject: self.suppress_inject,
        }
    }
}

/// What jobs hold.
pub open spec fn job_views(v: Seq<Job>) -> Seq<JobView> {
    v.map_values(|j: Job| j@)
}

/// How far a subagent is.
#[derive(Debug)]
pub struct SubagentProgress {
    pub rounds: usize,
    pub recent_tools: VecDeque<ToolTrace>,
    pub partial: String,
}

impl SubagentProgress {
    /// A subagent that has not begun.
    pub fn new() -> (r: SubagentProgress)
        ensures
            r.rounds == 0,
            r.recent_tools@ == Seq::<ToolTrace>::empty(),
            r.partial@ == Seq::<char>::empty(),
    {
        SubagentProgress { rounds: 0, recent_tools: VecDeque::new(), partial: String::new() }
    }
}

impl Default for SubagentProgress {
    fn default() -> (r: SubagentProgress)
        ensures
            r.rounds == 0,
            r.recent_tools@ == Seq::<ToolTrace>::empty(),
            r.partial@ == Seq::<char>::empty(),
    {
        SubagentProgress::new()
    }
}

/// A tool that a subagent ran, in short.
#[derive(Debug)]
pub struct ToolTrace {
    pub name: String,
    pub args_brief: String,
    pub result_brief: Option<String>,
}

/// What the end of a job is told the model with.
#[derive(Debug)]
pub struct JobOutcome {
    pub job_id: String,
    pub kind: JobKind,
    pub label: Option<String>,
    pub ok: bool,
    pub code: Option<i32>,
    pub tail: String,
    pub answer: Option<String>,
    pub note: Option<String>,
}

/// What the outcome of a job holds.
pub struct JobOutcomeView {
    pub job_id: Seq<char>,
    pub kind: JobKind,
    pub label: Option<Seq<char>>,
    pub ok: bool,
    pub code: Option<i32>,
    pub tail: Seq<char>,
    pub answer: Option<Seq<char>>,
    pub note: Option<Seq<char>>,
}

impl View for JobOutcome {
    type V = JobOutcomeView;

    open spec fn view(&self) -> JobOutcomeView {
        JobOutcomeView {
            job_id: self.job_id@,
            kind: self.kind,
            label: opt_text(self.label),
            ok: self.ok,
            code: self.code,
            tail: self.tail@,
            answer: opt_text(self.answer),
            note: opt_text(self.note),
        }
    }
}

/// Where the changes of jobs are told.
pub trait JobUpdate {
    fn update(&self, job: &Job);
}

/// Tells nobody.
#[derive(Debug)]
pub struct NoopJobUpdate;

impl JobUpdate for NoopJobUpdate {
    fn update(&self, _job: &Job) {
    }
}

// ---------------------------------------------------------------------------
// The registry
// ---------------------------------------------------------------------------

/// The place of a job in a list.
pub open spec fn job_index(v: Seq<JobView>, id: Seq<char>) -> Option<int>
    decreases v.len(),
{
    if v.len() == 0 {
        None
    } else if v[0].id == id {
        Some(0)
    } else {
        match job_index(v.skip(1), id) {
            Some(i) => Some(i + 1),
            None => None,
        }
    }
}

/// `job_index` gives the first place of the id.
pub proof fn lemma_job_index(v: Seq<JobView>, id: Seq<char>)
    ensures
        match job_index(v, id) {
            Some(i) => 0 <= i < v.len() && v[i].id == id && forall|k: int|
                0 <= k < i ==> (#[trigger] v[k]).id != id,
            None => forall|k: int| 0 <= k < v.len() ==> (#[trigger] v[k]).id != id,
        },
    decreases v.len(),
{
    if v.len() > 0 && v[0].id != id {
        let t = v.skip(1);
        lemma_job_index(t, id);
        assert forall|k: int| 0 < k < v.len() implies #[trigger] v[k] == t[k - 1] by {}
    }
}

/// The job with an id.
pub open spec fn job_at(v: Seq<JobView>, id: Seq<char>) -> Option<JobView> {
    match job_index(v, id) {
        Some(i) => Some(v[i]),
        None => None,
    }
}

/// A list with a job in it: in the place of the one with its id, or at the end.
pub open spec fn with_job(v: Seq<JobView>, j: JobView) -> Seq<JobView> {
    match job_index(v, j.id) {
        Some(i) => v.update(i, j),
        None => v.push(j),
    }
}

/// No two jobs have the same id.
pub open spec fn ids_distinct(v: Seq<JobView>) -> bool {
    forall|i: int, k: int| 0 <= i < k < v.len() ==> (#[trigger] v[i]).id != (#[trigger] v[k]).id
}

/// How many jobs of a kind run.
pub open spec fn running_count(v: Seq<JobView>, kind: JobKind) -> nat
    decreases v.len(),
{
    if v.len() == 0 {
        0
    } else {
        running_count(v.drop_last(), kind) + if v.last().kind == kind && v.last().status is Running {
            1nat
        } else {
            0nat
        }
    }
}

/// A job that runs counts as one.
pub open spec fn weight(j: JobView, kind: JobKind) -> nat {
    if j.kind == kind && j.status is Running {
        1
    } else {
        0
    }
}

proof fn lemma_count_update(v: Seq<JobView>, i: int, j: JobView, kind: JobKind)
    requires
        0 <= i < v.len(),
    ensures
        running_count(v.update(i, j), kind) + weight(v[i], kind) == running_count(v, kind)
            + weight(j, kind),
    decreases v.len(),
{
    let w = v.update(i, j);
    if i == v.len() - 1 {
        assert(w.drop_last() =~= v.drop_last());
    } else {
        lemma_count_update(v.drop_last(), i, j, kind);
        assert(w.drop_last() =~= v.drop_last().update(i, j));
    }
}

proof fn lemma_count_push(v: Seq<JobView>, j: JobView, kind: JobKind)
    ensures
        running_count(v.push(j), kind) == running_count(v, kind) + weight(j, kind),
{
    assert(v.push(j).drop_last() =~= v);
}

/// What a registry holds.
pub struct RegistryView {
    pub jobs: Seq<JobView>,
    pub current_day: Seq<char>,
    pub next_seq: u64,
    pub running: usize,
    pub running_agents: usize,
    pub max_agents: usize,
}

/// The jobs of a session, and what is counted of them. `current_day` is the day,
/// as `YYYYMMDD`, for which `next_seq` numbers jobs.
#[derive(Debug)]
pub struct JobRegistry {
    pub jobs: Vec<Job>,
    pub current_day: String,
    pub next_seq: u64,
    pub running: usize,
    pub running_agents: usize,
    pub max_agents: usize,
}

impl View for JobRegistry {
    type V = RegistryView;

    open spec fn view(&self) -> RegistryView {
        RegistryView {
            jobs: job_views(self.jobs@),
            current_day: self.current_day@,
            next_seq: self.next_seq,
            running: self.running,
            running_agents: self.running_agents,
            max_agents: self.max_agents,
        }
    }
}

/// No two jobs have the same id, and the counters are those of the jobs that run.
pub open spec fn is_counted(r: RegistryView) -> bool {
    &&& ids_distinct(r.jobs)
    &&& running_count(r.jobs, JobKind::Process) == r.running
    &&& running_count(r.jobs, JobKind::Agent) == r.running_agents
}

/// No job that runs has an id.
pub open spec fn is_free(v: Seq<JobView>, id: Seq<char>) -> bool {
    match job_at(v, id) {
        Some(j) => j.status !is Running,
        None => true,
    }
}

/// A registry without jobs.
pub open spec fn empty_registry(today: Seq<char>, max_agents: usize) -> RegistryView {
    RegistryView {
        jobs: Seq::empty(),
        current_day: today,
        next_seq: 1,
        running: 0,
        running_agents: 0,
        max_agents,
    }
}

/// Another job of a kind may begin.
pub open spec fn has_room(r: RegistryView, kind: JobKind) -> bool {
    match kind {
        JobKind::Process => r.running < MAX_RUNNING,
        JobKind::Agent => r.running_agents < r.max_agents,
    }
}

/// The id of the job with a number: the day and the number, of at least two
/// digits.
pub open spec fn job_id(today: Seq<char>, seq: u64) -> Seq<char> {
    today + "-"@ + if seq <= 99 {
        padded(seq as nat, 2)
    } else {
        dec(seq as nat)
    }
}

/// The number that the next job gets.
pub open spec fn seq_for(r: RegistryView, today: Seq<char>) -> u64 {
    if r.current_day == today {
        r.next_seq
    } else {
        1
    }
}

/// A job that begins.
pub open spec fn new_job(
    id: Seq<char>,
    kind: JobKind,
    label: Seq<char>,
    log_path: Seq<char>,
    started_at: u64,
) -> JobView {
    JobView {
        id,
        kind,
        label,
        status: StatusView::Running,
        log_path,
        started_at,
        finished_at: None,
        cancel: false,
        answer: None,
        suppress_inject: false,
    }
}

/// A registry with a job that begins.
pub open spec fn registered(
    r: RegistryView,
    kind: JobKind,
    label: Seq<char>,
    log_path: Seq<char>,
    started_at: u64,
    today: Seq<char>,
) -> RegistryView {
    let seq = seq_for(r, today);
    RegistryView {
        jobs: with_job(
            r.jobs,
            new_job(job_id(today, seq), kind, label, log_path, started_at),
        ),
        current_day: today,
        next_seq: (seq + 1) as u64,
        running: if kind == JobKind::Process {
            (r.running + 1) as usize
        } else {
            r.running
        },
        running_agents: if kind == JobKind::Agent {
            (r.running_agents + 1) as usize
        } else {
            r.running_agents
        },
        max_agents: r.max_agents,
    }
}

/// One less, but not less than nothing.
pub open spec fn one_less(n: usize) -> usize {
    if n > 0 {
        (n - 1) as usize
    } else {
        0
    }
}

/// A registry with a job that has ended. One that did not run any more gives no
/// place back.
pub open spec fn finished(
    r: RegistryView,
    id: Seq<char>,
    status: StatusView,
    at: u64,
) -> RegistryView {
    match job_index(r.jobs, id) {
        Some(i) => {
            let j = r.jobs[i];
            RegistryView {
                jobs: r.jobs.update(i, JobView { status, finished_at: Some(at), ..j }),
                running: if j.status is Running && j.kind == JobKind::Process {
                    one_less(r.running)
                } else {
                    r.running
                },
                running_agents: if j.status is Running && j.kind == JobKind::Agent {
                    one_less(r.running_agents)
                } else {
                    r.running_agents
                },
                ..r
            }
        },
        None => r,
    }
}

proof fn lemma_with_job(v: Seq<JobView>, j: JobView)
    ensures
        ids_distinct(v) ==> ids_distinct(with_job(v, j)),
        job_at(with_job(v, j), j.id) == Some(j),
        forall|id: Seq<char>|
            id != j.id ==> #[trigger] job_at(with_job(v, j), id) == job_at(v, id),
        forall|kind: JobKind|
            #![trigger running_count(with_job(v, j), kind)]
            running_count(with_job(v, j), kind) <= running_count(v, kind) + weight(j, kind) && (
            is_free(v, j.id) ==> running_count(with_job(v, j), kind) == running_count(v, kind)
                + weight(j, kind)),
{
    let w = with_job(v, j);
    lemma_job_index(v, j.id);
    if ids_distinct(v) {
        assert forall|i: int, k: int| 0 <= i < k < w.len() implies (#[trigger] w[i]).id != (
        #[trigger] w[k]).id by {
            match job_index(v, j.id) {
                Some(n) => {
                    assert(w[i].id == v[i].id && w[k].id == v[k].id);
                },
                None => {
                    if k < v.len() {
                        assert(v[i].id != v[k].id);
                    } else {
                        assert(v[i].id != j.id);
                    }
                },
            }
        }
    }
    lemma_job_index(w, j.id);
    match job_index(v, j.id) {
        Some(n) => {
            assert(w[n].id == j.id);
            let m = job_index(w, j.id)->0;
            if m < n {
                assert(w[m].id == v[m].id);
            }
        },
        None => {
            let n = v.len() as int;
            assert(w[n].id == j.id);
            let m = job_index(w, j.id)->0;
            if m < n {
                assert(w[m].id == v[m].id);
            }
        },
    }
    assert forall|id: Seq<char>| id != j.id implies #[trigger] job_at(w, id) == job_at(v, id) by {
        lemma_job_index(v, id);
        lemma_job_index(w, id);
        assert forall|k: int| 0 <= k < v.len() implies (#[trigger] w[k]).id == v[k].id by {}
        match job_index(v, id) {
            Some(a) => {
                assert(w[a].id == id);
                let b = job_index(w, id)->0;
                if b < a {
                    assert(w[b].id == v[b].id);
                }
                if a < b {
                    assert(w[a].id == id);
                }
            },
            None => {
                if let Some(b) = job_index(w, id) {
                    assert(w[b].id == id);
                    if b < v.len() {
                        assert(w[b].id == v[b].id);
                    }
                }
            },
        }
    }
    assert forall|kind: JobKind|
        (#[trigger] running_count(w, kind)) <= running_count(v, kind) + weight(j, kind) && (
        is_free(v, j.id) ==> running_count(w, kind) == running_count(v, kind) + weight(
            j,
            kind,
        )) by {
        match job_index(v, j.id) {
            Some(n) => lemma_count_update(v, n, j, kind),
            None => lemma_count_push(v, j, kind),
        }
    }
}

proof fn lemma_update_job(v: Seq<JobView>, i: int, j: JobView)
    requires
        ids_distinct(v),
        0 <= i < v.len(),
        v[i].id == j.id,
    ensures
        ids_distinct(v.update(i, j)),
{
    let w = v.update(i, j);
    assert forall|a: int, b: int| 0 <= a < b < w.len() implies (#[trigger] w[a]).id != (
    #[trigger] w[b]).id by {
        assert(w[a].id == v[a].id && w[b].id == v[b].id);
    }
}

proof fn lemma_running_at(v: Seq<JobView>, i: int, kind: JobKind)
    requires
        0 <= i < v.len(),
        v[i].kind == kind,
        v[i].status is Running,
    ensures
        running_count(v, kind) >= 1,
    decreases v.len(),
{
    if i < v.len() - 1 {
        lemma_running_at(v.drop_last(), i, kind);
    }
}

/// The end of a job keeps the counters right.
pub proof fn lemma_finished_counted(r: RegistryView, id: Seq<char>, status: StatusView, at: u64)
    requires
        is_counted(r),
        status !is Running,
    ensures
        is_counted(finished(r, id, status, at)),
{
    lemma_job_index(r.jobs, id);
    if let Some(i) = job_index(r.jobs, id) {
        let j = JobView { status, finished_at: Some(at), ..r.jobs[i] };
        lemma_update_job(r.jobs, i, j);
        lemma_count_update(r.jobs, i, j, JobKind::Process);
        lemma_count_update(r.jobs, i, j, JobKind::Agent);
        if r.jobs[i].status is Running {
            lemma_running_at(r.jobs, i, r.jobs[i].kind);
        }
    }
}

/// The end of a job changes its status and its time, and no other job; that of a
/// job that is not there changes nothing.
pub proof fn lemma_finished_one(
    r: RegistryView,
    id: Seq<char>,
    status: StatusView,
    at: u64,
    other: Seq<char>,
)
    ensures
        job_at(r.jobs, id) is None ==> finished(r, id, status, at) == r,
        job_at(r.jobs, id) matches Some(j) ==> job_at(finished(r, id, status, at).jobs, id) == Some(
            JobView { status, finished_at: Some(at), ..j },
        ),
        other != id ==> job_at(finished(r, id, status, at).jobs, other) == job_at(r.jobs, other),
{
    if let Some(j) = job_at(r.jobs, id) {
        lemma_job_index(r.jobs, id);
        let k = JobView { status, finished_at: Some(at), ..j };
        lemma_with_job(r.jobs, k);
        assert(finished(r, id, status, at).jobs == with_job(r.jobs, k));
    }
}

/// The day of a time as `YYYYMMDD`.
pub open spec fn compact_day(now: u64, offset_secs: i64) -> Seq<char> {
    without_dashes(date_of(shifted(now, offset_secs)))
}

/// A text without its dashes.
pub open spec fn without_dashes(s: Seq<char>) -> Seq<char> {
    s.filter(|c: char| c != '-')
}

fn drop_dashes(s: &str) -> (r: String)
    ensures
        r@ == without_dashes(s@),
{
    let ghost p = |c: char| c != '-';
    let mut out = String::new();
    proof {
        reveal(Seq::filter);
    }
    for c in it: s.chars()
        invariant
            it.seq() == s@,
            p == (|c: char| c != '-'),
            out@ == s@.take(it.index() as int).filter(p),
    {
        proof {
            reveal(Seq::filter);
            let t = s@.take(it.index() + 1);
            assert(t.drop_last() =~= s@.take(it.index() as int));
            assert(t.last() == c);
        }
        if c != '-' {
            out.push(c);
        }
    }
    assert(s@.take(s@.len() as int) =~= s@);
    out
}

/// The day of a time as `YYYYMMDD`.
pub fn today_compact(now: u64, offset_secs: i64) -> (r: String)
    requires
        offset_fits(now, offset_secs),
    ensures
        r@ == compact_day(now, offset_secs),
{
    drop_dashes(date_from_ts_local(now, offset_secs).as_str())
}

impl JobRegistry {
    /// A registry without jobs, on a day.
    pub fn new(today: &str) -> (r: JobRegistry)
        ensures
            r@ == empty_registry(today@, MAX_AGENTS),
            is_counted(r@),
    {
        JobRegistry::new_with_max(MAX_AGENTS, today)
    }

    /// A registry without jobs, on a day, for so many subagents at once.
    pub fn new_with_max(max_agents: usize, today: &str) -> (r: JobRegistry)
        ensures
            r@ == empty_registry(today@, max_agents),
            is_counted(r@),
    {
        let r = JobRegistry {
            jobs: Vec::new(),
            current_day: today.to_owned(),
            next_seq: 1,
            running: 0,
            running_agents: 0,
            max_agents,
        };
        assert(job_views(r.jobs@) =~= Seq::empty());
        r
    }

    /// Sets how many subagents may run at once, from now on.
    pub fn set_max_agents(&mut self, max_agents: usize)
        ensures
            final(self)@ == (RegistryView { max_agents, ..old(self)@ }),
            is_counted(old(self)@) ==> is_counted(final(self)@),
    {
        self.max_agents = max_agents;
    }

    /// Whether another job of a kind may begin.
    pub fn can_spawn(&self, kind: JobKind) -> (r: bool)
        ensures
            r == has_room(self@, kind),
    {
        match kind {
            JobKind::Process => self.running < MAX_RUNNING,
            JobKind::Agent => self.running_agents < self.max_agents,
        }
    }

    fn position(&self, id: &str) -> (r: Option<usize>)
        ensures
            match r {
                Some(i) => job_index(self@.jobs, id@) == Some(i as int) && i < self.jobs@.len(),
                None => job_index(self@.jobs, id@) is None,
            },
    {
        let ghost v = self@.jobs;
        proof {
            lemma_job_index(v, id@);
        }
        let mut i: usize = 0;
        while i < self.jobs.len()
            invariant
                v == job_views(self.jobs@),
                i <= self.jobs@.len(),
                forall|k: int| 0 <= k < i ==> (#[trigger] v[k]).id != id@,
            decreases self.jobs@.len() - i,
        {
            assert(v[i as int] == self.jobs@[i as int]@);
            if str_eq(self.jobs[i].id.as_str(), id) {
                proof {
                    lemma_job_index(v, id@);
                }
                return Some(i);
            }
            i = i + 1;
        }
        None
    }

    fn put(&mut self, j: Job)
        ensures
            final(self)@ == (RegistryView { jobs: with_job(old(self)@.jobs, j@), ..old(self)@ }),
    {
        let ghost v = self@.jobs;
        match self.position(j.id.as_str()) {
            Some(i) => {
                self.jobs.set(i, j);
                assert(self@.jobs =~= v.update(i as int, j@));
            },
            None => {
                self.jobs.push(j);
                assert(self@.jobs =~= v.push(j@));
            },
        }
    }

    /// Enters a job that begins; gives its id. Whether there is room is for the
    /// caller to ask first.
    pub fn register(
        &mut self,
        kind: JobKind,
        label: String,
        log_path: String,
        started_at: u64,
        today: &str,
    ) -> (id: String)
        requires
            seq_for(old(self)@, today@) < u64::MAX,
            kind == JobKind::Process ==> old(self).running < usize::MAX,
            kind == JobKind::Agent ==> old(self).running_agents < usize::MAX,
        ensures
            final(self)@ == registered(old(self)@, kind, label@, log_path@, started_at, today@),
            id@ == job_id(today@, seq_for(old(self)@, today@)),
            is_counted(old(self)@) && is_free(
                old(self)@.jobs,
                job_id(today@, seq_for(old(self)@, today@)),
            ) ==> is_counted(final(self)@),
    {
        let ghost before = self@;
        if !str_eq(today, self.current_day.as_str()) {
            self.current_day = today.to_owned();
            self.next_seq = 1;
        }
        let seq: u64 = self.next_seq;
        self.next_seq = seq + 1;
        let mut id = today.to_owned();
        id.push_str("-");
        let number = if seq <= 99 {
            write_padded(seq, 2)
        } else {
            write_u64(seq)
        };
        id.push_str(number.as_str());
        match kind {
            JobKind::Process => {
                self.running = self.running + 1;
            },
            JobKind::Agent => {
                self.running_agents = self.running_agents + 1;
            },
        }
        let j = Job {
            id: id.clone(),
            kind,
            label,
            status: JobStatus::Running,
            log_path,
            started_at,
            finished_at: None,
            cancel: false,
            answer: None,
            suppress_inject: false,
        };
        proof {
            lemma_with_job(before.jobs, j@);
            let w = with_job(before.jobs, j@);
            assert(running_count(w, JobKind::Process) <= running_count(
                before.jobs,
                JobKind::Process,
            ) + weight(j@, JobKind::Process));
            assert(running_count(w, JobKind::Agent) <= running_count(before.jobs, JobKind::Agent)
                + weight(j@, JobKind::Agent));
        }
        self.put(j);
        id
    }

    /// The job with an id.
    pub fn get(&self, id: &str) -> (r: Option<&Job>)
        ensures
            match r {
                Some(j) => job_at(self@.jobs, id@) == Some(j@),
                None => job_at(self@.jobs, id@) is None,
            },
    {
        match self.position(id) {
            Some(i) => {
                assert(self@.jobs[i as int] == self.jobs@[i as int]@);
                Some(&self.jobs[i])
            },
            None => None,
        }
    }

    /// Ends a job; one that ran gives its place back.
    pub fn finish(&mut self, id: &str, status: JobStatus, finished_at: u64)
        ensures
            final(self)@ == finished(old(self)@, id@, status@, finished_at),
            is_counted(old(self)@) && status@ !is Running ==> is_counted(final(self)@),
    {
        let ghost before = self@;
        let ghost want = status@;
        proof {
            if is_counted(before) && want !is Running {
                lemma_finished_counted(before, id@, want, finished_at);
            }
        }
        if let Some(i) = self.position(id) {
            let mut j = self.jobs[i].clone();
            assert(before.jobs[i as int] == self.jobs@[i as int]@);
            let was_running = j.status.is_running();
            let kind = j.kind;
            j.status = status;
            j.finished_at = Some(finished_at);
            self.jobs.set(i, j);
            assert(self@.jobs =~= before.jobs.update(i as int, j@));
            if was_running {
                match kind {
                    JobKind::Process => {
                        if self.running > 0 {
                            self.running = self.running - 1;
                        }
                    },
                    JobKind::Agent => {
                        if self.running_agents > 0 {
                            self.running_agents = self.running_agents - 1;
                        }
                    },
                }
            }
        }
    }

    /// All jobs, in the order in which they were entered.
    pub fn list(&self) -> (r: Vec<Job>)
        ensures
            job_views(r@) == self@.jobs,
    {
        let mut out: Vec<Job> = Vec::new();
        let mut i: usize = 0;
        while i < self.jobs.len()
            invariant
                i <= self.jobs@.len(),
                out@.len() == i,
                forall|k: int| 0 <= k < i ==> (#[trigger] out@[k])@ == self.jobs@[k]@,
            decreases self.jobs@.len() - i,
        {
            out.push(self.jobs[i].clone());
            i = i + 1;
        }
        assert(job_views(out@) =~= self@.jobs);
        out
    }
}

/// While every job asks for room before it begins, no more run than may.
pub proof fn lemma_room_bounds(
    r: RegistryView,
    kind: JobKind,
    label: Seq<char>,
    log_path: Seq<char>,
    started_at: u64,
    today: Seq<char>,
)
    requires
        is_counted(r),
        has_room(r, kind),
        r.running <= MAX_RUNNING,
        r.running_agents <= r.max_agents,
    ensures
        ({
            let s = registered(r, kind, label, log_path, started_at, today);
            &&& s.running <= MAX_RUNNING
            &&& s.running_agents <= s.max_agents
            &&& running_count(s.jobs, JobKind::Process) <= MAX_RUNNING
            &&& running_count(s.jobs, JobKind::Agent) <= s.max_agents
        }),
{
    let s = registered(r, kind, label, log_path, started_at, today);
    let seq = seq_for(r, today);
    let j = new_job(job_id(today, seq), kind, label, log_path, started_at);
    lemma_with_job(r.jobs, j);
    assert(running_count(s.jobs, JobKind::Process) <= running_count(r.jobs, JobKind::Process)
        + weight(j, JobKind::Process));
    assert(running_count(s.jobs, JobKind::Agent) <= running_count(r.jobs, JobKind::Agent) + weight(
        j,
        JobKind::Agent,
    ));
}

/// A job that begins can be found by its id.
pub proof fn lemma_registered_found(
    r: RegistryView,
    kind: JobKind,
    label: Seq<char>,
    log_path: Seq<char>,
    started_at: u64,
    today: Seq<char>,
)
    ensures
        ({
            let id = job_id(today, seq_for(r, today));
            job_at(registered(r, kind, label, log_path, started_at, today).jobs, id) == Some(
                new_job(id, kind, label, log_path, started_at),
            )
        }),
{
    let id = job_id(today, seq_for(r, today));
    lemma_with_job(r.jobs, new_job(id, kind, label, log_path, started_at));
}

/// Ending a job twice changes the counters only once.
pub proof fn lemma_finish_twice(
    r: RegistryView,
    id: Seq<char>,
    first: StatusView,
    second: StatusView,
    at: u64,
    later: u64,
)
    requires
        first !is Running,
    ensures
        ({
            let one = finished(r, id, first, at);
            let two = finished(one, id, second, later);
            two.running == one.running && two.running_agents == one.running_agents
        }),
{
    lemma_job_index(r.jobs, id);
    let one = finished(r, id, first, at);
    lemma_job_index(one.jobs, id);
    if let Some(i) = job_index(r.jobs, id) {
        let k = job_index(one.jobs, id);
        assert(one.jobs[i].id == id);
        let m = k->0;
        if m < i {
            assert(one.jobs[m].id == r.jobs[m].id);
        }
        assert(m == i);
    }
}

// ---------------------------------------------------------------------------
// What is kept of jobs
// ---------------------------------------------------------------------------

/// A line of the job log. `status` is `running`, `done`, `failed` or `killed`.
#[derive(Debug)]
pub struct JobEvent {
    pub schema: u32,
    pub id: String,
    pub kind: JobKind,
    pub label: String,
    pub status: String,
    pub started_at: u64,
    pub finished_at: Option<u64>,
    pub code: Option<i32>,
    pub tail: Option<String>,
    pub note: Option<String>,
    pub reason: Option<String>,
    pub deps: Vec<String>,
}

/// What a line of the job log holds.
#[verifier::ext_equal]
pub struct JobEventView {
    pub schema: u32,
    pub id: Seq<char>,
    pub kind: JobKind,
    pub label: Seq<char>,
    pub status: Seq<char>,
    pub started_at: u64,
    pub finished_at: Option<u64>,
    pub code: Option<i32>,
    pub tail: Option<Seq<char>>,
    pub note: Option<Seq<char>>,
    pub reason: Option<Seq<char>>,
    pub deps: Seq<Seq<char>>,
}

impl View for JobEvent {
    type V = JobEventView;

    open spec fn view(&self) -> JobEventView {
        JobEventView {
            schema: self.schema,
            id: self.id@,
            kind: self.kind,
            label: self.label@,
            status: self.status@,
            started_at: self.started_at,
            finished_at: self.finished_at,
            code: self.code,
            tail: opt_text(self.tail),
            note: opt_text(self.note),
            reason: opt_text(self.reason),
            deps: texts(self.deps@),
        }
    }
}

impl Clone for JobEvent {
    fn clone(&self) -> (r: JobEvent)
        ensures
            r@ == self@,
    {
        JobEvent {
            schema: self.schema,
            id: self.id.clone(),
            kind: self.kind,
            label: self.label.clone(),
            status: self.status.clone(),
            started_at: self.started_at,
            finished_at: self.finished_at,
            code: self.code,
            tail: clone_opt(&self.tail),
            note: clone_opt(&self.note),
            reason: clone_opt(&self.reason),
            deps: clone_texts(&self.deps),
        }
    }
}

/// What lines of the job log hold.
pub open spec fn job_event_views(v: Seq<JobEvent>) -> Seq<JobEventView> {
    v.map_values(|e: JobEvent| e@)
}

/// The name of a status.
pub open spec fn status_name(s: StatusView) -> Seq<char> {
    match s {
        StatusView::Running => "running"@,
        StatusView::Done { .. } => "done"@,
        StatusView::Failed { .. } => "failed"@,
        StatusView::Killed => "killed"@,
    }
}

/// The line of a job that begins.
pub open spec fn started_event(j: JobView) -> JobEventView {
    JobEventView {
        schema: 1,
        id: j.id,
        kind: j.kind,
        label: j.label,
        status: "running"@,
        started_at: j.started_at,
        finished_at: None,
        code: None,
        tail: None,
        note: None,
        reason: None,
        deps: Seq::empty(),
    }
}

/// The line of a job that has ended.
pub open spec fn ended_event(j: JobView, tail: Option<Seq<char>>) -> JobEventView {
    JobEventView {
        status: if j.status is Done {
            "done"@
        } else {
            "failed"@
        },
        finished_at: j.finished_at,
        code: match j.status {
            StatusView::Done { code } => Some(code),
            _ => None,
        },
        tail,
        reason: match j.status {
            StatusView::Done { .. } => None,
            StatusView::Failed { reason } => Some(reason),
            _ => Some("未知终态"@),
        },
        ..started_event(j)
    }
}

/// The line of a job that the end of the program cut off.
pub open spec fn cut_off_event(
    id: Seq<char>,
    kind: JobKind,
    label: Seq<char>,
    started_at: u64,
    finished_at: Option<u64>,
) -> JobEventView {
    JobEventView {
        schema: 1,
        id,
        kind,
        label,
        status: "failed"@,
        started_at,
        finished_at,
        code: None,
        tail: None,
        note: Some("app 强制退出时未完成"@),
        reason: Some("forced_exit"@),
        deps: Seq::empty(),
    }
}

/// The line of a job from before jobs had days in their ids.
pub open spec fn legacy_line(stem: Seq<char>, at: u64) -> JobEventView {
    JobEventView {
        schema: 1,
        id: "legacy-"@ + stem,
        kind: JobKind::Process,
        label: "(旧任务 #"@ + stem + ")"@,
        status: "failed"@,
        started_at: at,
        finished_at: Some(at),
        code: None,
        tail: None,
        note: Some("旧版本任务，已迁移"@),
        reason: Some("legacy"@),
        deps: Seq::empty(),
    }
}

/// The status that a line tells.
pub open spec fn told_status(e: JobEventView) -> StatusView {
    if e.status == "running"@ {
        StatusView::Running
    } else if e.status == "done"@ {
        StatusView::Done {
            code: match e.code {
                Some(c) => c,
                None => 0,
            },
        }
    } else if e.status == "failed"@ {
        StatusView::Failed {
            reason: match e.reason {
                Some(r) => r,
                None => "未知"@,
            },
        }
    } else if e.status == "killed"@ {
        StatusView::Killed
    } else {
        StatusView::Failed { reason: "未知 status: "@ + e.status }
    }
}

impl JobEvent {
    /// The line of a job that begins.
    pub fn started(job: &Job) -> (r: JobEvent)
        ensures
            r@ == started_event(job@),
    {
        let deps: Vec<String> = Vec::new();
        assert(texts(deps@) =~= Seq::empty());
        JobEvent {
            schema: 1,
            id: job.id.clone(),
            kind: job.kind,
            label: job.label.clone(),
            status: "running".to_owned(),
            started_at: job.started_at,
            finished_at: None,
            code: None,
            tail: None,
            note: None,
            reason: None,
            deps,
        }
    }

    /// The name of a status.
    pub fn status_str(s: &JobStatus) -> (r: &'static str)
        ensures
            r@ == status_name(s@),
    {
        match s {
            JobStatus::Running => "running",
            JobStatus::Done { .. } => "done",
            JobStatus::Failed { .. } => "failed",
            JobStatus::Killed => "killed",
        }
    }
}

/// The line of a job that has ended, with the end of its log.
pub fn terminal_event(j: &Job, tail: Option<String>) -> (r: JobEvent)
    ensures
        r@ == ended_event(j@, opt_text(tail)),
{
    let mut e = JobEvent::started(j);
    e.status = match &j.status {
        JobStatus::Done { .. } => "done".to_owned(),
        _ => "failed".to_owned(),
    };
    e.code = match &j.status {
        JobStatus::Done { code } => Some(*code),
        _ => None,
    };
    e.reason = match &j.status {
        JobStatus::Done { .. } => None,
        JobStatus::Failed { reason } => Some(reason.clone()),
        _ => Some("未知终态".to_owned()),
    };
    e.finished_at = j.finished_at;
    e.tail = tail;
    e
}

fn forced_exit_event(
    id: &str,
    kind: JobKind,
    label: &str,
    started_at: u64,
    finished_at: Option<u64>,
) -> (r: JobEvent)
    ensures
        r@ == cut_off_event(id@, kind, label@, started_at, finished_at),
{
    let deps: Vec<String> = Vec::new();
    assert(texts(deps@) =~= Seq::empty());
    JobEvent {
        schema: 1,
        id: id.to_owned(),
        kind,
        label: label.to_owned(),
        status: "failed".to_owned(),
        started_at,
        finished_at,
        code: None,
        tail: None,
        note: Some("app 强制退出时未完成".to_owned()),
        reason: Some("forced_exit".to_owned()),
        deps,
    }
}

/// The line of a job from before jobs had days in their ids, made now.
pub fn legacy_event(stem: &str, now: u64) -> (r: JobEvent)
    ensures
        r@ == legacy_line(stem@, now),
{
    let deps: Vec<String> = Vec::new();
    assert(texts(deps@) =~= Seq::empty());
    let mut id = "legacy-".to_owned();
    id.push_str(stem);
    let mut label = "(旧任务 #".to_owned();
    label.push_str(stem);
    label.push_str(")");
    JobEvent {
        schema: 1,
        id,
        kind: JobKind::Process,
        label,
        status: "failed".to_owned(),
        started_at: now,
        finished_at: Some(now),
        code: None,
        tail: None,
        note: Some("旧版本任务，已迁移".to_owned()),
        reason: Some("legacy".to_owned()),
        deps,
    }
}

/// The status that a line tells.
pub fn parse_status_from_event(e: &JobEvent) -> (r: JobStatus)
    ensures
        r@ == told_status(e@),
{
    let s = e.status.as_str();
    if str_eq(s, "running") {
        JobStatus::Running
    } else if str_eq(s, "done") {
        JobStatus::Done {
            code: match e.code {
                Some(c) => c,
                None => 0,
            },
        }
    } else if str_eq(s, "failed") {
        JobStatus::Failed {
            reason: match &e.reason {
                Some(r) => r.clone(),
                None => "未知".to_owned(),
            },
        }
    } else if str_eq(s, "killed") {
        JobStatus::Killed
    } else {
        let mut reason = "未知 status: ".to_owned();
        reason.push_str(s);
        JobStatus::Failed { reason }
    }
}

proof fn lemma_status_names()
    ensures
        "running"@ != "done"@,
        "running"@ != "failed"@,
        "running"@ != "killed"@,
        "done"@ != "failed"@,
        "done"@ != "killed"@,
        "failed"@ != "killed"@,
{
    reveal_strlit("running");
    reveal_strlit("done");
    reveal_strlit("failed");
    reveal_strlit("killed");
    assert("running"@[0] == 'r' && "done"@[0] == 'd');
    assert("failed"@[0] == 'f' && "killed"@[0] == 'k');
}

/// What is kept of a job that has begun or ended tells its status again.
pub proof fn lemma_status_kept(j: JobView, tail: Option<Seq<char>>)
    ensures
        told_status(started_event(j)) is Running,
        j.status is Done || j.status is Failed ==> told_status(ended_event(j, tail)) == j.status,
        told_status(ended_event(j, tail)) !is Running,
{
    lemma_status_names();
}

// ---------------------------------------------------------------------------
// Folding
// ---------------------------------------------------------------------------

/// The last line of each job.
pub open spec fn last_lines(v: Seq<JobEventView>) -> Map<Seq<char>, JobEventView>
    decreases v.len(),
{
    if v.len() == 0 {
        Map::empty()
    } else {
        last_lines(v.drop_last()).insert(v.last().id, v.last())
    }
}

/// The place of a job's line in a list.
pub open spec fn line_index(v: Seq<JobEventView>, id: Seq<char>) -> Option<int>
    decreases v.len(),
{
    if v.len() == 0 {
        None
    } else if v[0].id == id {
        Some(0)
    } else {
        match line_index(v.skip(1), id) {
            Some(i) => Some(i + 1),
            None => None,
        }
    }
}

/// `line_index` gives the first place of the id.
pub proof fn lemma_line_index(v: Seq<JobEventView>, id: Seq<char>)
    ensures
        match line_index(v, id) {
            Some(i) => 0 <= i < v.len() && v[i].id == id && forall|k: int|
                0 <= k < i ==> (#[trigger] v[k]).id != id,
            None => forall|k: int| 0 <= k < v.len() ==> (#[trigger] v[k]).id != id,
        },
    decreases v.len(),
{
    if v.len() > 0 && v[0].id != id {
        let t = v.skip(1);
        lemma_line_index(t, id);
        assert forall|k: int| 0 < k < v.len() implies #[trigger] v[k] == t[k - 1] by {}
    }
}

/// The last line of each job, in the order in which the jobs first appear.
pub open spec fn folded_lines(v: Seq<JobEventView>) -> Seq<JobEventView>
    decreases v.len(),
{
    if v.len() == 0 {
        Seq::empty()
    } else {
        let head = folded_lines(v.drop_last());
        match line_index(head, v.last().id) {
            Some(i) => head.update(i, v.last()),
            None => head.push(v.last()),
        }
    }
}

/// The last line of each job, in the order in which the jobs first appear.
#[derive(Debug)]
pub struct Folded {
    pub events: Vec<JobEvent>,
}

impl View for Folded {
    type V = Map<Seq<char>, JobEventView>;

    open spec fn view(&self) -> Map<Seq<char>, JobEventView> {
        last_lines(job_event_views(self.events@))
    }
}

/// No two lines are of the same job.
pub open spec fn lines_distinct(v: Seq<JobEventView>) -> bool {
    forall|i: int, k: int| 0 <= i < k < v.len() ==> (#[trigger] v[i]).id != (#[trigger] v[k]).id
}

proof fn lemma_lines_at(v: Seq<JobEventView>, i: int)
    requires
        lines_distinct(v),
        0 <= i < v.len(),
    ensures
        last_lines(v).contains_key(v[i].id),
        last_lines(v)[v[i].id] == v[i],
    decreases v.len(),
{
    if i < v.len() - 1 {
        let t = v.drop_last();
        assert(lines_distinct(t)) by {
            assert forall|a: int, b: int| 0 <= a < b < t.len() implies (#[trigger] t[a]).id != (
            #[trigger] t[b]).id by {
                assert(t[a] == v[a] && t[b] == v[b]);
            }
        }
        lemma_lines_at(t, i);
        assert(v[i].id != v[v.len() - 1].id);
    }
}

proof fn lemma_lines_none(v: Seq<JobEventView>, id: Seq<char>)
    requires
        forall|k: int| 0 <= k < v.len() ==> (#[trigger] v[k]).id != id,
    ensures
        !last_lines(v).contains_key(id),
    decreases v.len(),
{
    if v.len() > 0 {
        let t = v.drop_last();
        assert forall|k: int| 0 <= k < t.len() implies (#[trigger] t[k]).id != id by {
            assert(t[k] == v[k]);
        }
        lemma_lines_none(t, id);
        assert(v[v.len() - 1].id != id);
    }
}

proof fn lemma_lines_update(v: Seq<JobEventView>, i: int, e: JobEventView)
    requires
        lines_distinct(v),
        0 <= i < v.len(),
        v[i].id == e.id,
    ensures
        last_lines(v.update(i, e)) == last_lines(v).insert(e.id, e),
        lines_distinct(v.update(i, e)),
    decreases v.len(),
{
    let w = v.update(i, e);
    assert(lines_distinct(w)) by {
        assert forall|a: int, b: int| 0 <= a < b < w.len() implies (#[trigger] w[a]).id != (
        #[trigger] w[b]).id by {
            assert(w[a].id == v[a].id && w[b].id == v[b].id);
        }
    }
    if i == v.len() - 1 {
        assert(w.drop_last() =~= v.drop_last());
        assert(last_lines(w) =~= last_lines(v).insert(e.id, e));
    } else {
        let t = v.drop_last();
        assert(lines_distinct(t)) by {
            assert forall|a: int, b: int| 0 <= a < b < t.len() implies (#[trigger] t[a]).id != (
            #[trigger] t[b]).id by {
                assert(t[a] == v[a] && t[b] == v[b]);
            }
        }
        lemma_lines_update(t, i, e);
        assert(w.drop_last() =~= t.update(i, e));
        assert(v[i].id != v[v.len() - 1].id);
        assert(last_lines(w) =~= last_lines(v).insert(e.id, e));
    }
}

impl Folded {
    /// Each job has one line.
    pub open spec fn wf(&self) -> bool {
        lines_distinct(job_event_views(self.events@))
    }

    fn position(&self, id: &str) -> (r: Option<usize>)
        ensures
            match r {
                Some(i) => i < self.events@.len() && line_index(
                    job_event_views(self.events@),
                    id@,
                ) == Some(i as int),
                None => line_index(job_event_views(self.events@), id@) is None,
            },
    {
        let ghost v = job_event_views(self.events@);
        proof {
            lemma_line_index(v, id@);
        }
        let mut i: usize = 0;
        while i < self.events.len()
            invariant
                v == job_event_views(self.events@),
                i <= self.events@.len(),
                forall|k: int| 0 <= k < i ==> (#[trigger] v[k]).id != id@,
            decreases self.events@.len() - i,
        {
            assert(v[i as int] == self.events@[i as int]@);
            if str_eq(self.events[i].id.as_str(), id) {
                proof {
                    lemma_line_index(v, id@);
                }
                return Some(i);
            }
            i = i + 1;
        }
        None
    }

    /// The last line of a job.
    pub fn get(&self, id: &str) -> (r: Option<&JobEvent>)
        requires
            self.wf(),
        ensures
            match r {
                Some(e) => self@.contains_key(id@) && self@[id@] == e@,
                None => !self@.contains_key(id@),
            },
    {
        let ghost v = job_event_views(self.events@);
        proof {
            lemma_line_index(v, id@);
        }
        match self.position(id) {
            Some(i) => {
                proof {
                    lemma_lines_at(v, i as int);
                }
                Some(&self.events[i])
            },
            None => {
                proof {
                    lemma_lines_none(v, id@);
                }
                None
            },
        }
    }
}

/// The last line of each job.
pub fn fold_by_id(events: &[JobEvent]) -> (r: Folded)
    ensures
        r.wf(),
        r@ == last_lines(job_event_views(events@)),
        job_event_views(r.events@) == folded_lines(job_event_views(events@)),
{
    let ghost all = job_event_views(events@);
    let mut out = Folded { events: Vec::new() };
    let mut i: usize = 0;
    proof {
        assert(job_event_views(out.events@) =~= Seq::empty());
        assert(all.take(0) =~= Seq::empty());
    }
    while i < events.len()
        invariant
            all == job_event_views(events@),
            i <= events@.len(),
            out.wf(),
            out@ == last_lines(all.take(i as int)),
            job_event_views(out.events@) == folded_lines(all.take(i as int)),
        decreases events@.len() - i,
    {
        let e = &events[i];
        let ghost v = job_event_views(out.events@);
        proof {
            let t = all.take(i + 1);
            assert(t.drop_last() =~= all.take(i as int));
            assert(t.last() == e@);
            lemma_line_index(v, e@.id);
        }
        match out.position(e.id.as_str()) {
            Some(k) => {
                proof {
                    lemma_lines_update(v, k as int, e@);
                }
                out.events.set(k, e.clone());
                assert(job_event_views(out.events@) =~= v.update(k as int, e@));
            },
            None => {
                out.events.push(e.clone());
                proof {
                    let w = job_event_views(out.events@);
                    assert(w =~= v.push(e@));
                    assert(w.drop_last() =~= v);
                    assert forall|a: int, b: int| 0 <= a < b < w.len() implies (#[trigger] w[a]).id
                        != (#[trigger] w[b]).id by {
                        if b < v.len() {
                            assert(v[a].id != v[b].id);
                        } else {
                            assert(v[a].id != e@.id);
                        }
                    }
                }
            },
        }
        i = i + 1;
    }
    assert(all.take(i as int) =~= all);
    out
}

// ---------------------------------------------------------------------------
// Beginning a session
// ---------------------------------------------------------------------------

/// The number in the id of a job, when the id has the prefix of a day.
pub open spec fn number_in(id: Seq<char>, prefix: Seq<char>) -> nat {
    match strip_prefix(id, prefix) {
        Some(s) => match parse_unsigned(s, u64::MAX as nat) {
            Some(n) => n,
            None => 0,
        },
        None => 0,
    }
}

/// The highest number in the ids of lines.
pub open spec fn highest_number(v: Seq<JobEventView>, prefix: Seq<char>) -> nat
    decreases v.len(),
{
    if v.len() == 0 {
        0
    } else {
        let head = highest_number(v.drop_last(), prefix);
        let n = number_in(v.last().id, prefix);
        if n > head {
            n
        } else {
            head
        }
    }
}

/// The job that its last line tells of. One that was running when the program
/// ended has failed.
pub open spec fn loaded_job(e: JobEventView, dir: Seq<char>, now: u64) -> JobView {
    let status = told_status(e);
    JobView {
        id: e.id,
        kind: e.kind,
        label: e.label,
        status: if status is Running {
            StatusView::Failed { reason: "forced_exit"@ }
        } else {
            status
        },
        log_path: joined(dir, e.id + ".log"@),
        started_at: e.started_at,
        finished_at: if status is Running {
            Some(now)
        } else {
            e.finished_at
        },
        cancel: false,
        answer: e.tail,
        suppress_inject: false,
    }
}

/// Jobs with those of a day that lines tell of.
pub open spec fn loaded_jobs(
    jobs: Seq<JobView>,
    v: Seq<JobEventView>,
    prefix: Seq<char>,
    dir: Seq<char>,
    now: u64,
) -> Seq<JobView>
    decreases v.len(),
{
    if v.len() == 0 {
        jobs
    } else {
        let head = loaded_jobs(jobs, v.drop_last(), prefix, dir, now);
        if starts_with(v.last().id, prefix) {
            with_job(head, loaded_job(v.last(), dir, now))
        } else {
            head
        }
    }
}

/// The lines to add for the jobs of a day that the end of the program cut off.
pub open spec fn cut_off_lines(
    v: Seq<JobEventView>,
    prefix: Seq<char>,
    now: u64,
) -> Seq<JobEventView>
    decreases v.len(),
{
    if v.len() == 0 {
        Seq::empty()
    } else {
        let head = cut_off_lines(v.drop_last(), prefix, now);
        let e = v.last();
        if starts_with(e.id, prefix) && told_status(e) is Running {
            head.push(cut_off_event(e.id, e.kind, e.label, e.started_at, Some(now)))
        } else {
            head
        }
    }
}

/// The prefix of the ids of a day.
pub open spec fn day_prefix(today: Seq<char>) -> Seq<char> {
    without_dashes(today) + "-"@
}

/// A registry that has taken in the lines of a day.
pub open spec fn loaded(
    r: RegistryView,
    v: Seq<JobEventView>,
    today: Seq<char>,
    dir: Seq<char>,
    now: u64,
) -> RegistryView {
    if v.len() == 0 {
        r
    } else {
        let lines = folded_lines(v);
        let prefix = day_prefix(today);
        RegistryView {
            jobs: loaded_jobs(r.jobs, lines, prefix, dir, now),
            current_day: without_dashes(today),
            next_seq: (highest_number(lines, prefix) + 1) as u64,
            ..r
        }
    }
}

proof fn lemma_highest_prefix(v: Seq<JobEventView>, prefix: Seq<char>, i: int)
    requires
        0 <= i <= v.len(),
    ensures
        highest_number(v.take(i), prefix) <= highest_number(v, prefix),
    decreases v.len() - i,
{
    if i < v.len() {
        lemma_highest_prefix(v, prefix, i + 1);
        let t = v.take(i + 1);
        assert(t.drop_last() =~= v.take(i));
    } else {
        assert(v.take(i) =~= v);
    }
}

/// No line of a day tells of a job that runs here.
pub open spec fn tells_of_none(jobs: Seq<JobView>, v: Seq<JobEventView>, prefix: Seq<char>) -> bool {
    forall|i: int|
        0 <= i < v.len() && starts_with((#[trigger] v[i]).id, prefix) ==> is_free(jobs, v[i].id)
}

proof fn lemma_loaded_counted(
    jobs: Seq<JobView>,
    v: Seq<JobEventView>,
    prefix: Seq<char>,
    dir: Seq<char>,
    now: u64,
)
    requires
        ids_distinct(jobs),
        tells_of_none(jobs, v, prefix),
    ensures
        ids_distinct(loaded_jobs(jobs, v, prefix, dir, now)),
        running_count(loaded_jobs(jobs, v, prefix, dir, now), JobKind::Process) == running_count(
            jobs,
            JobKind::Process,
        ),
        running_count(loaded_jobs(jobs, v, prefix, dir, now), JobKind::Agent) == running_count(
            jobs,
            JobKind::Agent,
        ),
        forall|id: Seq<char>|
            is_free(jobs, id) ==> #[trigger] is_free(
                loaded_jobs(jobs, v, prefix, dir, now),
                id,
            ),
    decreases v.len(),
{
    if v.len() > 0 {
        let w = v.drop_last();
        assert forall|i: int| 0 <= i < w.len() && starts_with((#[trigger] w[i]).id, prefix) implies is_free(
            jobs,
            w[i].id,
        ) by {
            assert(w[i] == v[i]);
        }
        lemma_loaded_counted(jobs, w, prefix, dir, now);
        let head = loaded_jobs(jobs, w, prefix, dir, now);
        let j = loaded_job(v.last(), dir, now);
        lemma_with_job(head, j);
        if starts_with(v.last().id, prefix) {
            assert(is_free(jobs, v[v.len() - 1].id));
            assert(is_free(head, j.id));
            assert(running_count(with_job(head, j), JobKind::Process) == running_count(
                head,
                JobKind::Process,
            ) + weight(j, JobKind::Process));
            assert(running_count(with_job(head, j), JobKind::Agent) == running_count(
                head,
                JobKind::Agent,
            ) + weight(j, JobKind::Agent));
            assert forall|id: Seq<char>| is_free(jobs, id) implies #[trigger] is_free(
                with_job(head, j),
                id,
            ) by {
                assert(is_free(head, id));
                if id != j.id {
                    assert(job_at(with_job(head, j), id) == job_at(head, id));
                }
            }
        }
    }
}

/// Takes in the lines of a day, so that jobs are numbered on behind them and
/// those that the end of the program cut off have failed; gives the lines to add
/// for these.
pub fn load_today(
    registry: &mut JobRegistry,
    evs: &Vec<JobEvent>,
    today: &str,
    jobs_dir: &str,
    now: u64,
) -> (added: Vec<JobEvent>)
    requires
        highest_number(folded_lines(job_event_views(evs@)), day_prefix(today@)) < u64::MAX,
    ensures
        final(registry)@ == loaded(
            old(registry)@,
            job_event_views(evs@),
            today@,
            jobs_dir@,
            now,
        ),
        job_event_views(added@) == (if evs@.len() == 0 {
            Seq::<JobEventView>::empty()
        } else {
            cut_off_lines(folded_lines(job_event_views(evs@)), day_prefix(today@), now)
        }),
        is_counted(old(registry)@) && tells_of_none(
            old(registry)@.jobs,
            folded_lines(job_event_views(evs@)),
            day_prefix(today@),
        ) ==> is_counted(final(registry)@),
{
    let mut added: Vec<JobEvent> = Vec::new();
    assert(job_event_views(added@) =~= Seq::empty());
    if evs.len() == 0 {
        return added;
    }
    let folded = fold_by_id(evs.as_slice());
    let ghost lines = job_event_views(folded.events@);
    let day = drop_dashes(today);
    let mut head = day.clone();
    head.push_str("-");
    let prefix = to_chars(head.as_str());
    let ghost p = day_prefix(today@);
    let ghost before = registry@;
    proof {
        if is_counted(before) && tells_of_none(before.jobs, lines, p) {
            lemma_loaded_counted(before.jobs, lines, p, jobs_dir@, now);
        }
        assert(lines.take(0) =~= Seq::empty());
    }
    let mut highest: u64 = 0;
    let mut i: usize = 0;
    while i < folded.events.len()
        invariant
            lines == job_event_views(folded.events@),
            p == day_prefix(today@),
            head@ == p,
            prefix@ == p,
            i <= folded.events@.len(),
            highest == highest_number(lines.take(i as int), p),
            registry@ == (RegistryView {
                jobs: loaded_jobs(before.jobs, lines.take(i as int), p, jobs_dir@, now),
                ..before
            }),
            job_event_views(added@) == cut_off_lines(lines.take(i as int), p, now),
        decreases folded.events@.len() - i,
    {
        let e = &folded.events[i];
        proof {
            let t = lines.take(i + 1);
            assert(t.drop_last() =~= lines.take(i as int));
            assert(t.last() == e@);
        }
        let id = to_chars(e.id.as_str());
        if let Some(rest) = strip_prefix_chars(id.as_slice(), prefix.as_slice()) {
            if let Some(n) = read_u64(rest) {
                if n > highest {
                    highest = n;
                }
            }
            let status = parse_status_from_event(e);
            let cut_off = status.is_running();
            let mut name = e.id.clone();
            name.push_str(".log");
            let j = Job {
                id: e.id.clone(),
                kind: e.kind,
                label: e.label.clone(),
                status: if cut_off {
                    JobStatus::Failed { reason: "forced_exit".to_owned() }
                } else {
                    status
                },
                log_path: join_path(jobs_dir, name.as_str()),
                started_at: e.started_at,
                finished_at: if cut_off {
                    Some(now)
                } else {
                    e.finished_at
                },
                cancel: false,
                answer: clone_opt(&e.tail),
                suppress_inject: false,
            };
            proof {
                assert(j@ == loaded_job(e@, jobs_dir@, now));
            }
            registry.put(j);
            if cut_off {
                let line = forced_exit_event(
                    e.id.as_str(),
                    e.kind,
                    e.label.as_str(),
                    e.started_at,
                    Some(now),
                );
                let ghost was = job_event_views(added@);
                added.push(line);
                assert(job_event_views(added@) =~= was.push(line@));
            }
        }
        i = i + 1;
    }
    proof {
        assert(lines.take(i as int) =~= lines);
    }
    registry.current_day = day;
    registry.next_seq = highest + 1;
    added
}

/// After a day's lines are taken in, the next job's number is above all of theirs.
pub proof fn lemma_load_numbers(
    r: RegistryView,
    v: Seq<JobEventView>,
    today: Seq<char>,
    dir: Seq<char>,
    now: u64,
    i: int,
)
    requires
        v.len() > 0,
        highest_number(folded_lines(v), day_prefix(today)) < u64::MAX,
        0 <= i < folded_lines(v).len(),
    ensures
        number_in(folded_lines(v)[i].id, day_prefix(today)) < loaded(r, v, today, dir, now).next_seq,
{
    let lines = folded_lines(v);
    let p = day_prefix(today);
    lemma_highest_prefix(lines, p, i + 1);
    let t = lines.take(i + 1);
    assert(t.last() == lines[i]);
}

// ---------------------------------------------------------------------------
// Ending a session
// ---------------------------------------------------------------------------

/// Jobs of which those that ran have failed with the end of the program.
pub open spec fn cut_off_jobs(v: Seq<JobView>, now: u64) -> Seq<JobView> {
    v.map_values(
        |j: JobView|
            if j.status is Running {
                JobView {
                    status: StatusView::Failed { reason: "forced_exit"@ },
                    finished_at: Some(now),
                    ..j
                }
            } else {
                j
            },
    )
}

/// The lines of the jobs that the end of the program cuts off.
pub open spec fn ended_lines(v: Seq<JobView>, now: u64) -> Seq<JobEventView>
    decreases v.len(),
{
    if v.len() == 0 {
        Seq::empty()
    } else {
        let head = ended_lines(v.drop_last(), now);
        let j = v.last();
        if j.status is Running {
            head.push(cut_off_event(j.id, j.kind, j.label, j.started_at, Some(now)))
        } else {
            head
        }
    }
}

proof fn lemma_cut_off_idle(v: Seq<JobView>, now: u64, kind: JobKind)
    ensures
        running_count(cut_off_jobs(v, now), kind) == 0,
    decreases v.len(),
{
    let w = cut_off_jobs(v, now);
    if v.len() > 0 {
        lemma_cut_off_idle(v.drop_last(), now, kind);
        assert(w.drop_last() =~= cut_off_jobs(v.drop_last(), now));
    }
}

/// Marks every job that runs as failed, for the end of the program; gives the
/// lines to add. All places are given back.
pub fn mark_running_as_forced_exit(registry: &mut JobRegistry, now: u64) -> (added: Vec<JobEvent>)
    ensures
        final(registry)@ == (RegistryView {
            jobs: cut_off_jobs(old(registry)@.jobs, now),
            running: 0,
            running_agents: 0,
            ..old(registry)@
        }),
        job_event_views(added@) == ended_lines(old(registry)@.jobs, now),
        is_counted(old(registry)@) ==> is_counted(final(registry)@),
{
    let ghost before = registry@;
    let mut added: Vec<JobEvent> = Vec::new();
    let mut i: usize = 0;
    proof {
        assert(job_event_views(added@) =~= Seq::empty());
        assert(before.jobs.take(0) =~= Seq::empty());
    }
    while i < registry.jobs.len()
        invariant
            i <= registry.jobs@.len(),
            registry.jobs@.len() == before.jobs.len(),
            registry@ == (RegistryView { jobs: registry@.jobs, ..before }),
            forall|k: int|
                0 <= k < i ==> (#[trigger] registry.jobs@[k])@ == cut_off_jobs(
                    before.jobs,
                    now,
                )[k],
            forall|k: int|
                i <= k < registry.jobs@.len() ==> (#[trigger] registry.jobs@[k])@
                    == before.jobs[k],
            job_event_views(added@) == ended_lines(before.jobs.take(i as int), now),
        decreases registry.jobs@.len() - i,
    {
        let mut j = registry.jobs[i].clone();
        proof {
            let t = before.jobs.take(i + 1);
            assert(t.drop_last() =~= before.jobs.take(i as int));
            assert(t.last() == j@);
        }
        if j.status.is_running() {
            j.status = JobStatus::Failed { reason: "forced_exit".to_owned() };
            j.finished_at = Some(now);
            let line = forced_exit_event(
                j.id.as_str(),
                j.kind,
                j.label.as_str(),
                j.started_at,
                Some(now),
            );
            let ghost was = job_event_views(added@);
            added.push(line);
            assert(job_event_views(added@) =~= was.push(line@));
            registry.jobs.set(i, j);
        }
        i = i + 1;
    }
    registry.running = 0;
    registry.running_agents = 0;
    proof {
        assert(before.jobs.take(i as int) =~= before.jobs);
        assert(registry@.jobs =~= cut_off_jobs(before.jobs, now));
        lemma_cut_off_idle(before.jobs, now, JobKind::Process);
        lemma_cut_off_idle(before.jobs, now, JobKind::Agent);
        if is_counted(before) {
            let w = registry@.jobs;
            assert forall|a: int, b: int| 0 <= a < b < w.len() implies (#[trigger] w[a]).id != (
            #[trigger] w[b]).id by {
                assert(before.jobs[a].id != before.jobs[b].id);
            }
        }
    }
    added
}

/// No job runs any more after the end of the program.
pub proof fn lemma_forced_exit_idle(v: Seq<JobView>, now: u64)
    ensures
        running_count(cut_off_jobs(v, now), JobKind::Process) == 0,
        running_count(cut_off_jobs(v, now), JobKind::Agent) == 0,
{
    lemma_cut_off_idle(v, now, JobKind::Process);
    lemma_cut_off_idle(v, now, JobKind::Agent);
}

// ---------------------------------------------------------------------------
// Old logs
// ---------------------------------------------------------------------------

/// The number in the name of a log from before jobs had days in their ids.
pub open spec fn legacy_stem(name: Seq<char>) -> Option<Seq<char>> {
    let stem = name_stem(name);
    if name_extension(name) == Some("log"@) && stem.len() > 0 && all_digits(stem) {
        Some(stem)
    } else {
        None
    }
}

/// The name that a log with a number gets.
pub open spec fn legacy_name(stem: Seq<char>) -> Seq<char> {
    "legacy-"@ + stem + ".log"@
}

/// The number in the name of an old log, and the name that it gets; nothing of
/// any other file.
pub fn legacy_log(name: &str) -> (r: Option<(String, String)>)
    ensures
        match r {
            Some(p) => legacy_stem(name@) == Some(p.0@) && p.1@ == legacy_name(p.0@),
            None => legacy_stem(name@) is None,
        },
{
    let stem = stem_of_name(name);
    let is_log = match extension_of_name(name) {
        Some(e) => str_eq(e.as_str(), "log"),
        None => false,
    };
    if !is_log || stem.as_str().unicode_len() == 0 {
        return None;
    }
    let v = to_chars(stem.as_str());
    let mut i: usize = 0;
    while i < v.len()
        invariant
            v@ == stem@,
            stem@ == name_stem(name@),
            i <= v@.len(),
            forall|k: int| 0 <= k < i ==> is_digit(v@[k]),
        decreases v@.len() - i,
    {
        if !digit_like(v[i]) {
            assert(!is_digit(stem@[i as int]));
            return None;
        }
        i = i + 1;
    }
    let mut fresh = "legacy-".to_owned();
    fresh.push_str(stem.as_str());
    fresh.push_str(".log");
    Some((stem, fresh))
}

/// A log that was renamed is not renamed again.
pub proof fn lemma_legacy_once(stem: Seq<char>)
    ensures
        legacy_stem(legacy_name(stem)) is None,
{
    let name = legacy_name(stem);
    reveal_strlit("legacy-");
    reveal_strlit(".log");
    assert(name[0] == 'l');
    lemma_last_index_within(name, '.');
    let s = name_stem(name);
    if s.len() > 0 {
        assert(s[0] == 'l');
        assert(!is_digit(s[0]));
    }
}

// ---------------------------------------------------------------------------
// The end of a process
// ---------------------------------------------------------------------------

/// How a process ended.
#[derive(Debug, Clone, Copy)]
pub enum Exit {
    /// By itself, with its exit code, when it has one.
    Ended(Option<i32>),
    /// Its end could not be waited for.
    WaitFailed,
    /// It took longer than so many seconds.
    TimedOut(u64),
}

/// The status that the end of a process gives its job.
pub open spec fn exit_status(e: Exit) -> StatusView {
    match e {
        Exit::Ended(Some(code)) => StatusView::Done { code },
        Exit::Ended(None) => StatusView::Failed { reason: "无退出码"@ },
        Exit::WaitFailed => StatusView::Failed { reason: "进程 wait 失败"@ },
        Exit::TimedOut(secs) => StatusView::Failed {
            reason: "超时("@ + dec(secs as nat) + "s)"@,
        },
    }
}

fn status_of_exit(e: Exit) -> (r: JobStatus)
    ensures
        r@ == exit_status(e),
{
    match e {
        Exit::Ended(code) => match code {
            Some(c) => JobStatus::Done { code: c },
            None => JobStatus::Failed { reason: "无退出码".to_owned() },
        },
        Exit::WaitFailed => JobStatus::Failed { reason: "进程 wait 失败".to_owned() },
        Exit::TimedOut(secs) => {
            let mut reason = "超时(".to_owned();
            reason.push_str(write_u64(secs).as_str());
            reason.push_str("s)");
            JobStatus::Failed { reason }
        },
    }
}

/// What is told the model of a process that ended.
pub open spec fn exit_outcome(id: Seq<char>, e: Exit, tail: Seq<char>) -> JobOutcomeView {
    JobOutcomeView {
        job_id: id,
        kind: JobKind::Process,
        label: None,
        ok: e is Ended,
        code: match e {
            Exit::Ended(code) => code,
            _ => None,
        },
        tail,
        answer: None,
        note: None,
    }
}

/// What comes of the end of a process: the job as it stands, and unless it was
/// killed a line to add and what is told the model.
#[derive(Debug)]
pub struct Settled {
    pub job: Job,
    pub line: Option<JobEvent>,
    pub outcome: Option<JobOutcome>,
}

/// The tail of a log that a line keeps: none without a log.
pub open spec fn kept_tail(j: JobView, tail: Seq<char>) -> Option<Seq<char>> {
    if j.log_path.len() == 0 {
        None
    } else {
        Some(tail)
    }
}

/// A job was killed.
pub open spec fn was_killed(r: RegistryView, id: Seq<char>) -> bool {
    match job_at(r.jobs, id) {
        Some(j) => j.status is Killed,
        None => false,
    }
}

proof fn lemma_finished_at(r: RegistryView, id: Seq<char>, status: StatusView, at: u64)
    requires
        job_at(r.jobs, id) is Some,
    ensures
        job_at(finished(r, id, status, at).jobs, id) == Some(
            JobView { status, finished_at: Some(at), ..job_at(r.jobs, id)->0 },
        ),
{
    lemma_job_index(r.jobs, id);
    let s = finished(r, id, status, at);
    lemma_job_index(s.jobs, id);
    let i = job_index(r.jobs, id)->0;
    assert(s.jobs[i].id == id);
    let m = job_index(s.jobs, id)->0;
    if m < i {
        assert(s.jobs[m].id == r.jobs[m].id);
    }
}

/// Settles a process that ended. A job that was killed stays killed: nothing is
/// kept of its end and the model is not told.
pub fn settle_process(
    registry: &mut JobRegistry,
    id: &str,
    exit: Exit,
    tail: &str,
    now: u64,
) -> (r: Settled)
    requires
        job_at(old(registry)@.jobs, id@) is Some,
    ensures
        is_counted(old(registry)@) ==> is_counted(final(registry)@),
        was_killed(old(registry)@, id@) ==> {
            &&& final(registry)@ == old(registry)@
            &&& job_at(old(registry)@.jobs, id@) == Some(r.job@)
            &&& r.line is None
            &&& r.outcome is None
        },
        !was_killed(old(registry)@, id@) ==> {
            let j = JobView {
                status: exit_status(exit),
                finished_at: Some(now),
                ..job_at(old(registry)@.jobs, id@)->0
            };
            &&& final(registry)@ == finished(old(registry)@, id@, exit_status(exit), now)
            &&& r.job@ == j
            &&& r.line is Some
            &&& r.line->0@ == ended_event(j, kept_tail(j, tail@))
            &&& r.outcome is Some
            &&& r.outcome->0@ == exit_outcome(id@, exit, tail@)
        },
{
    let ghost before = registry@;
    let killed = match registry.get(id) {
        Some(j) => j.status.is_killed(),
        None => false,
    };
    if !killed {
        proof {
            lemma_finished_at(before, id@, exit_status(exit), now);
        }
        registry.finish(id, status_of_exit(exit), now);
    }
    let job = registry.get(id).unwrap().clone();
    if killed {
        return Settled { job, line: None, outcome: None };
    }
    let kept = if job.log_path.as_str().unicode_len() == 0 {
        None
    } else {
        Some(tail.to_owned())
    };
    let line = terminal_event(&job, kept);
    let outcome = JobOutcome {
        job_id: id.to_owned(),
        kind: JobKind::Process,
        label: None,
        ok: match exit {
            Exit::Ended(_) => true,
            _ => false,
        },
        code: match exit {
            Exit::Ended(code) => code,
            _ => None,
        },
        tail: tail.to_owned(),
        answer: None,
        note: None,
    };
    Settled { job, line: Some(line), outcome: Some(outcome) }
}

/// What it takes to end a job by hand.
#[derive(Debug)]
pub struct Kill {
    /// The job as it stands.
    pub job: Job,
    /// Its processes are to be ended.
    pub end_processes: bool,
    /// It is to be asked to stop.
    pub cancel: bool,
}

/// A registry after a job was ended by hand. A process that ran counts as killed at
/// once and gives its place back; a subagent is only asked to stop, and ends by
/// itself.
pub open spec fn after_kill(r: RegistryView, id: Seq<char>, now: u64) -> RegistryView {
    match job_at(r.jobs, id) {
        Some(j) => if j.kind == JobKind::Process && j.status is Running {
            finished(r, id, StatusView::Killed, now)
        } else {
            r
        },
        None => r,
    }
}

/// Ends a job by hand; nothing when there is none with the id.
pub fn kill_job(registry: &mut JobRegistry, id: &str, now: u64) -> (r: Option<Kill>)
    ensures
        final(registry)@ == after_kill(old(registry)@, id@, now),
        is_counted(old(registry)@) ==> is_counted(final(registry)@),
        r is Some <==> job_at(old(registry)@.jobs, id@) is Some,
        r matches Some(k) ==> {
            let j = job_at(old(registry)@.jobs, id@)->0;
            &&& k.job@ == (if j.kind == JobKind::Process && j.status is Running {
                JobView { status: StatusView::Killed, finished_at: Some(now), ..j }
            } else {
                j
            })
            &&& k.end_processes == (j.kind == JobKind::Process)
            &&& k.cancel == j.cancel
        },
{
    let ghost before = registry@;
    let (process, runs, cancel) = match registry.get(id) {
        Some(j) => (
            match j.kind {
                JobKind::Process => true,
                JobKind::Agent => false,
            },
            j.status.is_running(),
            j.cancel,
        ),
        None => {
            return None;
        },
    };
    if process && runs {
        proof {
            lemma_finished_one(before, id@, StatusView::Killed, now, id@);
        }
        registry.finish(id, JobStatus::Killed, now);
    }
    let job = registry.get(id).unwrap().clone();
    Some(Kill { job, end_processes: process, cancel })
}

/// A process that was killed is not told the model of when it ends.
pub proof fn lemma_killed_stays(r: RegistryView, id: Seq<char>, now: u64)
    requires
        job_at(r.jobs, id) is Some,
        (job_at(r.jobs, id)->0).kind == JobKind::Process,
        (job_at(r.jobs, id)->0).status is Running,
    ensures
        was_killed(after_kill(r, id, now), id),
{
    lemma_finished_one(r, id, StatusView::Killed, now, id);
}

/// A process that is killed gives its place back: another may begin.
pub proof fn lemma_kill_gives_room(r: RegistryView, id: Seq<char>, now: u64)
    requires
        is_counted(r),
        r.running <= MAX_RUNNING,
        job_at(r.jobs, id) is Some,
        (job_at(r.jobs, id)->0).kind == JobKind::Process,
        (job_at(r.jobs, id)->0).status is Running,
    ensures
        after_kill(r, id, now).running == r.running - 1,
        has_room(after_kill(r, id, now), JobKind::Process),
        is_counted(after_kill(r, id, now)),
{
    lemma_job_index(r.jobs, id);
    lemma_running_at(r.jobs, job_index(r.jobs, id)->0, JobKind::Process);
    lemma_finished_counted(r, id, StatusView::Killed, now);
}

/// Enters a process that is to begin, when there is room for it.
pub fn begin_process(
    registry: &mut JobRegistry,
    label: &str,
    jobs_dir: &str,
    started_at: u64,
    today: &str,
) -> (r: Result<Job, String>)
    requires
        has_room(old(registry)@, JobKind::Process) ==> seq_for(old(registry)@, today@) < u64::MAX,
    ensures
        is_counted(old(registry)@) && is_free(
            old(registry)@.jobs,
            job_id(today@, seq_for(old(registry)@, today@)),
        ) ==> is_counted(final(registry)@),
        r is Ok <==> has_room(old(registry)@, JobKind::Process),
        r matches Err(e) ==> e@ == "已达并发上限(8)"@ && final(registry)@ == old(registry)@,
        r matches Ok(j) ==> {
            let id = job_id(today@, seq_for(old(registry)@, today@));
            let log = joined(jobs_dir@, id + ".log"@);
            &&& j@ == new_job(id, JobKind::Process, label@, log, started_at)
            &&& final(registry)@ == registered(
                old(registry)@,
                JobKind::Process,
                label@,
                log,
                started_at,
                today@,
            )
        },
{
    if !registry.can_spawn(JobKind::Process) {
        return Err("已达并发上限(8)".to_owned());
    }
    let ghost before = registry@;
    let seq: u64 = if str_eq(today, registry.current_day.as_str()) {
        registry.next_seq
    } else {
        1
    };
    let mut name = today.to_owned();
    name.push_str("-");
    let number = if seq <= 99 {
        write_padded(seq, 2)
    } else {
        write_u64(seq)
    };
    name.push_str(number.as_str());
    name.push_str(".log");
    let log = join_path(jobs_dir, name.as_str());
    let id = registry.register(JobKind::Process, label.to_owned(), log.clone(), started_at, today);
    proof {
        lemma_registered_found(
            before,
            JobKind::Process,
            label@,
            log@,
            started_at,
            today@,
        );
    }
    Ok(registry.get(id.as_str()).unwrap().clone())
}

// ---------------------------------------------------------------------------
// Logs and files
// ---------------------------------------------------------------------------

/// The end of a log that is shown: all of it without the blanks at its ends, or a
/// mark and the last bytes.
pub open spec fn shown_tail(s: Seq<char>) -> Seq<char> {
    let t = trim(s);
    if byte_len(t) <= TAIL {
        t
    } else {
        "…[已截断]\n"@ + tail_within(t, TAIL as int)
    }
}

/// The end of a log that is shown.
pub fn tail_text(s: &str) -> (r: String)
    ensures
        r@ == shown_tail(s@),
{
    let t = trimmed(s);
    if bytes_of(t.as_str()) <= TAIL {
        return t;
    }
    let mut out = "…[已截断]\n".to_owned();
    out.push_str(tail_str(t.as_str(), TAIL).as_str());
    out
}

/// The one writer of the job log: it picks the file of each line by the local
/// date on which the job began.
#[derive(Debug)]
pub struct JobWriter {
    /// The date of the file that is open.
    pub open_date: Option<String>,
    /// The offset of local time from universal time, in seconds.
    pub offset_secs: i64,
}

/// The date whose file takes a line.
pub open spec fn line_day(e: JobEventView, offset_secs: i64) -> Seq<char> {
    date_of(shifted(e.started_at, offset_secs))
}

/// The line of an old log goes to the file of the day on which it is made.
pub proof fn lemma_legacy_today(stem: Seq<char>, now: u64, offset_secs: i64)
    ensures
        line_day(legacy_line(stem, now), offset_secs) == date_of(shifted(now, offset_secs)),
{
}

impl JobWriter {
    /// A writer with no file open.
    pub fn new(offset_secs: i64) -> (r: JobWriter)
        ensures
            r.open_date is None,
            r.offset_secs == offset_secs,
    {
        JobWriter { open_date: None, offset_secs }
    }

    /// The date whose file takes a line, and whether that file has to be opened.
    pub fn place(&self, e: &JobEvent) -> (r: (String, bool))
        requires
            offset_fits(e.started_at, self.offset_secs),
        ensures
            r.0@ == line_day(e@, self.offset_secs),
            r.1 == (opt_text(self.open_date) != Some(r.0@)),
    {
        let date = date_from_ts_local(e.started_at, self.offset_secs);
        let reopen = match &self.open_date {
            Some(d) => !str_eq(d.as_str(), date.as_str()),
            None => true,
        };
        (date, reopen)
    }

    /// Notes that the file of a date is open.
    pub fn opened(&mut self, date: &str)
        ensures
            opt_text(final(self).open_date) == Some(date@),
            final(self).offset_secs == old(self).offset_secs,
    {
        self.open_date = Some(date.to_owned());
    }
}

// ---------------------------------------------------------------------------
// Ids
// ---------------------------------------------------------------------------

proof fn lemma_zero_first(s: Seq<char>)
    ensures
        digits_value(seq!['0'] + s) == digits_value(s),
    decreases s.len(),
{
    let z = seq!['0'] + s;
    if s.len() == 0 {
        assert(z.drop_last() =~= Seq::empty());
        assert(digits_value(z.drop_last()) == 0);
    } else {
        lemma_zero_first(s.drop_last());
        assert(z.drop_last() =~= seq!['0'] + s.drop_last());
    }
}

/// The number in a job's id reads back as itself.
pub proof fn lemma_number_value(seq: u64)
    ensures
        digits_value(
            if seq <= 99 {
                padded(seq as nat, 2)
            } else {
                dec(seq as nat)
            },
        ) == seq,
{
    lemma_dec_reads_back(seq as nat);
    if seq < 10 {
        lemma_zero_first(dec(seq as nat));
        assert(padded(seq as nat, 2) =~= seq!['0'] + dec(seq as nat));
    } else if seq <= 99 {
        assert(dec(seq as nat).len() >= 2) by {
            lemma_dec_reads_back((seq / 10) as nat);
        }
        assert(padded(seq as nat, 2) == dec(seq as nat));
    }
}

/// Jobs of a day with different numbers have different ids.
pub proof fn lemma_ids_differ(today: Seq<char>, a: u64, b: u64)
    requires
        job_id(today, a) == job_id(today, b),
    ensures
        a == b,
{
    let x = if a <= 99 {
        padded(a as nat, 2)
    } else {
        dec(a as nat)
    };
    let y = if b <= 99 {
        padded(b as nat, 2)
    } else {
        dec(b as nat)
    };
    lemma_number_value(a);
    lemma_number_value(b);
    let p = today + "-"@;
    assert((p + x).skip(p.len() as int) =~= x);
    assert((p + y).skip(p.len() as int) =~= y);
}

// ---------------------------------------------------------------------------
// What holds of every session
// ---------------------------------------------------------------------------

/// What a session does with its jobs: one begins, or one ends.
pub enum JobStep {
    Begin {
        kind: JobKind,
        label: Seq<char>,
        log_path: Seq<char>,
        started_at: u64,
        today: Seq<char>,
    },
    End { id: Seq<char>, status: StatusView, at: u64 },
}

/// A registry after a step.
pub open spec fn after_step(r: RegistryView, s: JobStep) -> RegistryView {
    match s {
        JobStep::Begin { kind, label, log_path, started_at, today } => registered(
            r,
            kind,
            label,
            log_path,
            started_at,
            today,
        ),
        JobStep::End { id, status, at } => finished(r, id, status, at),
    }
}

/// A registry after steps.
pub open spec fn after_steps(r: RegistryView, steps: Seq<JobStep>) -> RegistryView
    decreases steps.len(),
{
    if steps.len() == 0 {
        r
    } else {
        after_step(after_steps(r, steps.drop_last()), steps.last())
    }
}

/// A step can be done: the number of a job that begins and the counter of its kind
/// fit, and no job that runs has its id; a job that ends does not run on.
pub open spec fn step_fits(r: RegistryView, s: JobStep) -> bool {
    match s {
        JobStep::Begin { kind, today, .. } => {
            &&& seq_for(r, today) < u64::MAX
            &&& kind == JobKind::Process ==> r.running < usize::MAX
            &&& kind == JobKind::Agent ==> r.running_agents < usize::MAX
            &&& is_free(r.jobs, job_id(today, seq_for(r, today)))
        },
        JobStep::End { status, .. } => status !is Running,
    }
}

/// Each of some steps can be done.
pub open spec fn steps_fit(r: RegistryView, steps: Seq<JobStep>) -> bool
    decreases steps.len(),
{
    steps.len() > 0 ==> steps_fit(r, steps.drop_last()) && step_fits(
        after_steps(r, steps.drop_last()),
        steps.last(),
    )
}

/// Whatever jobs began and ended, the counters are the numbers of the jobs that
/// run, and a job of a kind may begin exactly while fewer of its kind run than may.
pub proof fn lemma_counters_exact(today: Seq<char>, max_agents: usize, steps: Seq<JobStep>)
    requires
        steps_fit(empty_registry(today, max_agents), steps),
    ensures
        ({
            let r = after_steps(empty_registry(today, max_agents), steps);
            &&& is_counted(r)
            &&& r.max_agents == max_agents
            &&& has_room(r, JobKind::Process) <==> running_count(r.jobs, JobKind::Process)
                < MAX_RUNNING
            &&& has_room(r, JobKind::Agent) <==> running_count(r.jobs, JobKind::Agent) < max_agents
        }),
    decreases steps.len(),
{
    let e = empty_registry(today, max_agents);
    if steps.len() > 0 {
        lemma_counters_exact(today, max_agents, steps.drop_last());
        let r = after_steps(e, steps.drop_last());
        match steps.last() {
            JobStep::Begin { kind, label, log_path, started_at, today: day } => {
                let j = new_job(job_id(day, seq_for(r, day)), kind, label, log_path, started_at);
                lemma_with_job(r.jobs, j);
                let w = with_job(r.jobs, j);
                assert(running_count(w, JobKind::Process) == running_count(
                    r.jobs,
                    JobKind::Process,
                ) + weight(j, JobKind::Process));
                assert(running_count(w, JobKind::Agent) == running_count(r.jobs, JobKind::Agent)
                    + weight(j, JobKind::Agent));
            },
            JobStep::End { id, status, at } => {
                lemma_finished_counted(r, id, status, at);
            },
        }
    }
}

/// The job of the step at a place of a day that only begins jobs.
pub open spec fn nth_job(today: Seq<char>, steps: Seq<JobStep>, i: int) -> JobView {
    new_job(
        job_id(today, (i + 1) as u64),
        steps[i]->kind,
        steps[i]->label,
        steps[i]->log_path,
        steps[i]->started_at,
    )
}

/// On a day the jobs that begin get the numbers from 1 on, one after the other: the
/// n-th id is the day with n. All of them stay to be found as they began, and the
/// first job of another day gets the number 1 of that day.
pub proof fn lemma_nth_job(today: Seq<char>, max_agents: usize, steps: Seq<JobStep>)
    requires
        steps.len() < usize::MAX,
        steps.len() < u64::MAX,
        forall|i: int|
            0 <= i < steps.len() ==> (#[trigger] steps[i] is Begin && steps[i]->today == today),
    ensures
        steps_fit(empty_registry(today, max_agents), steps),
        ({
            let r = after_steps(empty_registry(today, max_agents), steps);
            &&& r.jobs == Seq::new(steps.len(), |i: int| nth_job(today, steps, i))
            &&& seq_for(r, today) == steps.len() + 1
            &&& forall|i: int|
                0 <= i < steps.len() ==> job_at(
                    r.jobs,
                    #[trigger] job_id(today, (i + 1) as u64),
                ) == Some(nth_job(today, steps, i))
            &&& forall|day: Seq<char>| day != today ==> #[trigger] seq_for(r, day) == 1
        }),
    decreases steps.len(),
{
    let e = empty_registry(today, max_agents);
    let r = after_steps(e, steps);
    let n = steps.len() as int;
    if n > 0 {
        let w = steps.drop_last();
        assert forall|i: int| 0 <= i < w.len() implies (#[trigger] w[i] is Begin && w[i]->today
            == today) by {
            assert(w[i] == steps[i]);
        }
        lemma_nth_job(today, max_agents, w);
        lemma_counters_exact(today, max_agents, w);
        let q = after_steps(e, w);
        let id = job_id(today, n as u64);
        lemma_job_index(q.jobs, id);
        if let Some(k) = job_index(q.jobs, id) {
            assert(q.jobs[k].id == job_id(today, (k + 1) as u64));
            lemma_ids_differ(today, n as u64, (k + 1) as u64);
        }
        lemma_count_bound(q.jobs, JobKind::Process);
        lemma_count_bound(q.jobs, JobKind::Agent);
        assert(steps[n - 1] is Begin);
        assert(r.jobs =~= q.jobs.push(nth_job(today, steps, n - 1)));
        assert forall|i: int| 0 <= i < n - 1 implies nth_job(today, w, i) == #[trigger] nth_job(
            today,
            steps,
            i,
        ) by {
            assert(w[i] == steps[i]);
        }
    }
    let all = Seq::new(steps.len(), |i: int| nth_job(today, steps, i));
    assert(r.jobs =~= all);
    assert forall|i: int| 0 <= i < n implies job_at(
        r.jobs,
        #[trigger] job_id(today, (i + 1) as u64),
    ) == Some(nth_job(today, steps, i)) by {
        let id = job_id(today, (i + 1) as u64);
        lemma_job_index(r.jobs, id);
        assert(r.jobs[i].id == id);
        let k = job_index(r.jobs, id)->0;
        assert(r.jobs[k].id == job_id(today, (k + 1) as u64));
        lemma_ids_differ(today, (i + 1) as u64, (k + 1) as u64);
    }
}

proof fn lemma_count_bound(v: Seq<JobView>, kind: JobKind)
    ensures
        running_count(v, kind) <= v.len(),
    decreases v.len(),
{
    if v.len() > 0 {
        lemma_count_bound(v.drop_last(), kind);
    }
}

} // verus!
