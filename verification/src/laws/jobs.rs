//! What is told of a job is what happened to it: the registry, the job log and the
//! model hear the same.
use crate::agent::{job_callback, job_text};
use crate::decimal::{all_digits, dec, dec_int, is_digit, lemma_dec_reads_back, padded};
use crate::jobs::{
    after_kill, cut_off_jobs, cut_off_lines, day_prefix, ended_event, ended_lines, exit_outcome,
    exit_status, finished, folded_lines, has_room, highest_number, job_at, job_id, job_index,
    kept_tail, lemma_finished_one, lemma_job_index, lemma_line_index, lemma_load_numbers,
    lemma_number_value, lemma_registered_found, line_index, lines_distinct, loaded, loaded_job,
    loaded_jobs, number_in, registered, seq_for, shown_tail, started_event, told_status,
    with_job, without_dashes, Exit, JobEventView, JobKind, JobView, RegistryView, StatusView,
    MAX_RUNNING,
};
use crate::text::starts_with;
use super::{lemma_members, says};
use vstd::prelude::*;

verus! {

/// A process that ended by itself with a code is done with that code: so says its job,
/// so says the line in the job log, also when it is read again, and so is the model
/// told, with the code in decimal and the end of the output.
pub proof fn lemma_exit_code_told(
    r: RegistryView,
    id: Seq<char>,
    code: i32,
    tail: Seq<char>,
    now: u64,
)
    requires
        job_at(r.jobs, id) is Some,
    ensures
        ({
            let e = Exit::Ended(Some(code));
            let j = job_at(finished(r, id, exit_status(e), now).jobs, id)->0;
            let line = ended_event(j, kept_tail(j, tail));
            let o = exit_outcome(id, e, tail);
            &&& job_at(finished(r, id, exit_status(e), now).jobs, id) is Some
            &&& j.status == (StatusView::Done { code })
            &&& j.finished_at == Some(now)
            &&& line.code == Some(code)
            &&& line.status == "done"@
            &&& line.finished_at == Some(now)
            &&& line.reason is None
            &&& j.log_path.len() > 0 ==> line.tail == Some(tail)
            &&& told_status(line) == (StatusView::Done { code })
            &&& o.code == Some(code)
            &&& o.ok
            &&& o.job_id == id
            &&& o.kind == JobKind::Process
            &&& o.tail == tail
            &&& job_text(o) == "[后台任务 #"@ + id + " 完成] 退出码 "@ + dec_int(code as int)
                + "\n"@ + tail
        }),
{
    lemma_finished_one(r, id, exit_status(Exit::Ended(Some(code))), now, id);
    lemma_statuses();
}

/// Two processes that ended with different codes are not told alike.
pub proof fn lemma_codes_told_apart(id: Seq<char>, a: i32, b: i32, tail: Seq<char>)
    requires
        job_text(exit_outcome(id, Exit::Ended(Some(a)), tail)) == job_text(
            exit_outcome(id, Exit::Ended(Some(b)), tail),
        ),
    ensures
        a == b,
{
    let head = "[后台任务 #"@ + id + " 完成] 退出码 "@;
    let x = dec_int(a as int);
    let y = dec_int(b as int);
    let p = head + x + "\n"@ + tail;
    let q = head + y + "\n"@ + tail;
    assert(p.len() == head.len() + x.len() + "\n"@.len() + tail.len());
    assert(q.len() == head.len() + y.len() + "\n"@.len() + tail.len());
    assert(p == q);
    assert(x =~= p.subrange(head.len() as int, (head.len() + x.len()) as int));
    assert(y =~= q.subrange(head.len() as int, (head.len() + y.len()) as int));
    lemma_dec_int_injective(a as int, b as int);
}

proof fn lemma_dec_int_injective(a: int, b: int)
    requires
        dec_int(a) == dec_int(b),
    ensures
        a == b,
{
    let x = if a < 0 {
        (-a) as nat
    } else {
        a as nat
    };
    let y = if b < 0 {
        (-b) as nat
    } else {
        b as nat
    };
    crate::decimal::lemma_dec_reads_back(x);
    crate::decimal::lemma_dec_reads_back(y);
    if a < 0 {
        assert(dec_int(a)[0] == '-');
    }
    if b < 0 {
        assert(dec_int(b)[0] == '-');
    }
    if a < 0 && b < 0 {
        assert(dec_int(a).skip(1) =~= crate::decimal::dec(x));
        assert(dec_int(b).skip(1) =~= crate::decimal::dec(y));
    }
    crate::decimal::lemma_dec_injective(x, y);
}

/// A process that did not end with a code has failed: the job and the line in the job
/// log say why, and the model is told of no code.
pub proof fn lemma_failure_told(
    r: RegistryView,
    id: Seq<char>,
    e: Exit,
    tail: Seq<char>,
    now: u64,
)
    requires
        job_at(r.jobs, id) is Some,
        !(e matches Exit::Ended(Some(_))),
    ensures
        ({
            let j = job_at(finished(r, id, exit_status(e), now).jobs, id)->0;
            let line = ended_event(j, kept_tail(j, tail));
            let o = exit_outcome(id, e, tail);
            &&& j.finished_at == Some(now)
            &&& j.status matches StatusView::Failed { reason } && line.reason == Some(reason)
                && told_status(line) == (StatusView::Failed { reason }) && (e
                == Exit::Ended(None) ==> reason == "无退出码"@) && (e == Exit::WaitFailed
                ==> reason == "进程 wait 失败"@) && (e matches Exit::TimedOut(secs) ==> reason
                == "超时("@ + crate::decimal::dec(secs as nat) + "s)"@)
            &&& line.status == "failed"@
            &&& line.code is None
            &&& o.code is None
            &&& o.ok <==> e is Ended
            &&& o.job_id == id
            &&& o.tail == tail
            &&& e !is Ended ==> job_text(o) == "[后台任务 #"@ + id + " 失败]\n"@ + tail
            &&& e is Ended ==> job_text(o) == "[后台任务 #"@ + id + " 完成] 退出码 ?\n"@ + tail
        }),
{
    lemma_finished_one(r, id, exit_status(e), now, id);
    lemma_statuses();
    if e is Ended {
        reveal_strlit(" 完成] 退出码 ");
        reveal_strlit("?");
        reveal_strlit("\n");
        reveal_strlit(" 完成] 退出码 ?\n");
        let o = exit_outcome(id, e, tail);
        assert(job_text(o) =~= "[后台任务 #"@ + id + " 完成] 退出码 ?\n"@ + tail);
    }
}

/// The names of statuses differ.
proof fn lemma_statuses()
    ensures
        "running"@ != "done"@,
        "running"@ != "failed"@,
        "running"@ != "killed"@,
        "done"@ != "failed"@,
        "done"@ != "killed"@,
        "failed"@ != "killed"@,
{
    reveal_strlit("running");
    reveal_strlit("done");
    reveal_strlit("failed");
    reveal_strlit("killed");
    assert("running"@.len() == 7 && "done"@.len() == 4 && "failed"@.len() == 6);
    assert("failed"@[0] == 'f' && "killed"@[0] == 'k');
}

/// A job that begins is there under its id, with what it was begun with, running; it
/// has one line in the log that says the same; and all jobs with other ids are as they
/// were.
pub proof fn lemma_begun_is_there(
    r: RegistryView,
    kind: JobKind,
    label: Seq<char>,
    log: Seq<char>,
    at: u64,
    today: Seq<char>,
    other: Seq<char>,
)
    requires
        seq_for(r, today) < u64::MAX,
        r.running < usize::MAX,
        r.running_agents < usize::MAX,
    ensures
        ({
            let id = job_id(today, seq_for(r, today));
            let s = registered(r, kind, label, log, at, today);
            &&& job_at(s.jobs, id) matches Some(j) && j.id == id && j.kind == kind && j.label
                == label && j.log_path == log && j.started_at == at && j.finished_at is None
                && j.status is Running && ({
                let line = started_event(j);
                line.id == id && line.kind == kind && line.label == label && line.started_at
                    == at && line.status == "running"@ && line.finished_at is None
                    && line.code is None && line.reason is None
            })
            &&& other != id ==> job_at(s.jobs, other) == job_at(r.jobs, other)
            &&& s.current_day == today
            &&& s.next_seq == seq_for(r, today) + 1
            &&& r.current_day == today ==> seq_for(r, today) == r.next_seq
            &&& r.current_day != today ==> seq_for(r, today) == 1
            &&& kind == JobKind::Process ==> s.running == r.running + 1 && s.running_agents
                == r.running_agents
            &&& kind == JobKind::Agent ==> s.running_agents == r.running_agents + 1 && s.running
                == r.running
        }),
{
    lemma_registered_found(r, kind, label, log, at, today);
    let id = job_id(today, seq_for(r, today));
    let s = registered(r, kind, label, log, at, today);
    lemma_job_index(r.jobs, id);
    lemma_job_index(s.jobs, id);
    lemma_job_index(r.jobs, other);
    lemma_job_index(s.jobs, other);
    if other != id {
        let k = match job_index(r.jobs, id) {
            Some(k) => k,
            None => r.jobs.len() as int,
        };
        assert(s.jobs[k].id == id);
        match job_index(r.jobs, other) {
            Some(i) => {
                assert(s.jobs[i] == r.jobs[i]);
                let m = job_index(s.jobs, other)->0;
                assert(m <= i);
                assert(m != k);
                assert(m < r.jobs.len());
                assert(s.jobs[m] == r.jobs[m]);
            },
            None => {
                if job_index(s.jobs, other) is Some {
                    let m = job_index(s.jobs, other)->0;
                    assert(m != k);
                    assert(m < r.jobs.len());
                    assert(s.jobs[m] == r.jobs[m]);
                }
            },
        }
    }
}

/// There is room for eight processes and for as many subagents as are allowed, and for
/// no more.
pub proof fn lemma_room(r: RegistryView)
    ensures
        has_room(r, JobKind::Process) <==> r.running < 8,
        has_room(r, JobKind::Agent) <==> r.running_agents < r.max_agents,
{
    assert(MAX_RUNNING == 8);
}

/// A process that is ended by hand is killed from then on, at that time; a job that is
/// over, or a subagent, is left as it is, and so is every other job.
pub proof fn lemma_kill(r: RegistryView, id: Seq<char>, now: u64, other: Seq<char>)
    ensures
        ({
            let s = after_kill(r, id, now);
            &&& job_at(r.jobs, id) matches Some(j) ==> (if j.kind == JobKind::Process
                && j.status is Running {
                job_at(s.jobs, id) == Some(
                    JobView { status: StatusView::Killed, finished_at: Some(now), ..j },
                )
            } else {
                s == r
            })
            &&& job_at(r.jobs, id) is None ==> s == r
            &&& other != id ==> job_at(s.jobs, other) == job_at(r.jobs, other)
        }),
{
    lemma_finished_one(r, id, StatusView::Killed, now, other);
}

/// When the program ends, every job that runs has failed and is told so once in the
/// log; every other job is as it was.
pub proof fn lemma_program_ends(v: Seq<JobView>, now: u64, i: int)
    requires
        0 <= i < v.len(),
    ensures
        ({
            let w = cut_off_jobs(v, now);
            let lines = ended_lines(v, now);
            &&& w.len() == v.len()
            &&& v[i].status is Running ==> w[i] == (JobView {
                status: StatusView::Failed { reason: "forced_exit"@ },
                finished_at: Some(now),
                ..v[i]
            }) && exists|k: int|
                0 <= k < lines.len() && is_cut_off(#[trigger] lines[k], v[i], now)
            &&& v[i].status !is Running ==> w[i] == v[i]
            &&& lines.len() == v.filter(|j: JobView| j.status is Running).len()
        }),
{
    lemma_program_ends_lines(v, now, i);
}

/// A line that tells that a job failed with the end of the program.
pub open spec fn is_cut_off(e: JobEventView, j: JobView, now: u64) -> bool {
    &&& e.id == j.id && e.kind == j.kind && e.label == j.label && e.started_at == j.started_at
    &&& e.status == "failed"@ && e.reason == Some("forced_exit"@) && e.finished_at == Some(now)
    &&& e.code is None
}

proof fn lemma_program_ends_lines(v: Seq<JobView>, now: u64, i: int)
    requires
        0 <= i < v.len() || v.len() == 0,
    ensures
        ({
            let lines = ended_lines(v, now);
            &&& v.len() > 0 && v[i].status is Running ==> exists|k: int|
                0 <= k < lines.len() && is_cut_off(#[trigger] lines[k], v[i], now)
            &&& lines.len() == v.filter(|j: JobView| j.status is Running).len()
        }),
    decreases v.len(),
{
    reveal(Seq::filter);
    if v.len() > 0 {
        let t = v.drop_last();
        let lines = ended_lines(v, now);
        let head = ended_lines(t, now);
        if i < t.len() {
            lemma_program_ends_lines(t, now, i);
            assert(t[i] == v[i]);
            if v[i].status is Running {
                let k: int = choose|k: int|
                    0 <= k < head.len() && is_cut_off(#[trigger] head[k], t[i], now);
                assert(lines[k] == head[k]);
            }
        } else {
            lemma_program_ends_lines(t, now, 0);
            if v[i].status is Running {
                assert(is_cut_off(lines[lines.len() - 1], v[i], now));
            }
        }
    }
}

/// A job that is read again from its last line is the one that the line tells of; one
/// that was running has failed.
pub proof fn lemma_read_again(e: JobEventView, dir: Seq<char>, now: u64)
    ensures
        ({
            let j = loaded_job(e, dir, now);
            &&& j.id == e.id && j.kind == e.kind && j.label == e.label && j.started_at
                == e.started_at && j.answer == e.tail
            &&& e.status == "running"@ ==> j.status == (StatusView::Failed {
                reason: "forced_exit"@,
            }) && j.finished_at == Some(now)
            &&& e.status == "done"@ && e.code is Some ==> j.status == (StatusView::Done {
                code: e.code->0,
            }) && j.finished_at == e.finished_at
            &&& e.status == "failed"@ && e.reason is Some ==> j.status == (StatusView::Failed {
                reason: e.reason->0,
            }) && j.finished_at == e.finished_at
            &&& e.status == "killed"@ ==> j.status is Killed && j.finished_at == e.finished_at
        }),
{
    lemma_statuses();
}

/// What is shown of a job's end names the job and says what the model is told.
pub proof fn lemma_end_shown(o: crate::jobs::JobOutcomeView)
    ensures
        says(job_callback(o), "job_id"@, o.job_id),
        says(job_callback(o), "body"@, job_text(o)),
        says(
            job_callback(o),
            "kind"@,
            match o.kind {
                JobKind::Process => "process"@,
                JobKind::Agent => "agent"@,
            },
        ),
{
    lemma_members();
    reveal_strlit("job_id");
    reveal_strlit("body");
    reveal_strlit("kind");
    assert("job_id"@.len() == 6 && "body"@.len() == 4 && "kind"@.len() == 4);
    assert("body"@[0] == 'b' && "kind"@[0] == 'k');
}

/// What the model is told of a subagent: its id, how it ended and its whole answer.
pub proof fn lemma_agent_told(o: crate::jobs::JobOutcomeView, answer: Seq<char>)
    requires
        o.kind == JobKind::Agent,
        o.answer == Some(answer),
    ensures
        o.note is None && o.label is None ==> job_text(o) == "[子代理 #"@ + o.job_id + if o.ok {
            " 完成]\n"@
        } else {
            " 失败]\n"@
        } + answer,
        o.note is None && o.label is Some ==> job_text(o) == "[子代理 #"@ + o.job_id + if o.ok {
            " 完成（"@
        } else {
            " 失败（"@
        } + o.label->0 + "）]\n"@ + answer,
        o.note is Some && o.label is None ==> job_text(o) == "[子代理 #"@ + o.job_id + " "@
            + o.note->0 + "；部分产出：\n"@ + answer + "]"@,
{
    reveal_strlit(" 完成");
    reveal_strlit(" 失败");
    reveal_strlit("]\n");
    reveal_strlit(" 完成]\n");
    reveal_strlit(" 失败]\n");
    reveal_strlit("（");
    reveal_strlit("）");
    reveal_strlit(" 完成（");
    reveal_strlit(" 失败（");
    reveal_strlit("）]\n");
    let head = "[子代理 #"@ + o.job_id;
    if o.note is None {
        if o.label is None {
            if o.ok {
                assert(job_text(o) =~= head + " 完成]\n"@ + answer);
            } else {
                assert(job_text(o) =~= head + " 失败]\n"@ + answer);
            }
        } else {
            let c = o.label->0;
            if o.ok {
                assert(job_text(o) =~= head + " 完成（"@ + c + "）]\n"@ + answer);
            } else {
                assert(job_text(o) =~= head + " 失败（"@ + c + "）]\n"@ + answer);
            }
        }
    } else if o.label is None {
        let note = o.note->0;
        assert(job_text(o) =~= head + " "@ + note + "；部分产出：\n"@ + answer + "]"@);
    }
}

/// The end of a log is shown whole when it is short, and otherwise what is shown ends
/// as the log does.
pub proof fn lemma_tail_shown(s: Seq<char>)
    ensures
        crate::cut::byte_len(crate::text::trim(s)) <= crate::jobs::TAIL ==> shown_tail(s)
            == crate::text::trim(s),
{
}

proof fn lemma_folded(v: Seq<JobEventView>, i: int)
    requires
        0 <= i < v.len() || v.len() == 0,
        forall|k: int| i < k < v.len() ==> (#[trigger] v[k]).id != v[i].id,
    ensures
        lines_distinct(folded_lines(v)),
        v.len() > 0 ==> exists|k: int|
            0 <= k < folded_lines(v).len() && #[trigger] folded_lines(v)[k] == v[i],
    decreases v.len(),
{
    if v.len() > 0 {
        let t = v.drop_last();
        let head = folded_lines(t);
        let all = folded_lines(v);
        let e = v.last();
        lemma_line_index(head, e.id);
        if i < t.len() {
            assert(t[i] == v[i]);
            assert forall|k: int| i < k < t.len() implies (#[trigger] t[k]).id != t[i].id by {
                assert(t[k] == v[k]);
            }
            lemma_folded(t, i);
            let k: int = choose|k: int| 0 <= k < head.len() && #[trigger] head[k] == t[i];
            assert(v[v.len() - 1].id != v[i].id);
            assert(all[k] == v[i]);
        } else {
            lemma_folded(t, t.len() - 1);
            match line_index(head, e.id) {
                Some(k) => {
                    assert(all[k] == v[i]);
                },
                None => {
                    assert(all[head.len() as int] == v[i]);
                },
            }
        }
        assert forall|a: int, b: int| 0 <= a < b < all.len() implies (#[trigger] all[a]).id != (
        #[trigger] all[b]).id by {
            if b < head.len() {
                assert(head[a].id != head[b].id);
                assert(all[a].id == head[a].id && all[b].id == head[b].id);
            } else {
                assert(all[a] == head[a] && all[b] == e);
            }
        }
    }
}

proof fn lemma_with_job(v: Seq<JobView>, j: JobView, id: Seq<char>)
    ensures
        job_at(with_job(v, j), j.id) == Some(j),
        id != j.id ==> job_at(with_job(v, j), id) == job_at(v, id),
{
    let w = with_job(v, j);
    lemma_job_index(v, j.id);
    lemma_job_index(w, j.id);
    lemma_job_index(v, id);
    lemma_job_index(w, id);
    let n: int = match job_index(v, j.id) {
        Some(i) => i,
        None => v.len() as int,
    };
    assert(w[n] == j);
    assert forall|k: int| 0 <= k < v.len() && k != n implies #[trigger] w[k] == v[k] by {}
    if job_index(w, j.id) is Some {
        let k = job_index(w, j.id)->0;
        if k < n {
            assert(w[k] == v[k]);
        }
        assert(k == n);
    }
    if id != j.id {
        if job_index(v, id) is Some {
            let k = job_index(v, id)->0;
            assert(k != n);
            assert(w[k] == v[k]);
            let q = job_index(w, id)->0;
            assert(q != n);
            assert(w[q] == v[q]);
            assert(q == k);
        } else if job_index(w, id) is Some {
            let q = job_index(w, id)->0;
            assert(q != n);
            assert(w[q] == v[q]);
        }
    }
}

proof fn lemma_loaded_jobs(
    jobs: Seq<JobView>,
    v: Seq<JobEventView>,
    prefix: Seq<char>,
    dir: Seq<char>,
    now: u64,
    i: int,
)
    requires
        lines_distinct(v),
        0 <= i < v.len(),
        starts_with(v[i].id, prefix),
    ensures
        job_at(loaded_jobs(jobs, v, prefix, dir, now), v[i].id) == Some(loaded_job(v[i], dir, now)),
        v[i].status == "running"@ ==> exists|k: int|
            0 <= k < cut_off_lines(v, prefix, now).len() && is_cut_off(
                #[trigger] cut_off_lines(v, prefix, now)[k],
                loaded_job(v[i], dir, now),
                now,
            ),
    decreases v.len(),
{
    let t = v.drop_last();
    let head = loaded_jobs(jobs, t, prefix, dir, now);
    let lines = cut_off_lines(v, prefix, now);
    let before = cut_off_lines(t, prefix, now);
    let j = loaded_job(v.last(), dir, now);
    lemma_with_job(head, j, v[i].id);
    if i < t.len() {
        assert(t[i] == v[i]);
        assert forall|a: int, b: int| 0 <= a < b < t.len() implies (#[trigger] t[a]).id != (
        #[trigger] t[b]).id by {
            assert(t[a] == v[a] && t[b] == v[b]);
        }
        lemma_loaded_jobs(jobs, t, prefix, dir, now, i);
        assert(v[i].id != v[v.len() - 1].id);
        if v[i].status == "running"@ {
            let k: int = choose|k: int|
                0 <= k < before.len() && is_cut_off(
                    #[trigger] before[k],
                    loaded_job(t[i], dir, now),
                    now,
                );
            assert(lines[k] == before[k]);
        }
    } else if v[i].status == "running"@ {
        assert(is_cut_off(lines[lines.len() - 1], j, now));
    }
}

proof fn lemma_number_of_id(day: Seq<char>, n: u64)
    ensures
        starts_with(job_id(day, n), day + "-"@),
        number_in(job_id(day, n), day + "-"@) == n,
{
    let p = day + "-"@;
    let x = if n <= 99 {
        padded(n as nat, 2)
    } else {
        dec(n as nat)
    };
    let d = dec(n as nat);
    lemma_number_value(n);
    lemma_dec_reads_back(n as nat);
    assert(job_id(day, n) == p + x);
    assert((p + x).subrange(0, p.len() as int) =~= p);
    assert((p + x).skip(p.len() as int) =~= x);
    assert forall|k: int| 0 <= k < x.len() implies is_digit(x[k]) by {
        if x.len() > d.len() {
            if k >= x.len() - d.len() {
                assert(x[k] == d[k - (x.len() - d.len())]);
            }
        } else {
            assert(x == d);
        }
    }
    assert(all_digits(x));
    assert(is_digit(x[0]));
}

/// What the log of a day says is known again in the next session: each job that got
/// its id on that day is as its last line tells it, one that was running is told once
/// more to have failed, and no later job gets a number that was given already.
pub proof fn lemma_day_known_again(
    r: RegistryView,
    v: Seq<JobEventView>,
    today: Seq<char>,
    dir: Seq<char>,
    now: u64,
    i: int,
    n: u64,
)
    requires
        0 <= i < v.len(),
        forall|k: int| i < k < v.len() ==> (#[trigger] v[k]).id != v[i].id,
        v[i].id == job_id(without_dashes(today), n),
        highest_number(folded_lines(v), day_prefix(today)) < u64::MAX,
    ensures
        ({
            let s = loaded(r, v, today, dir, now);
            let added = cut_off_lines(folded_lines(v), day_prefix(today), now);
            &&& job_at(s.jobs, v[i].id) == Some(loaded_job(v[i], dir, now))
            &&& v[i].status == "running"@ ==> exists|k: int|
                0 <= k < added.len() && is_cut_off(
                    #[trigger] added[k],
                    loaded_job(v[i], dir, now),
                    now,
                )
            &&& s.current_day == without_dashes(today)
            &&& n < s.next_seq
            &&& job_id(without_dashes(today), seq_for(s, without_dashes(today))) != v[i].id
        }),
{
    let day = without_dashes(today);
    let lines = folded_lines(v);
    lemma_folded(v, i);
    let k: int = choose|k: int| 0 <= k < lines.len() && #[trigger] lines[k] == v[i];
    lemma_number_of_id(day, n);
    lemma_loaded_jobs(r.jobs, lines, day_prefix(today), dir, now, k);
    lemma_load_numbers(r, v, today, dir, now, k);
    lemma_number_of_id(day, loaded(r, v, today, dir, now).next_seq);
}

} // verus!
