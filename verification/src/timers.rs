//! Timers: the list that the user edits.
use crate::json::Fields;
use crate::text::{str_eq, trim, trimmed};
use vstd::prelude::*;

verus! {

/// A timer: when it last fired, in milliseconds since 1970 and as a date, and
/// what else is set for it.
#[derive(Debug)]
pub struct TimerTask {
    pub task_id: String,
    pub last_fired_ts: u64,
    pub last_fired_date: String,
    pub settings: Fields,
}

/// What a timer holds.
pub struct TimerView {
    pub task_id: Seq<char>,
    pub last_fired_ts: u64,
    pub last_fired_date: Seq<char>,
    pub settings: Map<Seq<char>, crate::json::JsonView>,
}

impl View for TimerTask {
    type V = TimerView;

    open spec fn view(&self) -> TimerView {
        TimerView {
            task_id: self.task_id@,
            last_fired_ts: self.last_fired_ts,
            last_fired_date: self.last_fired_date@,
            settings: self.settings@,
        }
    }
}

/// What timers hold.
pub open spec fn timer_views(v: Seq<TimerTask>) -> Seq<TimerView> {
    v.map_values(|t: TimerTask| t@)
}

/// The timers, and whether any of them fires.
#[derive(Debug)]
pub struct SchedulerConfig {
    pub tasks: Vec<TimerTask>,
    pub global_enabled: bool,
}

/// The place of the first timer with an id.
pub open spec fn timer_index(v: Seq<TimerView>, id: Seq<char>) -> Option<int>
    decreases v.len(),
{
    if v.len() == 0 {
        None
    } else if v[0].task_id == id {
        Some(0)
    } else {
        match timer_index(v.skip(1), id) {
            Some(i) => Some(i + 1),
            None => None,
        }
    }
}

/// `timer_index` gives the first place of the id.
pub proof fn lemma_timer_index(v: Seq<TimerView>, id: Seq<char>)
    ensures
        match timer_index(v, id) {
            Some(i) => 0 <= i < v.len() && v[i].task_id == id && forall|k: int|
                0 <= k < i ==> (#[trigger] v[k]).task_id != id,
            None => forall|k: int| 0 <= k < v.len() ==> (#[trigger] v[k]).task_id != id,
        },
    decreases v.len(),
{
    if v.len() > 0 && v[0].task_id != id {
        let t = v.skip(1);
        lemma_timer_index(t, id);
        assert forall|k: int| 0 < k < v.len() implies #[trigger] v[k] == t[k - 1] by {}
    }
}

/// The id that a timer is kept under: its own, or a new one when it has none.
pub open spec fn timer_id(task: TimerView, fresh: Seq<char>) -> Seq<char> {
    if trim(task.task_id).len() == 0 {
        fresh
    } else {
        task.task_id
    }
}

/// The timers with one put in. One that is there goes on counting from when it
/// last fired, a new one counts from now.
pub open spec fn with_timer(
    v: Seq<TimerView>,
    task: TimerView,
    fresh: Seq<char>,
    now: u64,
) -> Seq<TimerView> {
    let id = timer_id(task, fresh);
    match timer_index(v, id) {
        Some(i) => v.update(
            i,
            TimerView {
                task_id: id,
                last_fired_ts: v[i].last_fired_ts,
                last_fired_date: v[i].last_fired_date,
                ..task
            },
        ),
        None => v.push(
            TimerView {
                task_id: id,
                last_fired_ts: now,
                last_fired_date: Seq::empty(),
                ..task
            },
        ),
    }
}

impl SchedulerConfig {
    /// Puts a timer in; gives its id. Timers fire from then on.
    pub fn upsert_timer(&mut self, task: TimerTask, fresh_id: &str, now: u64) -> (id: String)
        ensures
            timer_views(final(self).tasks@) == with_timer(
                timer_views(old(self).tasks@),
                task@,
                fresh_id@,
                now,
            ),
            final(self).global_enabled,
            id@ == timer_id(task@, fresh_id@),
    {
        let ghost v = timer_views(self.tasks@);
        let ghost given = task@;
        let id = if trimmed(task.task_id.as_str()).as_str().unicode_len() == 0 {
            fresh_id.to_owned()
        } else {
            task.task_id.clone()
        };
        let mut found: Option<usize> = None;
        let mut i: usize = 0;
        proof {
            lemma_timer_index(v, id@);
        }
        while i < self.tasks.len()
            invariant
                v == timer_views(self.tasks@),
                i <= self.tasks@.len(),
                match found {
                    Some(k) => k < self.tasks@.len() && timer_index(v, id@) == Some(k as int),
                    None => forall|k: int| 0 <= k < i ==> (#[trigger] v[k]).task_id != id@,
                },
            decreases self.tasks@.len() - i,
        {
            assert(v[i as int] == self.tasks@[i as int]@);
            if found.is_none() && str_eq(self.tasks[i].task_id.as_str(), id.as_str()) {
                proof {
                    lemma_timer_index(v, id@);
                }
                found = Some(i);
            }
            i = i + 1;
        }
        match found {
            Some(k) => {
                let t = TimerTask {
                    task_id: id.clone(),
                    last_fired_ts: self.tasks[k].last_fired_ts,
                    last_fired_date: self.tasks[k].last_fired_date.clone(),
                    settings: task.settings,
                };
                assert(v[k as int] == self.tasks@[k as int]@);
                self.tasks.set(k, t);
                assert(timer_views(self.tasks@) =~= v.update(k as int, t@));
            },
            None => {
                let t = TimerTask {
                    task_id: id.clone(),
                    last_fired_ts: now,
                    last_fired_date: String::new(),
                    settings: task.settings,
                };
                self.tasks.push(t);
                assert(timer_views(self.tasks@) =~= v.push(t@));
            },
        }
        self.global_enabled = true;
        id
    }

    /// Takes every timer with an id out.
    pub fn delete_timer(&mut self, task_id: &str)
        ensures
            timer_views(final(self).tasks@) == timer_views(old(self).tasks@).filter(
                |t: TimerView| t.task_id != task_id@,
            ),
            final(self).global_enabled == old(self).global_enabled,
    {
        let ghost v = timer_views(self.tasks@);
        let ghost p = |t: TimerView| t.task_id != task_id@;
        let mut kept: Vec<TimerTask> = Vec::new();
        proof {
            reveal(Seq::filter);
            assert(timer_views(kept@) =~= v.take(0).filter(p));
        }
        let mut rest: Vec<TimerTask> = Vec::new();
        while self.tasks.len() > 0
            invariant
                rest@.len() + self.tasks@.len() == v.len(),
                forall|k: int|
                    0 <= k < self.tasks@.len() ==> (#[trigger] self.tasks@[k])@ == v[k],
                forall|k: int|
                    0 <= k < rest@.len() ==> (#[trigger] rest@[k])@ == v[v.len() - 1 - k],
                self.global_enabled == old(self).global_enabled,
            decreases self.tasks@.len(),
        {
            let ghost n = self.tasks@.len();
            match self.tasks.pop() {
                Some(t) => {
                    assert(t@ == v[n - 1]);
                    rest.push(t);
                },
                None => {},
            }
        }
        let ghost mut done: int = 0;
        while rest.len() > 0
            invariant
                p == (|t: TimerView| t.task_id != task_id@),
                0 <= done <= v.len(),
                rest@.len() == v.len() - done,
                forall|k: int|
                    0 <= k < rest@.len() ==> (#[trigger] rest@[k])@ == v[v.len() - 1 - k],
                timer_views(kept@) == v.take(done).filter(p),
                self.global_enabled == old(self).global_enabled,
            decreases rest@.len(),
        {
            proof {
                reveal(Seq::filter);
                let x = v.take(done + 1);
                assert(x.drop_last() =~= v.take(done));
                assert(x.last() == v[done]);
            }
            match rest.pop() {
                Some(t) => {
                    assert(t@ == v[done]);
                    if !str_eq(t.task_id.as_str(), task_id) {
                        let ghost before = timer_views(kept@);
                        kept.push(t);
                        assert(timer_views(kept@) =~= before.push(t@));
                    }
                },
                None => {},
            }
            proof {
                done = done + 1;
            }
        }
        assert(v.take(done) =~= v);
        self.tasks = kept;
    }

    /// Lets timers fire, or none of them.
    pub fn set_global(&mut self, enabled: bool)
        ensures
            final(self).global_enabled == enabled,
            final(self).tasks == old(self).tasks,
    {
        self.global_enabled = enabled;
    }
}

/// A timer that was put in can be changed by its id, and keeps counting.
pub proof fn lemma_timer_keeps_counting(
    v: Seq<TimerView>,
    first: TimerView,
    second: TimerView,
    fresh: Seq<char>,
    other: Seq<char>,
    now: u64,
    later: u64,
)
    requires
        trim(timer_id(first, fresh)).len() > 0,
        second.task_id == timer_id(first, fresh),
    ensures
        ({
            let one = with_timer(v, first, fresh, now);
            let two = with_timer(one, second, other, later);
            let id = timer_id(first, fresh);
            &&& two.len() == one.len()
            &&& timer_index(one, id) is Some
            &&& timer_index(two, id) == timer_index(one, id)
            &&& two[timer_index(one, id)->0].last_fired_ts == one[timer_index(
                one,
                id,
            )->0].last_fired_ts
        }),
{
    let id = timer_id(first, fresh);
    let one = with_timer(v, first, fresh, now);
    let two = with_timer(one, second, other, later);
    lemma_timer_index(v, id);
    lemma_timer_index(one, id);
    lemma_timer_index(two, id);
    match timer_index(v, id) {
        Some(i) => {
            assert(one[i].task_id == id);
        },
        None => {
            assert(one[v.len() as int].task_id == id);
        },
    }
    let k = timer_index(one, id)->0;
    assert(two[k].task_id == id);
    let m = timer_index(two, id)->0;
    if m < k {
        assert(two[m].task_id == one[m].task_id);
    }
}

} // verus!
