//! Questions to the user: what is asked, what comes back, and which questions wait.
use crate::decimal::{dec, write_usize};
use crate::text::{opt_text, str_eq};
use vstd::prelude::*;

verus! {

/// One of the answers that are offered.
#[derive(Debug)]
pub struct AskOption {
    pub label: String,
    pub description: Option<String>,
    pub recommended: bool,
    pub is_custom: bool,
}

/// A question to the user.
#[derive(Debug)]
pub struct AskUserRequest {
    pub question_id: String,
    pub question: String,
    pub context: Option<String>,
    pub options: Vec<AskOption>,
    pub allow_custom: bool,
    pub require_confirm: bool,
    pub timeout_secs: u64,
    pub pause_on_activity: bool,
    pub resume_after_idle_secs: u64,
}

/// How a question ended. Without an answer it was skipped, timed out or was
/// cancelled.
#[derive(Debug)]
pub struct AskUserResult {
    pub question_id: String,
    pub answer: Option<String>,
    pub skipped: bool,
    pub timed_out: bool,
    pub cancelled: bool,
    /// The answer is the recommended one, taken when the time was over.
    pub auto_submitted: bool,
    /// The time was over and nothing was recommended.
    pub fallback_no_recommended: bool,
}

/// What the end of a question holds.
pub struct AskResultView {
    pub question_id: Seq<char>,
    pub answer: Option<Seq<char>>,
    pub skipped: bool,
    pub timed_out: bool,
    pub cancelled: bool,
    pub auto_submitted: bool,
    pub fallback_no_recommended: bool,
}

impl View for AskUserResult {
    type V = AskResultView;

    open spec fn view(&self) -> AskResultView {
        AskResultView {
            question_id: self.question_id@,
            answer: opt_text(self.answer),
            skipped: self.skipped,
            timed_out: self.timed_out,
            cancelled: self.cancelled,
            auto_submitted: self.auto_submitted,
            fallback_no_recommended: self.fallback_no_recommended,
        }
    }
}

/// A question that suspends a turn, with the call that asked it.
#[derive(Debug)]
pub struct AskUserHandle {
    pub question_id: String,
    pub call_id: String,
    pub request: AskUserRequest,
}

/// What a suspending question holds.
pub struct HandleView {
    pub question_id: Seq<char>,
    pub call_id: Seq<char>,
    pub request: AskUserRequest,
}

impl View for AskUserHandle {
    type V = HandleView;

    open spec fn view(&self) -> HandleView {
        HandleView {
            question_id: self.question_id@,
            call_id: self.call_id@,
            request: self.request,
        }
    }
}

/// How many of the options are recommended.
pub open spec fn recommended_count(v: Seq<AskOption>) -> nat
    decreases v.len(),
{
    if v.len() == 0 {
        0
    } else {
        recommended_count(v.drop_last()) + if v.last().recommended {
            1nat
        } else {
            0nat
        }
    }
}

/// Refuses options of which more than one is recommended.
pub fn validate_options(options: &[AskOption]) -> (r: Result<(), String>)
    ensures
        r is Ok <==> recommended_count(options@) <= 1,
        r matches Err(e) ==> e@ == "schema 错：options 里最多 1 个 recommended:true，当前有 "@ + dec(
            recommended_count(options@),
        ) + " 个"@,
{
    let mut n: usize = 0;
    let mut i: usize = 0;
    while i < options.len()
        invariant
            i <= options@.len(),
            n <= i,
            n == recommended_count(options@.take(i as int)),
        decreases options@.len() - i,
    {
        proof {
            let t = options@.take(i + 1);
            assert(t.drop_last() =~= options@.take(i as int));
            assert(t.last() == options@[i as int]);
        }
        if options[i].recommended {
            n = n + 1;
        }
        i = i + 1;
    }
    assert(options@.take(i as int) =~= options@);
    if n > 1 {
        let mut m = "schema 错：options 里最多 1 个 recommended:true，当前有 ".to_owned();
        m.push_str(write_usize(n).as_str());
        m.push_str(" 个");
        return Err(m);
    }
    Ok(())
}

/// The label of the first option that is recommended.
pub open spec fn recommended_label(v: Seq<AskOption>) -> Option<Seq<char>>
    decreases v.len(),
{
    if v.len() == 0 {
        None
    } else if v[0].recommended {
        Some(v[0].label@)
    } else {
        recommended_label(v.skip(1))
    }
}

/// The label of the first option that is recommended.
pub fn pick_recommended_label(options: &[AskOption]) -> (r: Option<String>)
    ensures
        opt_text(r) == recommended_label(options@),
{
    let mut i: usize = 0;
    assert(options@.skip(0) =~= options@);
    while i < options.len()
        invariant
            i <= options@.len(),
            recommended_label(options@.skip(i as int)) == recommended_label(options@),
        decreases options@.len() - i,
    {
        proof {
            let t = options@.skip(i as int);
            assert(t[0] == options@[i as int]);
            assert(t.skip(1) =~= options@.skip(i + 1));
        }
        if options[i].recommended {
            return Some(options[i].label.clone());
        }
        i = i + 1;
    }
    None
}

/// Options that are accepted recommend at most one answer, and one is picked
/// exactly when one is recommended.
pub proof fn lemma_one_recommended(v: Seq<AskOption>)
    ensures
        recommended_label(v) is Some <==> recommended_count(v) > 0,
    decreases v.len(),
{
    if v.len() > 0 {
        lemma_count_front(v);
        lemma_one_recommended(v.skip(1));
    }
}

proof fn lemma_label_source(v: Seq<AskOption>) -> (i: int)
    requires
        recommended_label(v) is Some,
    ensures
        0 <= i < v.len(),
        v[i].recommended,
        recommended_label(v) == Some(v[i].label@),
    decreases v.len(),
{
    if v[0].recommended {
        0
    } else {
        let i = lemma_label_source(v.skip(1));
        i + 1
    }
}

proof fn lemma_counted_at(v: Seq<AskOption>, i: int)
    requires
        0 <= i < v.len(),
        v[i].recommended,
    ensures
        recommended_count(v) >= 1,
        forall|k: int|
            0 <= k < v.len() && k != i && (#[trigger] v[k]).recommended ==> recommended_count(v)
                >= 2,
    decreases v.len(),
{
    let t = v.drop_last();
    if i < v.len() - 1 {
        lemma_counted_at(t, i);
        assert forall|k: int| 0 <= k < v.len() && k != i && (#[trigger] v[k]).recommended implies recommended_count(
            v,
        ) >= 2 by {
            if k < t.len() {
                assert(t[k] == v[k]);
            }
        }
    } else {
        assert forall|k: int| 0 <= k < v.len() && k != i && (#[trigger] v[k]).recommended implies recommended_count(
            v,
        ) >= 2 by {
            assert(t[k] == v[k]);
            lemma_counted_at(t, k);
        }
    }
}

/// The order in which accepted options stand does not change the label that is
/// recommended.
pub proof fn lemma_label_order_free(a: Seq<AskOption>, b: Seq<AskOption>)
    requires
        recommended_count(a) <= 1,
        a.to_multiset() == b.to_multiset(),
    ensures
        recommended_label(a) == recommended_label(b),
{
    broadcast use vstd::seq_lib::group_to_multiset_ensures;

    lemma_one_recommended(a);
    lemma_one_recommended(b);
    if recommended_label(b) is Some {
        let j = lemma_label_source(b);
        assert(b.contains(b[j]));
        assert(b.to_multiset().count(b[j]) > 0);
        assert(a.contains(b[j]));
        let k = choose|k: int| 0 <= k < a.len() && a[k] == b[j];
        lemma_counted_at(a, k);
        let i = lemma_label_source(a);
        assert(i == k);
    }
    if recommended_label(a) is Some {
        let i = lemma_label_source(a);
        assert(a.contains(a[i]));
        assert(a.to_multiset().count(a[i]) > 0);
        assert(b.contains(a[i]));
        let k = choose|k: int| 0 <= k < b.len() && b[k] == a[i];
        lemma_counted_at(b, k);
    }
}

proof fn lemma_count_front(v: Seq<AskOption>)
    requires
        v.len() > 0,
    ensures
        recommended_count(v) == recommended_count(v.skip(1)) + if v[0].recommended {
            1nat
        } else {
            0nat
        },
    decreases v.len(),
{
    reveal_with_fuel(recommended_count, 2);
    if v.len() == 1 {
        assert(v.skip(1) =~= Seq::empty());
        assert(v.drop_last() =~= Seq::empty());
    } else {
        lemma_count_front(v.drop_last());
        assert(v.drop_last().skip(1) =~= v.skip(1).drop_last());
    }
}

/// The questions that wait for an answer.
#[derive(Debug)]
pub struct PendingAsk {
    pub ids: Vec<String>,
}

impl View for PendingAsk {
    type V = Set<Seq<char>>;

    open spec fn view(&self) -> Set<Seq<char>> {
        crate::text::texts(self.ids@).to_set()
    }
}

/// No question waits.
pub fn new_registry() -> (r: PendingAsk)
    ensures
        r.wf(),
        r@ == Set::<Seq<char>>::empty(),
{
    let r = PendingAsk { ids: Vec::new() };
    assert(r@ =~= Set::<Seq<char>>::empty());
    r
}

impl PendingAsk {
    /// No question waits twice.
    pub open spec fn wf(&self) -> bool {
        crate::text::texts(self.ids@).no_duplicates()
    }

    fn position(&self, question_id: &str) -> (r: Option<usize>)
        ensures
            match r {
                Some(i) => i < self.ids@.len() && self.ids@[i as int]@ == question_id@,
                None => !self@.contains(question_id@),
            },
    {
        let mut i: usize = 0;
        while i < self.ids.len()
            invariant
                i <= self.ids@.len(),
                forall|k: int| 0 <= k < i ==> (#[trigger] self.ids@[k])@ != question_id@,
            decreases self.ids@.len() - i,
        {
            if str_eq(self.ids[i].as_str(), question_id) {
                return Some(i);
            }
            i = i + 1;
        }
        None
    }

    /// Lets a question wait.
    pub fn register(&mut self, question_id: &str)
        requires
            old(self).wf(),
        ensures
            final(self).wf(),
            final(self)@ == old(self)@.insert(question_id@),
    {
        let ghost before = crate::text::texts(self.ids@);
        match self.position(question_id) {
            Some(i) => {
                assert(before[i as int] == question_id@);
                assert(self@ =~= self@.insert(question_id@));
            },
            None => {
                self.ids.push(question_id.to_owned());
                let ghost after = crate::text::texts(self.ids@);
                assert(after =~= before.push(question_id@));
                assert forall|x: Seq<char>|
                    after.to_set().contains(x) <==> before.to_set().insert(
                        question_id@,
                    ).contains(x) by {
                    if before.contains(x) {
                        let k = choose|k: int| 0 <= k < before.len() && before[k] == x;
                        assert(after[k] == x);
                    }
                    assert(after[before.len() as int] == question_id@);
                }
                assert(after.to_set() =~= before.to_set().insert(question_id@));
            },
        }
    }
}

/// Takes a question that is answered or over; tells whether it waited.
pub fn fire_answer(reg: &mut PendingAsk, question_id: &str) -> (r: bool)
    requires
        old(reg).wf(),
    ensures
        final(reg).wf(),
        r == old(reg)@.contains(question_id@),
        final(reg)@ == old(reg)@.remove(question_id@),
{
    let ghost before = crate::text::texts(reg.ids@);
    match reg.position(question_id) {
        Some(i) => {
            assert(before[i as int] == question_id@);
            let _taken = reg.ids.remove(i);
            proof {
                let after = crate::text::texts(reg.ids@);
                assert(after =~= before.remove(i as int));
                assert forall|x: Seq<char>|
                    after.to_set().contains(x) <==> before.to_set().remove(
                        question_id@,
                    ).contains(x) by {
                    if after.contains(x) {
                        let k = choose|k: int| 0 <= k < after.len() && after[k] == x;
                        if k < i {
                            assert(before[k] == x);
                        } else {
                            assert(before[k + 1] == x);
                        }
                    }
                    if before.contains(x) && x != question_id@ {
                        let k = choose|k: int| 0 <= k < before.len() && before[k] == x;
                        if k < i {
                            assert(after[k] == x);
                        } else {
                            assert(after[k - 1] == x);
                        }
                    }
                }
                assert(after.to_set() =~= before.to_set().remove(question_id@));
            }
            true
        },
        None => {
            assert(reg@ =~= reg@.remove(question_id@));
            false
        },
    }
}

// ---------------------------------------------------------------------------
// Answers
// ---------------------------------------------------------------------------

/// What the user's answer comes to. An answer that is empty, and not given because
/// the time was over, counts as skipped.
pub open spec fn given_result(
    question_id: Seq<char>,
    answer: Option<Seq<char>>,
    skipped: bool,
    auto_submitted: bool,
    fallback_no_recommended: bool,
) -> AskResultView {
    let over = auto_submitted || fallback_no_recommended;
    let said = answer matches Some(a) && a.len() > 0;
    let skips = skipped || (!said && !over);
    AskResultView {
        question_id,
        answer: if skips {
            None
        } else {
            answer
        },
        skipped: skips,
        timed_out: over,
        cancelled: false,
        auto_submitted,
        fallback_no_recommended,
    }
}

/// What the user's answer comes to.
pub fn given_answer(
    question_id: String,
    answer: Option<String>,
    skipped: bool,
    auto_submitted: bool,
    fallback_no_recommended: bool,
) -> (r: AskUserResult)
    ensures
        r@ == given_result(
            question_id@,
            opt_text(answer),
            skipped,
            auto_submitted,
            fallback_no_recommended,
        ),
{
    let over = auto_submitted || fallback_no_recommended;
    let said = match &answer {
        Some(a) => a.as_str().unicode_len() > 0,
        None => false,
    };
    let skips = skipped || (!said && !over);
    AskUserResult {
        question_id,
        answer: if skips {
            None
        } else {
            answer
        },
        skipped: skips,
        timed_out: over,
        cancelled: false,
        auto_submitted,
        fallback_no_recommended,
    }
}

/// What is told when a question does not wait any more.
pub fn not_waiting(question_id: &str) -> (r: String)
    ensures
        r@ == "问题 "@ + question_id@ + " 不在等待中（已超时/已答/重复提交）"@,
{
    let mut s = "问题 ".to_owned();
    s.push_str(question_id);
    s.push_str(" 不在等待中（已超时/已答/重复提交）");
    s
}

} // verus!
