//! Grading a learner's answers against a question.
use vstd::prelude::*;

use crate::question::{Answer, AnswerModel, Question, QuestionModel, SegmentModel, question_text};
use crate::text::{answer_key, key_of, lemma_deep_push};

verus! {

/// The answer slots of a question's segments, in order.
pub open spec fn slots(dat: Seq<SegmentModel>) -> Seq<AnswerModel>
    decreases dat.len(),
{
    if dat.len() == 0 {
        seq![]
    } else {
        let before = slots(dat.drop_last());
        match dat.last().1 {
            Some(a) => before.push(a),
            None => before,
        }
    }
}

/// The first item of `pool` at or after `from` that is not yet used and whose
/// key is `k`.
pub open spec fn first_unused(pool: Seq<Seq<char>>, used: Seq<bool>, k: Seq<char>, from: nat) -> Option<
    nat,
>
    decreases pool.len() - from,
{
    if from >= pool.len() {
        None
    } else if !used[from as int] && key_of(pool[from as int]) == k {
        Some(from)
    } else {
        first_unused(pool, used, k, from + 1)
    }
}

/// No pool item used yet.
pub open spec fn fresh_marks(pools: Seq<Seq<Seq<char>>>) -> Seq<Seq<bool>> {
    Seq::new(pools.len(), |i: int| Seq::new(pools[i].len(), |j: int| false))
}

/// Whether some alternative has the same key as `provided`.
pub open spec fn any_matches(alts: Seq<Seq<char>>, provided: Seq<char>) -> bool {
    exists|j: int| 0 <= j < alts.len() && key_of(#[trigger] alts[j]) == key_of(provided)
}

/// Whether `provided` satisfies the slot `expected`, and which pool items are
/// used afterwards.
pub open spec fn graded_slot(
    pools: Seq<Seq<Seq<char>>>,
    used: Seq<Seq<bool>>,
    expected: AnswerModel,
    provided: Seq<char>,
) -> (bool, Seq<Seq<bool>>) {
    match expected {
        AnswerModel::Raw(t) => (key_of(t) == key_of(provided), used),
        AnswerModel::OneOf(alts) => (any_matches(alts, provided), used),
        AnswerModel::SharedPool(i) => match first_unused(
            pools[i as int],
            used[i as int],
            key_of(provided),
            0,
        ) {
            Some(j) => (true, used.update(i as int, used[i as int].update(j as int, true))),
            None => (false, used),
        },
    }
}

/// Whether the first `n` slots were all satisfied by the first `n` answers,
/// and which pool items they used.
pub open spec fn graded(
    pools: Seq<Seq<Seq<char>>>,
    slots: Seq<AnswerModel>,
    answers: Seq<Seq<char>>,
    n: nat,
) -> (bool, Seq<Seq<bool>>)
    decreases n,
{
    if n == 0 {
        (true, fresh_marks(pools))
    } else {
        let (ok, used) = graded(pools, slots, answers, (n - 1) as nat);
        let (slot_ok, after) = graded_slot(pools, used, slots[n - 1], answers[n - 1]);
        (ok && slot_ok, after)
    }
}

/// Whether `answers` satisfy every slot of `q`: one answer per slot, in
/// order, each pool item used at most once.
pub open spec fn all_correct(q: QuestionModel, answers: Seq<Seq<char>>) -> bool {
    let s = slots(q.dat);
    s.len() <= answers.len() && graded(q.pools, s, answers, s.len()).0
}

proof fn lemma_graded_prefix(
    pools: Seq<Seq<Seq<char>>>,
    s1: Seq<AnswerModel>,
    s2: Seq<AnswerModel>,
    answers: Seq<Seq<char>>,
    n: nat,
)
    requires
        n <= s1.len(),
        n <= s2.len(),
        s1.take(n as int) == s2.take(n as int),
    ensures
        graded(pools, s1, answers, n) == graded(pools, s2, answers, n),
    decreases n,
{
    if n > 0 {
        assert(s1.take(n - 1) == s1.take(n as int).take(n - 1));
        assert(s2.take(n - 1) == s2.take(n as int).take(n - 1));
        lemma_graded_prefix(pools, s1, s2, answers, (n - 1) as nat);
        assert(s1[n - 1] == s1.take(n as int)[n - 1]);
        assert(s2[n - 1] == s2.take(n as int)[n - 1]);
    }
}

proof fn lemma_slots_step(dat: Seq<SegmentModel>, d: int)
    requires
        0 <= d < dat.len(),
    ensures
        slots(dat.take(d + 1)) == match dat[d].1 {
            Some(a) => slots(dat.take(d)).push(a),
            None => slots(dat.take(d)),
        },
{
    assert(dat.take(d + 1).drop_last() == dat.take(d));
}

/// The marks of `used` match the shape of `pools`.
pub open spec fn marks_fit(used: Seq<Seq<bool>>, pools: Seq<Seq<Seq<char>>>) -> bool {
    used.len() == pools.len() && forall|i: int| 0 <= i < used.len() ==> (#[trigger] used[i]).len()
        == pools[i].len()
}

impl Question {
    /// Grades `answers`, one per slot in order: `None` when every slot is
    /// satisfied, else the full expected answer.
    pub fn check_answers(&self, answers: Vec<String>) -> (r: Option<String>)
        requires
            self@.wf(),
        ensures
            r is None <==> all_correct(self@, answers.deep_view()),
            r matches Some(t) ==> t@ == question_text(self@),
    {
        let ghost pools = self@.pools;
        let ghost dat = self@.dat;
        let ghost ans = answers.deep_view();
        let mut used: Vec<Vec<bool>> = Vec::new();
        let mut p: usize = 0;
        while p < self.pools.len()
            invariant
                p <= self.pools.len(),
                pools == self@.pools,
                used.deep_view() == fresh_marks(pools).take(p as int),
            decreases self.pools.len() - p,
        {
            let mut row: Vec<bool> = Vec::new();
            let mut k: usize = 0;
            while k < self.pools[p].len()
                invariant
                    k <= self.pools[p as int].len(),
                    p < self.pools.len(),
                    row@ == Seq::new(k as nat, |j: int| false),
                    pools == self@.pools,
                    used.deep_view() == fresh_marks(pools).take(p as int),
                decreases self.pools[p as int].len() - k,
            {
                row.push(false);
                k = k + 1;
            }
            assert(row.deep_view() =~= fresh_marks(pools)[p as int]);
            let ghost before = used;
            used.push(row);
            proof {
                lemma_deep_push(before, used, row);
                assert(used.deep_view() =~= fresh_marks(pools).take(p + 1));
            }
            p = p + 1;
        }
        assert(used.deep_view() =~= fresh_marks(pools));
        let mut ok = true;
        let mut n: usize = 0;
        let mut d: usize = 0;
        while d < self.dat.len()
            invariant
                d <= self.dat.len(),
                pools == self@.pools,
                dat == self@.dat,
                ans == answers.deep_view(),
                self@.wf(),
                n == slots(dat.take(d as int)).len(),
                n <= d,
                marks_fit(used.deep_view(), pools),
                used.deep_view() == graded(
                    pools,
                    slots(dat.take(d as int)),
                    ans,
                    if n <= ans.len() { n as nat } else { ans.len() },
                ).1,
                ok == (n <= ans.len() && graded(pools, slots(dat.take(d as int)), ans, n as nat).0),
            decreases self.dat.len() - d,
        {
            proof {
                lemma_slots_step(dat, d as int);
            }
            match &self.dat[d].1 {
                None => {},
                Some(expected) => {
                    let ghost before = slots(dat.take(d as int));
                    let ghost after = slots(dat.take(d + 1));
                    assert(after == before.push(expected@));
                    assert(after.take(n as int) =~= before);
                    assert(before.take(n as int) =~= before);
                    if n < answers.len() {
                        proof {
                            lemma_graded_prefix(pools, before, after, ans, n as nat);
                        }
                        let slot_ok = self.grade_slot(expected, answers[n].as_str(), &mut used);
                        if !slot_ok {
                            ok = false;
                        }
                    } else {
                        proof {
                            assert(after.take(ans.len() as int) =~= before.take(ans.len() as int));
                            lemma_graded_prefix(pools, before, after, ans, ans.len());
                        }
                        ok = false;
                    }
                    n = n + 1;
                },
            }
            d = d + 1;
        }
        assert(dat.take(self.dat.len() as int) == dat);
        if ok {
            None
        } else {
            Some(self.to_text())
        }
    }

    /// Grades one slot, marking the pool item it used.
    #[verifier::loop_isolation(false)]
    fn grade_slot(&self, expected: &Answer, provided: &str, used: &mut Vec<Vec<bool>>) -> (r: bool)
        requires
            marks_fit(old(used).deep_view(), self@.pools),
            expected@ matches AnswerModel::SharedPool(i) ==> i < self@.pools.len(),
        ensures
            marks_fit(final(used).deep_view(), self@.pools),
            (r, final(used).deep_view()) == graded_slot(
                self@.pools,
                old(used).deep_view(),
                expected@,
                provided@,
            ),
    {
        let key = answer_key(provided);
        match expected {
            Answer::Raw(t) => {
                let t_key = answer_key(t.as_str());
                t_key == key
            },
            Answer::OneOf(alts) => {
                let mut k: usize = 0;
                while k < alts.len()
                    invariant
                        k <= alts.len(),
                        key@ == key_of(provided@),
                        *used == *old(used),
                        marks_fit(old(used).deep_view(), self@.pools),
                        forall|j: int| 0 <= j < k ==> key_of(#[trigger] alts.deep_view()[j]) != key@,
                    decreases alts.len() - k,
                {
                    let alt_key = answer_key(alts[k].as_str());
                    if alt_key == key {
                        assert(key_of(alts.deep_view()[k as int]) == key_of(provided@));
                        assert(any_matches(alts.deep_view(), provided@));
                        return true;
                    }
                    k = k + 1;
                }
                false
            },
            Answer::SharedPool(i) => {
                let i = *i;
                let pool = &self.pools[i];
                let ghost pv = self@.pools[i as int];
                let ghost marks = used.deep_view()[i as int];
                let mut j: usize = 0;
                while j < pool.len()
                    invariant
                        j <= pool.len(),
                        pool.deep_view() == pv,
                        marks.len() == pv.len(),
                        i < used.len(),
                        *used == *old(used),
                        marks_fit(used.deep_view(), self@.pools),
                        i < self@.pools.len(),
                        marks == old(used).deep_view()[i as int],
                        used[i as int]@ == marks,
                        key@ == key_of(provided@),
                        first_unused(pv, marks, key@, 0) == first_unused(pv, marks, key@, j as nat),
                    decreases pool.len() - j,
                {
                    if !used[i][j] {
                        let item_key = answer_key(pool[j].as_str());
                        if item_key == key {
                            let mut row = used[i].clone();
                            assert(row@ =~= used[i as int]@);
                            row.set(j, true);
                            assert(row.deep_view() =~= marks.update(j as int, true));
                            used.set(i, row);
                            assert(used.deep_view() =~= old(used).deep_view().update(
                                i as int,
                                marks.update(j as int, true),
                            ));
                            return true;
                        }
                    }
                    j = j + 1;
                }
                false
            },
        }
    }
}

} // verus!
