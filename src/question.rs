//! Parsed questions: their data, the canonical rendering of the expected
//! answer, and grading of a learner's answers.
use vstd::prelude::*;
use vstd::string::StringExecFns;

use crate::text::{decimal, push_decimal};

verus! {

/// What fills one answer slot.
#[derive(Debug, PartialEq, Eq)]
pub enum Answer {
    /// A single expected text.
    Raw(String),
    /// An unused item of the pool with this (zero-based) index.
    SharedPool(usize),
    /// Any one of several texts.
    OneOf(Vec<String>),
}

/// The mathematical value of an `Answer`.
pub enum AnswerModel {
    Raw(Seq<char>),
    SharedPool(nat),
    OneOf(Seq<Seq<char>>),
}

impl DeepView for Answer {
    type V = AnswerModel;

    open spec fn deep_view(&self) -> AnswerModel {
        match self {
            Answer::Raw(s) => AnswerModel::Raw(s@),
            Answer::SharedPool(i) => AnswerModel::SharedPool(*i as nat),
            Answer::OneOf(v) => AnswerModel::OneOf(v.deep_view()),
        }
    }
}

impl View for Answer {
    type V = AnswerModel;

    open spec fn view(&self) -> AnswerModel {
        self.deep_view()
    }
}

/// One segment of a question: literal text, then an answer slot; either may
/// be absent.
pub type SegmentModel = (Option<Seq<char>>, Option<AnswerModel>);

/// One question: its segments in order, and the pools that `SharedPool`
/// slots draw from.
#[derive(Debug, PartialEq, Eq)]
pub struct Question {
    pub dat: Vec<(Option<String>, Option<Answer>)>,
    pub pools: Vec<Vec<String>>,
}

/// The mathematical value of a `Question`.
pub struct QuestionModel {
    pub dat: Seq<SegmentModel>,
    pub pools: Seq<Seq<Seq<char>>>,
}

impl View for Question {
    type V = QuestionModel;

    open spec fn view(&self) -> QuestionModel {
        QuestionModel { dat: self.dat.deep_view(), pools: self.pools.deep_view() }
    }
}

impl QuestionModel {
    /// Every pool slot names a pool that exists.
    pub open spec fn wf(self) -> bool {
        forall|k: int|
            0 <= k < self.dat.len() ==> match #[trigger] self.dat[k].1 {
                Some(AnswerModel::SharedPool(i)) => i < self.pools.len(),
                _ => true,
            }
    }
}

/// The alternatives joined by `" OR "`.
pub open spec fn joined(alts: Seq<Seq<char>>) -> Seq<char>
    decreases alts.len(),
{
    if alts.len() == 0 {
        seq![]
    } else if alts.len() == 1 {
        alts[0]
    } else {
        joined(alts.drop_last()) + " OR "@ + alts.last()
    }
}

/// How an answer is shown in the expected-answer text.
pub open spec fn answer_text(a: AnswerModel) -> Seq<char> {
    match a {
        AnswerModel::Raw(t) => t,
        AnswerModel::SharedPool(i) => "{one of the #"@ + decimal(i + 1) + " set}"@,
        AnswerModel::OneOf(alts) => joined(alts),
    }
}

/// How a segment is shown: its text, then its answer.
pub open spec fn segment_text(seg: SegmentModel) -> Seq<char> {
    (match seg.0 {
        Some(t) => t,
        None => seq![],
    }) + (match seg.1 {
        Some(a) => answer_text(a),
        None => seq![],
    })
}

/// The segments shown one after another.
pub open spec fn segments_text(dat: Seq<SegmentModel>) -> Seq<char>
    decreases dat.len(),
{
    if dat.len() == 0 {
        seq![]
    } else {
        segments_text(dat.drop_last()) + segment_text(dat.last())
    }
}

/// A pool's items, each after a space, separated by commas.
pub open spec fn items_text(items: Seq<Seq<char>>) -> Seq<char>
    decreases items.len(),
{
    if items.len() == 0 {
        seq![]
    } else {
        items_text(items.drop_last()) + (if items.len() > 1 {
            ","@
        } else {
            seq![]
        }) + " "@ + items.last()
    }
}

/// Each pool as `". Set #<n>: "` and its items, numbered from one.
pub open spec fn pools_text(pools: Seq<Seq<Seq<char>>>) -> Seq<char>
    decreases pools.len(),
{
    if pools.len() == 0 {
        seq![]
    } else {
        pools_text(pools.drop_last()) + ". Set #"@ + decimal(pools.len()) + ": "@ + items_text(
            pools.last(),
        )
    }
}

/// The full expected answer of a question.
pub open spec fn question_text(q: QuestionModel) -> Seq<char> {
    segments_text(q.dat) + pools_text(q.pools)
}

impl Answer {
    /// How this answer is shown in the expected-answer text.
    pub fn to_text(&self) -> (r: String)
        ensures
            r@ == answer_text(self@),
    {
        let mut out = String::new();
        self.write_to(&mut out);
        out
    }

    /// Appends how this answer is shown to `out`.
    pub fn write_to(&self, out: &mut String)
        ensures
            final(out)@ == old(out)@ + answer_text(self@),
    {
        match self {
            Answer::Raw(s) => {
                out.append(s.as_str());
            },
            Answer::SharedPool(idx) => {
                out.append("{one of the #");
                push_decimal(out, *idx as u128 + 1);
                out.append(" set}");
            },
            Answer::OneOf(v) => {
                let ghost start = out@;
                let mut i: usize = 0;
                while i < v.len()
                    invariant
                        i <= v.len(),
                        out@ == start + joined(v.deep_view().take(i as int)),
                    decreases v.len() - i,
                {
                    if i > 0 {
                        out.append(" OR ");
                    }
                    out.append(v[i].as_str());
                    assert(v.deep_view().take(i + 1).drop_last() == v.deep_view().take(i as int));
                    i = i + 1;
                }
                assert(v.deep_view().take(v.len() as int) == v.deep_view());
            },
        }
    }
}

impl Question {
    /// The full expected answer: every segment with its answer shown, then
    /// the contents of each pool.
    pub fn to_text(&self) -> (r: String)
        ensures
            r@ == question_text(self@),
    {
        let mut out = String::new();
        let mut i: usize = 0;
        while i < self.dat.len()
            invariant
                i <= self.dat.len(),
                out@ == segments_text(self@.dat.take(i as int)),
            decreases self.dat.len() - i,
        {
            let seg = &self.dat[i];
            match &seg.0 {
                Some(t) => {
                    out.append(t.as_str());
                },
                None => {},
            }
            match &seg.1 {
                Some(a) => {
                    a.write_to(&mut out);
                },
                None => {},
            }
            assert(self@.dat.take(i + 1).drop_last() == self@.dat.take(i as int));
            i = i + 1;
        }
        assert(self@.dat.take(self.dat.len() as int) == self@.dat);
        let ghost mid = out@;
        let mut p: usize = 0;
        while p < self.pools.len()
            invariant
                p <= self.pools.len(),
                out@ == mid + pools_text(self@.pools.take(p as int)),
            decreases self.pools.len() - p,
        {
            let pool = &self.pools[p];
            out.append(". Set #");
            push_decimal(&mut out, p as u128 + 1);
            out.append(": ");
            let ghost before = out@;
            let mut k: usize = 0;
            while k < pool.len()
                invariant
                    k <= pool.len(),
                    pool == &self.pools[p as int],
                    out@ == before + items_text(pool.deep_view().take(k as int)),
                decreases pool.len() - k,
            {
                if k > 0 {
                    out.append(",");
                }
                out.append(" ");
                out.append(pool[k].as_str());
                assert(pool.deep_view().take(k + 1).drop_last() == pool.deep_view().take(k as int));
                k = k + 1;
            }
            assert(pool.deep_view().take(pool.len() as int) == pool.deep_view());
            assert(self@.pools.take(p + 1).drop_last() == self@.pools.take(p as int));
            p = p + 1;
        }
        assert(self@.pools.take(self.pools.len() as int) == self@.pools);
        out
    }

    /// Whether every pool slot names a pool of this question, as a parsed
    /// question always does.
    pub fn is_well_formed(&self) -> (r: bool)
        ensures
            r == self@.wf(),
    {
        let mut k: usize = 0;
        while k < self.dat.len()
            invariant
                k <= self.dat.len(),
                forall|x: int|
                    0 <= x < k ==> match #[trigger] self@.dat[x].1 {
                        Some(AnswerModel::SharedPool(i)) => i < self@.pools.len(),
                        _ => true,
                    },
            decreases self.dat.len() - k,
        {
            match &self.dat[k].1 {
                Some(Answer::SharedPool(i)) => {
                    if *i >= self.pools.len() {
                        assert(self@.dat[k as int].1 == Some(AnswerModel::SharedPool(*i as nat)));
                        return false;
                    }
                },
                _ => {},
            }
            k = k + 1;
        }
        true
    }

    /// For each segment, its literal text and whether an answer slot follows.
    pub fn renderable(&self) -> (r: Vec<(Option<String>, bool)>)
        ensures
            r.len() == self.dat.len(),
            forall|k: int|
                0 <= k < r.len() ==> (#[trigger] r@[k]).0.deep_view() == self@.dat[k].0 && r@[k].1
                    == self@.dat[k].1 is Some,
    {
        let mut r: Vec<(Option<String>, bool)> = Vec::new();
        let mut i: usize = 0;
        while i < self.dat.len()
            invariant
                i <= self.dat.len(),
                r.len() == i,
                forall|k: int|
                    0 <= k < r.len() ==> (#[trigger] r@[k]).0.deep_view() == self@.dat[k].0
                        && r@[k].1 == self@.dat[k].1 is Some,
            decreases self.dat.len() - i,
        {
            let seg = &self.dat[i];
            let text = match &seg.0 {
                Some(t) => Some(t.clone()),
                None => None,
            };
            r.push((text, seg.1.is_some()));
            i = i + 1;
        }
        r
    }
}

} // verus!
