//! Laws that relate parsing and grading, proved over the models.
use vstd::multiset::Multiset;
use vstd::prelude::*;

use crate::grade::{all_correct, any_matches, first_unused, fresh_marks, graded, marks_fit, slots};
use crate::parser::{answer_at, bracket_at, parse_line, scan_line, step_at, text_run, LineModel, StepModel};
use crate::question::{AnswerModel, QuestionModel, SegmentModel};
use crate::text::{key_of, split_on};

verus! {

/// The keys of a list of texts, counted with multiplicity.
pub open spec fn keys(s: Seq<Seq<char>>) -> Multiset<Seq<char>>
    decreases s.len(),
{
    if s.len() == 0 {
        Multiset::empty()
    } else {
        keys(s.drop_last()).insert(key_of(s.last()))
    }
}

/// The keys of the items of `pool` that `used` does not mark.
pub open spec fn unused_keys(pool: Seq<Seq<char>>, used: Seq<bool>) -> Multiset<Seq<char>>
    decreases pool.len(),
{
    if pool.len() == 0 {
        Multiset::empty()
    } else {
        let rest = unused_keys(pool.drop_last(), used.take(pool.len() - 1));
        if used[pool.len() - 1] {
            rest
        } else {
            rest.insert(key_of(pool.last()))
        }
    }
}

proof fn lemma_unused_fresh(pool: Seq<Seq<char>>)
    ensures
        unused_keys(pool, Seq::new(pool.len(), |j: int| false)) == keys(pool),
    decreases pool.len(),
{
    if pool.len() > 0 {
        let m = pool.len() - 1;
        assert(Seq::new(pool.len(), |j: int| false).take(m) =~= Seq::new(
            pool.drop_last().len(),
            |j: int| false,
        ));
        lemma_unused_fresh(pool.drop_last());
    }
}

proof fn lemma_unused_mark(pool: Seq<Seq<char>>, used: Seq<bool>, j: int)
    requires
        0 <= j < pool.len(),
        used.len() == pool.len(),
        !used[j],
    ensures
        unused_keys(pool, used).count(key_of(pool[j])) > 0,
        unused_keys(pool, used.update(j, true)) == unused_keys(pool, used).remove(key_of(pool[j])),
    decreases pool.len(),
{
    let m = pool.len() - 1;
    let k = key_of(pool[j]);
    let marked = used.update(j, true);
    let rest = unused_keys(pool.drop_last(), used.take(m));
    if j == m {
        assert(marked.take(m) =~= used.take(m));
        assert(rest.insert(k).remove(k) =~= rest);
    } else {
        assert(marked.take(m) =~= used.take(m).update(j, true));
        assert(pool.drop_last()[j] == pool[j]);
        lemma_unused_mark(pool.drop_last(), used.take(m), j);
        if !used[m] {
            let x = key_of(pool.last());
            assert(rest.remove(k).insert(x) =~= rest.insert(x).remove(k));
        }
    }
}

proof fn lemma_unused_has_item(pool: Seq<Seq<char>>, used: Seq<bool>, k: Seq<char>)
    requires
        used.len() == pool.len(),
        unused_keys(pool, used).count(k) > 0,
    ensures
        exists|j: int| 0 <= j < pool.len() && !used[j] && key_of(#[trigger] pool[j]) == k,
    decreases pool.len(),
{
    let m = pool.len() - 1;
    let rest = unused_keys(pool.drop_last(), used.take(m));
    if !used[m] && key_of(pool[m]) == k {
    } else {
        assert(rest.count(k) > 0);
        lemma_unused_has_item(pool.drop_last(), used.take(m), k);
        let j = choose|j: int|
            0 <= j < pool.drop_last().len() && !used.take(m)[j] && key_of(
                #[trigger] pool.drop_last()[j],
            ) == k;
        assert(pool.drop_last()[j] == pool[j]);
    }
}

proof fn lemma_first_unused_found(pool: Seq<Seq<char>>, used: Seq<bool>, k: Seq<char>, from: nat, j: int)
    requires
        from <= j < pool.len(),
        !used[j],
        key_of(pool[j]) == k,
    ensures
        first_unused(pool, used, k, from) is Some,
    decreases j - from,
{
    if from < j {
        if !(!used[from as int] && key_of(pool[from as int]) == k) {
            lemma_first_unused_found(pool, used, k, from + 1, j);
        }
    }
}

proof fn lemma_first_unused_props(pool: Seq<Seq<char>>, used: Seq<bool>, k: Seq<char>, from: nat)
    ensures
        first_unused(pool, used, k, from) matches Some(j) ==> from <= j < pool.len() && !used[j as int]
            && key_of(pool[j as int]) == k,
    decreases pool.len() - from,
{
    if from < pool.len() {
        lemma_first_unused_props(pool, used, k, from + 1);
    }
}

/// Every slot of `s` draws from pool `p`.
pub open spec fn all_from_pool(s: Seq<AnswerModel>, p: nat) -> bool {
    forall|i: int| 0 <= i < s.len() ==> #[trigger] s[i] == AnswerModel::SharedPool(p)
}

/// While every slot so far was satisfied, the unused items of pool `p`
/// together with the answers given so far have the keys of the whole pool.
proof fn lemma_pool_accounting(
    pools: Seq<Seq<Seq<char>>>,
    s: Seq<AnswerModel>,
    answers: Seq<Seq<char>>,
    p: nat,
    n: nat,
)
    requires
        p < pools.len(),
        n <= s.len(),
        n <= answers.len(),
        all_from_pool(s, p),
    ensures
        marks_fit(graded(pools, s, answers, n).1, pools),
        graded(pools, s, answers, n).0 ==> unused_keys(pools[p as int], graded(pools, s, answers, n).1[p as int]).add(
            keys(answers.take(n as int)),
        ) == keys(pools[p as int]),
    decreases n,
{
    let pool = pools[p as int];
    if n == 0 {
        let fresh = fresh_marks(pools);
        assert(fresh[p as int] =~= Seq::new(pool.len(), |j: int| false));
        lemma_unused_fresh(pool);
        assert(answers.take(0) =~= Seq::<Seq<char>>::empty());
        assert(unused_keys(pool, fresh[p as int]).add(Multiset::empty()) =~= unused_keys(pool, fresh[p as int]));
    } else {
        let m = (n - 1) as nat;
        lemma_pool_accounting(pools, s, answers, p, m);
        let (ok, used) = graded(pools, s, answers, m);
        let k = key_of(answers[m as int]);
        assert(s[m as int] == AnswerModel::SharedPool(p));
        lemma_first_unused_props(pool, used[p as int], k, 0);
        assert(answers.take(n as int).drop_last() =~= answers.take(m as int));
        match first_unused(pool, used[p as int], k, 0) {
            Some(j) => {
                let after = used.update(p as int, used[p as int].update(j as int, true));
                assert(marks_fit(after, pools)) by {
                    assert forall|i: int| 0 <= i < after.len() implies (#[trigger] after[i]).len() == pools[i].len() by {
                        if i != p {
                            assert(after[i] == used[i]);
                        }
                    }
                }
                if ok {
                    lemma_unused_mark(pool, used[p as int], j as int);
                    let before = unused_keys(pool, used[p as int]);
                    let given = keys(answers.take(m as int));
                    assert(before.remove(k).add(given.insert(k)) =~= before.add(given));
                }
            },
            None => {},
        }
    }
}

proof fn lemma_keys_grow(s: Seq<Seq<char>>, a: int, b: int, x: Seq<char>)
    requires
        0 <= a <= b <= s.len(),
    ensures
        keys(s.take(a)).count(x) <= keys(s.take(b)).count(x),
    decreases b - a,
{
    if a < b {
        assert(s.take(b).drop_last() =~= s.take(b - 1));
        lemma_keys_grow(s, a, b - 1, x);
    }
}

proof fn lemma_pool_any_order(
    pools: Seq<Seq<Seq<char>>>,
    s: Seq<AnswerModel>,
    answers: Seq<Seq<char>>,
    p: nat,
    n: nat,
)
    requires
        p < pools.len(),
        n <= s.len(),
        s.len() == answers.len(),
        all_from_pool(s, p),
        keys(answers) == keys(pools[p as int]),
    ensures
        graded(pools, s, answers, n).0,
    decreases n,
{
    if n > 0 {
        let m = (n - 1) as nat;
        let pool = pools[p as int];
        lemma_pool_any_order(pools, s, answers, p, m);
        lemma_pool_accounting(pools, s, answers, p, m);
        let (ok, used) = graded(pools, s, answers, m);
        let k = key_of(answers[m as int]);
        assert(s[m as int] == AnswerModel::SharedPool(p));
        assert(answers.take(n as int).drop_last() =~= answers.take(m as int));
        lemma_keys_grow(answers, n as int, answers.len() as int, k);
        assert(answers.take(answers.len() as int) =~= answers);
        let unused = unused_keys(pool, used[p as int]);
        assert(unused.count(k) > 0);
        lemma_unused_has_item(pool, used[p as int], k);
        let j = choose|j: int| 0 <= j < pool.len() && !used[p as int][j] && key_of(#[trigger] pool[j]) == k;
        lemma_first_unused_found(pool, used[p as int], k, 0, j);
    }
}

/// Slots that share a pool take its items in any order: when every slot of
/// `q` draws from pool `p` and the answers, one per slot, have the keys of
/// the pool's items in some order (each key as often as in the pool), the
/// answers are all correct.
pub proof fn law_pool_any_order(q: QuestionModel, p: nat, answers: Seq<Seq<char>>)
    requires
        p < q.pools.len(),
        all_from_pool(slots(q.dat), p),
        answers.len() == slots(q.dat).len(),
        keys(answers) == keys(q.pools[p as int]),
    ensures
        all_correct(q, answers),
{
    lemma_pool_any_order(q.pools, slots(q.dat), answers, p, slots(q.dat).len());
}

/// A pool item satisfies at most one slot: when every slot of `q` draws from
/// pool `p` and some key comes more often among the answers to the slots
/// than among the pool's items, the answers are not all correct.
pub proof fn law_pool_item_used_once(q: QuestionModel, p: nat, answers: Seq<Seq<char>>, k: Seq<char>)
    requires
        p < q.pools.len(),
        all_from_pool(slots(q.dat), p),
        keys(answers.take(slots(q.dat).len() as int)).count(k) > keys(q.pools[p as int]).count(k),
    ensures
        !all_correct(q, answers),
{
    let s = slots(q.dat);
    if s.len() <= answers.len() {
        lemma_pool_accounting(q.pools, s, answers, p, s.len());
    }
}

/// Every answer among `dat` is a single text.
pub open spec fn only_raw(dat: Seq<SegmentModel>) -> bool {
    forall|k: int| 0 <= k < dat.len() ==> !(#[trigger] dat[k].1 matches Some(a) && !(a is Raw))
}

/// `s` holds none of the characters that make choices, pool references or
/// pool sections.
pub open spec fn plain(s: Seq<char>) -> bool {
    forall|k: int| 0 <= k < s.len() ==> #[trigger] s[k] != '|' && s[k] != '{' && s[k] != ';'
}

proof fn lemma_split_plain(s: Seq<char>)
    requires
        forall|k: int| 0 <= k < s.len() ==> #[trigger] s[k] != '|',
    ensures
        split_on(s, '|').len() == 1,
    decreases s.len(),
{
    if s.len() > 0 {
        lemma_split_plain(s.drop_last());
    }
}

proof fn lemma_plain_answer(line: Seq<char>, j: nat)
    requires
        j < line.len(),
        plain(line),
    ensures
        answer_at(line, j) matches Ok((a, _)) ==> a is Raw,
{
    crate::parser::lemma_bracket_end(line, j + 1);
    if let Ok((a, k)) = bracket_at(line, j) {
        let body = line.subrange((j + 1) as int, (k - 1) as int);
        assert forall|x: int| 0 <= x < body.len() implies #[trigger] body[x] != '|' by {
            assert(body[x] == line[j + 1 + x]);
        }
        lemma_split_plain(body);
    }
}

proof fn lemma_scan_plain(line: Seq<char>, i: nat, st: LineModel)
    requires
        plain(line),
        only_raw(st.dat),
    ensures
        scan_line(line, i, st) matches Ok((end, _)) ==> only_raw(end.dat),
    decreases line.len() - i,
{
    if i < line.len() {
        crate::parser::lemma_step_advances(line, i);
        lemma_plain_answer(line, i);
        if let Ok((_, j)) = text_run(line, i) {
            if j < line.len() {
                lemma_plain_answer(line, j);
            }
        }
        match step_at(line, i) {
            StepModel::Segment(seg, j) => {
                let next = LineModel {
                    dat: st.dat.push(seg),
                    promised: crate::parser::promise(st.promised, seg),
                    last: i,
                };
                assert forall|k: int| 0 <= k < next.dat.len() implies !(#[trigger] next.dat[k].1 matches Some(a) && !(a is Raw)) by {
                    if k < st.dat.len() {
                        assert(next.dat[k] == st.dat[k]);
                    }
                }
                lemma_scan_plain(line, j, next);
            },
            StepModel::Pools(t, _, _) => {
                if let Some(t) = t {
                    let dat = st.dat.push((Some(t), None));
                    assert forall|k: int| 0 <= k < dat.len() implies !(#[trigger] dat[k].1 matches Some(a) && !(a is Raw)) by {
                        if k < st.dat.len() {
                            assert(dat[k] == st.dat[k]);
                        }
                    }
                }
            },
            StepModel::Fail(_) => {},
        }
    }
}

proof fn lemma_slots_raw(dat: Seq<SegmentModel>)
    requires
        only_raw(dat),
    ensures
        forall|i: int| 0 <= i < slots(dat).len() ==> (#[trigger] slots(dat)[i]) is Raw,
    decreases dat.len(),
{
    if dat.len() > 0 {
        let d = dat.drop_last();
        assert forall|k: int| 0 <= k < d.len() implies !(#[trigger] d[k].1 matches Some(a) && !(a is Raw)) by {
            assert(d[k] == dat[k]);
        }
        lemma_slots_raw(d);
        assert(!(dat[dat.len() - 1].1 matches Some(a) && !(a is Raw)));
    }
}

proof fn lemma_graded_raw(
    pools: Seq<Seq<Seq<char>>>,
    s: Seq<AnswerModel>,
    answers: Seq<Seq<char>>,
    n: nat,
)
    requires
        n <= s.len(),
        forall|i: int| 0 <= i < s.len() ==> (#[trigger] s[i]) is Raw,
    ensures
        graded(pools, s, answers, n).0 <==> forall|i: int|
            0 <= i < n ==> key_of(#[trigger] answers[i]) == key_of(s[i]->Raw_0),
    decreases n,
{
    if n > 0 {
        lemma_graded_raw(pools, s, answers, (n - 1) as nat);
        assert(s[n - 1] is Raw);
    }
}

/// On a line made of literal text and bracketed answers, without `|`, `{`
/// or `;`, every slot is a single text, and the grader accepts exactly the
/// answers that give one answer per slot equal to the slot's text up to case
/// and surrounding whitespace.
pub proof fn law_plain_line_answers(line: Seq<char>, answers: Seq<Seq<char>>)
    requires
        parse_line(line) is Ok,
        plain(line),
    ensures
        forall|i: int|
            0 <= i < slots(parse_line(line)->Ok_0.dat).len() ==> (#[trigger] slots(
                parse_line(line)->Ok_0.dat,
            )[i]) is Raw,
        all_correct(parse_line(line)->Ok_0, answers) <==> {
            let s = slots(parse_line(line)->Ok_0.dat);
            &&& s.len() <= answers.len()
            &&& forall|i: int|
                0 <= i < s.len() ==> key_of(#[trigger] answers[i]) == key_of(s[i]->Raw_0)
        },
{
    let init = LineModel { dat: seq![], promised: seq![], last: 0 };
    lemma_scan_plain(line, 0, init);
    let q = parse_line(line)->Ok_0;
    assert(q.dat == scan_line(line, 0, init)->Ok_0.0.dat);
    lemma_slots_raw(q.dat);
    lemma_graded_raw(q.pools, slots(q.dat), answers, slots(q.dat).len());
}

/// How many slots of `s` draw from pool `p`.
pub open spec fn pool_uses(s: Seq<AnswerModel>, p: nat) -> nat
    decreases s.len(),
{
    if s.len() == 0 {
        0
    } else {
        pool_uses(s.drop_last(), p) + if s.last() == AnswerModel::SharedPool(p) {
            1nat
        } else {
            0nat
        }
    }
}

/// The answers that `q` declares, one per slot: the text of a single-text
/// slot, the first alternative of a choice, and for the slots of a pool the
/// pool's items in order.
pub open spec fn declared_answers(q: QuestionModel) -> Seq<Seq<char>> {
    let s = slots(q.dat);
    Seq::new(
        s.len(),
        |i: int|
            match s[i] {
                AnswerModel::Raw(t) => t,
                AnswerModel::OneOf(alts) => alts[0],
                AnswerModel::SharedPool(p) => q.pools[p as int][pool_uses(s.take(i), p) as int],
            },
    )
}

/// Every choice has an alternative, and every pool slot names a pool that
/// has an item for each slot that draws from it.
pub open spec fn answerable(q: QuestionModel) -> bool {
    let s = slots(q.dat);
    forall|i: int|
        0 <= i < s.len() ==> match #[trigger] s[i] {
            AnswerModel::OneOf(alts) => alts.len() > 0,
            AnswerModel::SharedPool(p) => p < q.pools.len() && pool_uses(s, p) <= q.pools[p as int].len(),
            AnswerModel::Raw(_) => true,
        }
}

proof fn lemma_pool_uses_grow(s: Seq<AnswerModel>, p: nat, a: int, b: int)
    requires
        0 <= a <= b <= s.len(),
    ensures
        pool_uses(s.take(a), p) <= pool_uses(s.take(b), p),
    decreases b - a,
{
    if a < b {
        assert(s.take(b).drop_last() =~= s.take(b - 1));
        lemma_pool_uses_grow(s, p, a, b - 1);
    }
}

proof fn lemma_first_unused_at(pool: Seq<Seq<char>>, used: Seq<bool>, from: nat, c: int)
    requires
        from <= c < pool.len(),
        c < used.len(),
        forall|j: int| from <= j < c ==> used[j],
        !used[c],
    ensures
        first_unused(pool, used, key_of(pool[c]), from) == Some(c as nat),
    decreases c - from,
{
    if from < c {
        lemma_first_unused_at(pool, used, from + 1, c);
    }
}

/// The marks after the first `n` slots: the first `pool_uses` items of each
/// pool.
spec fn prefix_marked(
    pools: Seq<Seq<Seq<char>>>,
    used: Seq<Seq<bool>>,
    s: Seq<AnswerModel>,
    n: nat,
) -> bool {
    forall|p: int, j: int|
        0 <= p < pools.len() && 0 <= j < pools[p].len() ==> #[trigger] used[p][j] == (j < pool_uses(
            s.take(n as int),
            p as nat,
        ))
}

proof fn lemma_declared(q: QuestionModel, n: nat)
    requires
        answerable(q),
        n <= slots(q.dat).len(),
    ensures
        graded(q.pools, slots(q.dat), declared_answers(q), n).0,
        marks_fit(graded(q.pools, slots(q.dat), declared_answers(q), n).1, q.pools),
        prefix_marked(q.pools, graded(q.pools, slots(q.dat), declared_answers(q), n).1, slots(q.dat), n),
    decreases n,
{
    let s = slots(q.dat);
    let pools = q.pools;
    let answers = declared_answers(q);
    if n == 0 {
        assert(s.take(0) =~= Seq::<AnswerModel>::empty());
    } else {
        let m = (n - 1) as nat;
        lemma_declared(q, m);
        let (ok, used) = graded(pools, s, answers, m);
        assert(s.take(n as int).drop_last() =~= s.take(m as int));
        assert(s.take(n as int).last() == s[m as int]);
        match s[m as int] {
            AnswerModel::Raw(t) => {},
            AnswerModel::OneOf(alts) => {
                assert(answers[m as int] == alts[0]);
                assert(any_matches(alts, answers[m as int]));
            },
            AnswerModel::SharedPool(p) => {
                let pool = pools[p as int];
                let c = pool_uses(s.take(m as int), p) as int;
                lemma_pool_uses_grow(s, p, n as int, s.len() as int);
                assert(s.take(s.len() as int) =~= s);
                assert(c < pool.len());
                assert(answers[m as int] == pool[c]);
                assert forall|j: int| 0 <= j < c implies used[p as int][j] by {
                    assert(used[p as int][j] == (j < pool_uses(s.take(m as int), p)));
                }
                assert(!used[p as int][c]);
                lemma_first_unused_at(pool, used[p as int], 0, c);
                let after = used.update(p as int, used[p as int].update(c, true));
                assert(marks_fit(after, pools)) by {
                    assert forall|i: int| 0 <= i < after.len() implies (#[trigger] after[i]).len() == pools[i].len() by {
                        if i != p {
                            assert(after[i] == used[i]);
                        }
                    }
                }
                assert forall|x: int, j: int| 0 <= x < pools.len() && 0 <= j < pools[x].len() implies #[trigger] after[x][j]
                    == (j < pool_uses(s.take(n as int), x as nat)) by {
                    assert(used[x][j] == (j < pool_uses(s.take(m as int), x as nat)));
                }
            },
        }
    }
}

/// Round trip: answering each slot with what the question declares for it
/// (see `declared_answers`) grades as correct, whenever every choice has an
/// alternative and every pool has an item for each slot that draws from it.
pub proof fn law_declared_answers_correct(q: QuestionModel)
    requires
        answerable(q),
    ensures
        all_correct(q, declared_answers(q)),
{
    lemma_declared(q, slots(q.dat).len());
}

} // verus!
