//! What the front ends compute around a question: the prompt line, the
//! answers read from one line of input, the check of a retyped correction,
//! and a partially answered question.
use vstd::prelude::*;
use vstd::string::StringExecFns;

use crate::text::{
    answer_key, chars_of, key_of, lemma_deep_push, lemma_split_on_len, split_on, string_of, trim_str,
    trimmed,
};

verus! {

/// A segment as the front ends see it: its text, and whether a slot follows.
pub type ItemModel = (Option<Seq<char>>, bool);

/// The text of an item, or nothing.
pub open spec fn item_text(t: Option<Seq<char>>) -> Seq<char> {
    match t {
        Some(t) => t,
        None => seq![],
    }
}

/// The question with each slot shown as `___`.
pub open spec fn prompt_of(items: Seq<ItemModel>) -> Seq<char>
    decreases items.len(),
{
    if items.len() == 0 {
        seq![]
    } else {
        prompt_of(items.drop_last()) + item_text(items.last().0) + if items.last().1 {
            "___"@
        } else {
            seq![]
        }
    }
}

/// The question with each slot shown as `___`.
pub fn prompt_text(items: &Vec<(Option<String>, bool)>) -> (r: String)
    ensures
        r@ == prompt_of(items.deep_view()),
{
    let mut out = String::new();
    let mut i: usize = 0;
    while i < items.len()
        invariant
            i <= items.len(),
            out@ == prompt_of(items.deep_view().take(i as int)),
        decreases items.len() - i,
    {
        match &items[i].0 {
            Some(t) => {
                out.append(t.as_str());
            },
            None => {},
        }
        if items[i].1 {
            out.append("___");
        }
        assert(items.deep_view().take(i + 1).drop_last() == items.deep_view().take(i as int));
        i = i + 1;
    }
    assert(items.deep_view().take(i as int) == items.deep_view());
    out
}

/// The answers typed on one line: the line trimmed, then split at each comma.
pub fn split_answers(line: &str) -> (r: Vec<String>)
    ensures
        r.deep_view() == split_on(trimmed(line@), ','),
{
    let t = trim_str(line);
    let chars = chars_of(t.as_str());
    let ghost s = chars@;
    let mut out: Vec<String> = Vec::new();
    let mut piece: usize = 0;
    let mut k: usize = 0;
    proof {
        assert(s.take(0) =~= Seq::<char>::empty());
        assert(s.subrange(0, 0) =~= Seq::<char>::empty());
        assert(out.deep_view() =~= Seq::<Seq<char>>::empty());
    }
    while k < chars.len()
        invariant
            piece <= k <= chars.len(),
            s == chars@,
            split_on(s.take(k as int), ',').drop_last() == out.deep_view(),
            split_on(s.take(k as int), ',').last() == s.subrange(piece as int, k as int),
        decreases chars.len() - k,
    {
        let ghost before = s.take(k as int);
        let ghost after = s.take(k + 1);
        proof {
            assert(after.drop_last() == before);
            lemma_split_on_len(before, ',');
        }
        if chars[k] == ',' {
            let text = string_of(&chars, piece, k);
            let ghost prev = out;
            out.push(text);
            proof {
                lemma_deep_push(prev, out, text);
                assert(split_on(after, ',').drop_last() =~= out.deep_view());
            }
            piece = k + 1;
            proof {
                assert(s.subrange(piece as int, k + 1) =~= Seq::<char>::empty());
            }
        } else {
            proof {
                let sb = split_on(before, ',');
                assert(split_on(after, ',') == sb.update(sb.len() - 1, sb.last().push(s[k as int])));
                assert(split_on(after, ',').drop_last() =~= sb.drop_last());
                assert(s.subrange(piece as int, k + 1) =~= s.subrange(piece as int, k as int).push(s[k as int]));
            }
        }
        k = k + 1;
    }
    proof {
        assert(s.take(k as int) == s);
        lemma_split_on_len(s, ',');
    }
    let text = string_of(&chars, piece, k);
    let ghost before = out;
    out.push(text);
    proof {
        lemma_deep_push(before, out, text);
        let prev = before.deep_view();
        let sp = split_on(s, ',');
        assert(sp.drop_last() == prev);
        assert(sp.last() == text@);
        assert forall|x: int| 0 <= x < sp.len() implies out.deep_view()[x] == sp[x] by {
            if x < sp.len() - 1 {
                assert(sp.drop_last()[x] == sp[x]);
            }
        }
        assert(out.deep_view() =~= sp);
    }
    out
}

/// Whether a retyped correction matches it, up to case and surrounding
/// whitespace.
pub fn retyped_matches(correction: &str, typed: &str) -> (r: bool)
    ensures
        r == (key_of(correction@) == key_of(typed@)),
{
    let a = answer_key(correction);
    let b = answer_key(typed);
    a == b
}

/// What has been drawn of a partially answered question after some items:
/// the text up to the slot being typed (if reached), the text since, and the
/// number of slots seen.
pub open spec fn partial_scan(items: Seq<ItemModel>, answers: Seq<Seq<char>>, current: Seq<char>) -> (
    Seq<char>,
    Seq<char>,
    nat,
)
    decreases items.len(),
{
    if items.len() == 0 {
        (seq![], seq![], 0)
    } else {
        let (done, pending, pos) = partial_scan(items.drop_last(), answers, current);
        let pending = pending + item_text(items.last().0);
        if !items.last().1 {
            (done, pending, pos)
        } else if pos < answers.len() {
            (done, pending + answers[pos as int], pos + 1)
        } else if pos == answers.len() {
            (done + pending + current, seq![], pos + 1)
        } else {
            (done, pending + "___"@, pos + 1)
        }
    }
}

/// A question while it is being answered: the slots already answered show
/// their answers, the slot being typed shows `current`, later slots show
/// `___`. The first part ends with the slot being typed (it is empty when
/// every slot is answered); the second part is the rest.
pub fn partially_answered(
    items: &Vec<(Option<String>, bool)>,
    answers: &Vec<String>,
    current: &str,
) -> (r: (String, String))
    ensures
        r.0@ == partial_scan(items.deep_view(), answers.deep_view(), current@).0,
        r.1@ == partial_scan(items.deep_view(), answers.deep_view(), current@).1,
{
    let ghost ans = answers.deep_view();
    let mut done = String::new();
    let mut pending = String::new();
    let mut pos: usize = 0;
    let mut i: usize = 0;
    while i < items.len()
        invariant
            i <= items.len(),
            pos <= i,
            ans == answers.deep_view(),
            (done@, pending@, pos as nat) == partial_scan(items.deep_view().take(i as int), ans, current@),
        decreases items.len() - i,
    {
        assert(items.deep_view().take(i + 1).drop_last() == items.deep_view().take(i as int));
        match &items[i].0 {
            Some(t) => {
                pending.append(t.as_str());
            },
            None => {},
        }
        if items[i].1 {
            if pos < answers.len() {
                pending.append(answers[pos].as_str());
            } else if pos == answers.len() {
                done.append(pending.as_str());
                done.append(current);
                pending = String::new();
            } else {
                pending.append("___");
            }
            pos = pos + 1;
        }
        i = i + 1;
    }
    assert(items.deep_view().take(i as int) == items.deep_view());
    (done, pending)
}

} // verus!
