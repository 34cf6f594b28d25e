//! The line parser: one line of question text to a `Question`, or the column
//! and message of the first error in it.
use vstd::prelude::*;
use vstd::string::StringExecFns;

use crate::question::{Answer, AnswerModel, Question, QuestionModel, SegmentModel};
use crate::text::{
    char_views, chars_of, decimal, lemma_split_on_len, lines_of, parse_usize, parsed_usize,
    push_decimal, split_lines, split_on, string_of, trim_str, trimmed, lemma_deep_push,
};

verus! {

/// A parse error: the column (in characters) where it was found, and its
/// message.
pub type ParseResult<T> = Result<T, (usize, String)>;

/// The mathematical value of a parse error.
pub type ErrorModel = (nat, Seq<char>);

pub open spec fn msg_unexpected_open() -> Seq<char> {
    "Unexpected `[`!"@
}

pub open spec fn msg_unexpected_close() -> Seq<char> {
    "Unexpected `]`!"@
}

pub open spec fn msg_closing_bracket() -> Seq<char> {
    "Unexpected closing bracket!"@
}

pub open spec fn msg_end_of_answer() -> Seq<char> {
    "Unexpected end of answer!"@
}

pub open spec fn msg_not_a_number() -> Seq<char> {
    "Not a number!"@
}

pub open spec fn msg_expected_end() -> Seq<char> {
    "Expected end of answer!"@
}

pub open spec fn msg_empty_pool() -> Seq<char> {
    "Pool cannot be empty!"@
}

/// The message for `promised` pools referenced but none declared.
pub open spec fn msg_no_pools(promised: nat) -> Seq<char> {
    "Expected "@ + decimal(promised) + " pools, but none were provided!"@
}

/// The message for `promised` pools referenced but `found` declared.
pub open spec fn msg_pool_count(promised: nat, found: nat) -> Seq<char> {
    if promised == 1 {
        "Expected 1 pool, but found "@ + decimal(found) + "!"@
    } else {
        "Expected "@ + decimal(promised) + " pools, but found "@ + decimal(found) + "!"@
    }
}

/// The characters that end a run of literal text.
pub open spec fn is_reserved(c: char) -> bool {
    c == '[' || c == ']' || c == '{' || c == '}' || c == ';'
}

/// The first position at or after `i` that holds a reserved character, or
/// the end of the line.
pub open spec fn text_end(line: Seq<char>, i: nat) -> nat
    decreases line.len() - i,
{
    if i >= line.len() || is_reserved(line[i as int]) {
        i
    } else {
        text_end(line, i + 1)
    }
}

/// The first position at or after `i` that holds `[` or `]`, or the end of
/// the line.
pub open spec fn bracket_end(line: Seq<char>, i: nat) -> nat
    decreases line.len() - i,
{
    if i >= line.len() || line[i as int] == '[' || line[i as int] == ']' {
        i
    } else {
        bracket_end(line, i + 1)
    }
}

/// The first position at or after `i` that holds `}`, or the end of the line.
pub open spec fn brace_end(line: Seq<char>, i: nat) -> nat
    decreases line.len() - i,
{
    if i >= line.len() || line[i as int] == '}' {
        i
    } else {
        brace_end(line, i + 1)
    }
}

proof fn lemma_text_end(line: Seq<char>, i: nat)
    requires
        i <= line.len(),
    ensures
        i <= text_end(line, i) <= line.len(),
    decreases line.len() - i,
{
    if i < line.len() && !is_reserved(line[i as int]) {
        lemma_text_end(line, i + 1);
    }
}

pub(crate) proof fn lemma_bracket_end(line: Seq<char>, i: nat)
    requires
        i <= line.len(),
    ensures
        i <= bracket_end(line, i) <= line.len(),
    decreases line.len() - i,
{
    if i < line.len() && line[i as int] != '[' && line[i as int] != ']' {
        lemma_bracket_end(line, i + 1);
    }
}

proof fn lemma_brace_end(line: Seq<char>, i: nat)
    requires
        i <= line.len(),
    ensures
        i <= brace_end(line, i) <= line.len(),
    decreases line.len() - i,
{
    if i < line.len() && line[i as int] != '}' {
        lemma_brace_end(line, i + 1);
    }
}

/// Each piece trimmed.
pub open spec fn trim_all(pieces: Seq<Seq<char>>) -> Seq<Seq<char>> {
    pieces.map_values(|p: Seq<char>| trimmed(p))
}

/// The answer written between brackets: its text trimmed when it has no
/// bar, else each alternative trimmed.
pub open spec fn bracket_answer(body: Seq<char>) -> AnswerModel {
    let pieces = split_on(body, '|');
    if pieces.len() == 1 {
        AnswerModel::Raw(trimmed(pieces[0]))
    } else {
        AnswerModel::OneOf(trim_all(pieces))
    }
}

/// A run of literal text from `i`, and where it stops.
pub open spec fn text_run(line: Seq<char>, i: nat) -> Result<(Seq<char>, nat), ErrorModel> {
    let j = text_end(line, i);
    if j < line.len() && line[j as int] == ']' {
        Err((j, msg_unexpected_close()))
    } else {
        Ok((line.subrange(i as int, j as int), j))
    }
}

/// The answer in brackets that opens at `i`, and the position after it.
pub open spec fn bracket_at(line: Seq<char>, i: nat) -> Result<(AnswerModel, nat), ErrorModel> {
    let k = bracket_end(line, i + 1);
    if k >= line.len() {
        Err((i, msg_end_of_answer()))
    } else if line[k as int] == '[' {
        Err((k, msg_unexpected_open()))
    } else {
        Ok((bracket_answer(line.subrange((i + 1) as int, k as int)), k + 1))
    }
}

/// The zero-based pool index in braces that opens at `i`, and the position
/// after it.
pub open spec fn index_at(line: Seq<char>, i: nat) -> Result<(nat, nat), ErrorModel> {
    let k = brace_end(line, i + 1);
    if k >= line.len() {
        Err((i, msg_expected_end()))
    } else {
        match parsed_usize(trimmed(line.subrange((i + 1) as int, k as int))) {
            Some(n) => if n >= 1 {
                Ok(((n - 1) as nat, k + 1))
            } else {
                Err((i, msg_not_a_number()))
            },
            None => Err((i, msg_not_a_number())),
        }
    }
}

/// Pools finished, items of the open pool, and the open item, after reading
/// `s`; or the position in `s` of a `;` that would close an empty pool.
pub open spec fn pool_scan(s: Seq<char>) -> Result<
    (Seq<Seq<Seq<char>>>, Seq<Seq<char>>, Seq<char>),
    nat,
>
    decreases s.len(),
{
    if s.len() == 0 {
        Ok((seq![], seq![], seq![]))
    } else {
        match pool_scan(s.drop_last()) {
            Err(e) => Err(e),
            Ok((pools, pool, item)) => {
                let c = s.last();
                if c == ';' {
                    if pool.len() == 0 && item.len() == 0 {
                        Err((s.len() - 1) as nat)
                    } else {
                        let closed = if item.len() > 0 {
                            pool.push(item)
                        } else {
                            pool
                        };
                        Ok((pools.push(closed), seq![], seq![]))
                    }
                } else if c == ',' {
                    Ok((pools, pool.push(item), seq![]))
                } else {
                    Ok((pools, pool, item.push(c)))
                }
            },
        }
    }
}

/// The pools once the line has ended: the open item and pool kept when not
/// empty.
pub open spec fn closed_pools(
    pools: Seq<Seq<Seq<char>>>,
    pool: Seq<Seq<char>>,
    item: Seq<char>,
) -> Seq<Seq<Seq<char>>> {
    let last = if item.len() > 0 {
        pool.push(item)
    } else {
        pool
    };
    if last.len() > 0 {
        pools.push(last)
    } else {
        pools
    }
}

/// The pool section that starts with the `;` at `i` and runs to the end of
/// the line, its items not yet trimmed.
pub open spec fn pool_section(line: Seq<char>, i: nat) -> Result<Seq<Seq<Seq<char>>>, ErrorModel> {
    match pool_scan(line.subrange((i + 1) as int, line.len() as int)) {
        Err(e) => Err((i + 1 + e, msg_empty_pool())),
        Ok((pools, pool, item)) => Ok(closed_pools(pools, pool, item)),
    }
}

/// The mathematical value of an error.
pub open spec fn error_view(e: (usize, String)) -> ErrorModel {
    (e.0 as nat, e.1@)
}

/// An error with this column and message.
fn error(column: usize, message: &str) -> (r: (usize, String))
    ensures
        error_view(r) == (column as nat, message@),
{
    (column, String::from_str(message))
}




proof fn lemma_pool_scan_err(s: Seq<char>, n: int)
    requires
        0 <= n <= s.len(),
        pool_scan(s.take(n)) is Err,
    ensures
        pool_scan(s) == pool_scan(s.take(n)),
    decreases s.len() - n,
{
    if n < s.len() {
        assert(s.take(n + 1).drop_last() == s.take(n));
        lemma_pool_scan_err(s, n + 1);
    } else {
        assert(s.take(n) == s);
    }
}


/// The answer that opens at `j`: a pool reference in braces, or an answer in
/// brackets.
pub open spec fn answer_at(line: Seq<char>, j: nat) -> Result<(AnswerModel, nat), ErrorModel> {
    if line[j as int] == '{' {
        match index_at(line, j) {
            Ok((n, k)) => Ok((AnswerModel::SharedPool(n), k)),
            Err(e) => Err(e),
        }
    } else {
        bracket_at(line, j)
    }
}

/// What the parser finds at one position of a line.
pub enum StepModel {
    /// The line is malformed.
    Fail(ErrorModel),
    /// A segment, and the position after it.
    Segment(SegmentModel, nat),
    /// Literal text, if any, then the pool section starting at the given
    /// position; nothing follows it.
    Pools(Option<Seq<char>>, nat, Seq<Seq<Seq<char>>>),
}

/// What the parser finds at position `i < line.len()`.
pub open spec fn step_at(line: Seq<char>, i: nat) -> StepModel {
    let c = line[i as int];
    if c == '[' || c == '{' {
        match answer_at(line, i) {
            Ok((a, j)) => StepModel::Segment((None, Some(a)), j),
            Err(e) => StepModel::Fail(e),
        }
    } else if c == ';' {
        match pool_section(line, i) {
            Ok(pools) => StepModel::Pools(None, i, pools),
            Err(e) => StepModel::Fail(e),
        }
    } else if c == '}' || c == ']' {
        StepModel::Fail((i, msg_closing_bracket()))
    } else {
        match text_run(line, i) {
            Err(e) => StepModel::Fail(e),
            Ok((t, j)) => if j >= line.len() {
                StepModel::Segment((Some(t), None), j)
            } else if line[j as int] == ';' {
                match pool_section(line, j) {
                    Ok(pools) => StepModel::Pools(Some(t), j, pools),
                    Err(e) => StepModel::Fail(e),
                }
            } else if line[j as int] == '[' || line[j as int] == '{' {
                match answer_at(line, j) {
                    Ok((a, k)) => StepModel::Segment((Some(t), Some(a)), k),
                    Err(e) => StepModel::Fail(e),
                }
            } else {
                StepModel::Fail((j, msg_closing_bracket()))
            },
        }
    }
}

/// What the parser has gathered so far on a line: the segments, the
/// distinct pool indices referenced in order of first reference, and where
/// the last step started.
pub struct LineModel {
    pub dat: Seq<SegmentModel>,
    pub promised: Seq<nat>,
    pub last: nat,
}

/// `promised` with the pool that `seg` references, if it is new.
pub open spec fn promise(promised: Seq<nat>, seg: SegmentModel) -> Seq<nat> {
    match seg.1 {
        Some(AnswerModel::SharedPool(n)) => if promised.contains(n) {
            promised
        } else {
            promised.push(n)
        },
        _ => promised,
    }
}

/// Parses the rest of the line from `i`, given what was gathered before it:
/// the final state, and the start and contents of the pool section if there
/// is one.
pub open spec fn scan_line(line: Seq<char>, i: nat, st: LineModel) -> Result<
    (LineModel, Option<(nat, Seq<Seq<Seq<char>>>)>),
    ErrorModel,
>
    decreases line.len() - i,
    via scan_line_decreases
{
    if i >= line.len() {
        Ok((st, None))
    } else {
        match step_at(line, i) {
            StepModel::Fail(e) => Err(e),
            StepModel::Pools(t, at, pools) => Ok((
                LineModel {
                    dat: match t {
                        Some(t) => st.dat.push((Some(t), None)),
                        None => st.dat,
                    },
                    promised: st.promised,
                    last: i,
                },
                Some((at, pools)),
            )),
            StepModel::Segment(seg, j) => scan_line(
                line,
                j,
                LineModel { dat: st.dat.push(seg), promised: promise(st.promised, seg), last: i },
            ),
        }
    }
}

proof fn lemma_answer_advances(line: Seq<char>, j: nat)
    requires
        j < line.len(),
    ensures
        answer_at(line, j) matches Ok((_, k)) ==> j < k <= line.len(),
{
    lemma_bracket_end(line, j + 1);
    lemma_brace_end(line, j + 1);
}

pub(crate) proof fn lemma_step_advances(line: Seq<char>, i: nat)
    requires
        i < line.len(),
    ensures
        step_at(line, i) matches StepModel::Segment(_, j) ==> i < j <= line.len(),
{
    lemma_answer_advances(line, i);
    if !is_reserved(line[i as int]) {
        lemma_text_end(line, i + 1);
        let j = text_end(line, i);
        if j < line.len() {
            lemma_answer_advances(line, j);
        }
    }
}

#[via_fn]
proof fn scan_line_decreases(line: Seq<char>, i: nat, st: LineModel) {
    if i < line.len() {
        lemma_step_advances(line, i);
    }
}

/// The largest of `s`, or zero.
pub open spec fn seq_max(s: Seq<nat>) -> nat
    decreases s.len(),
{
    if s.len() == 0 {
        0
    } else if s.last() > seq_max(s.drop_last()) {
        s.last()
    } else {
        seq_max(s.drop_last())
    }
}

/// Every pool with its items trimmed.
pub open spec fn trim_pools(pools: Seq<Seq<Seq<char>>>) -> Seq<Seq<Seq<char>>> {
    pools.map_values(|p: Seq<Seq<char>>| trim_all(p))
}

/// The question that `line` holds, or the first error in it.
///
/// Each distinct pool referenced in braces promises a pool; when any is
/// promised, the pool section must declare exactly as many pools as were
/// promised, and every referenced pool must exist.
pub open spec fn parse_line(line: Seq<char>) -> Result<QuestionModel, ErrorModel> {
    match scan_line(line, 0, LineModel { dat: seq![], promised: seq![], last: 0 }) {
        Err(e) => Err(e),
        Ok((st, section)) => {
            let n = st.promised.len();
            if n == 0 {
                Ok(
                    QuestionModel {
                        dat: st.dat,
                        pools: match section {
                            Some((_, pools)) => trim_pools(pools),
                            None => seq![],
                        },
                    },
                )
            } else {
                match section {
                    None => Err((st.last, msg_no_pools(n))),
                    Some((at, pools)) => if pools.len() != n {
                        Err((at, msg_pool_count(n, pools.len())))
                    } else if seq_max(st.promised) >= pools.len() {
                        Err((at, msg_pool_count(seq_max(st.promised) + 1, pools.len())))
                    } else {
                        Ok(QuestionModel { dat: st.dat, pools: trim_pools(pools) })
                    },
                }
            }
        },
    }
}


/// What the parser finds at one position (see `StepModel`).
enum Step {
    Fail((usize, String)),
    Segment(Option<String>, Option<Answer>, usize),
    Pools(Option<String>, usize, Vec<Vec<String>>),
}

/// The mathematical value of a `Step`.
spec fn step_view(s: Step) -> StepModel {
    match s {
        Step::Fail(e) => StepModel::Fail(error_view(e)),
        Step::Segment(t, a, j) => StepModel::Segment((t.deep_view(), a.deep_view()), j as nat),
        Step::Pools(t, at, pools) => StepModel::Pools(t.deep_view(), at as nat, pools.deep_view()),
    }
}


/// The values of a list of indices.
pub open spec fn nats(s: Seq<usize>) -> Seq<nat> {
    s.map_values(|x: usize| x as nat)
}

/// Records the pool that `answer` references, if it is not recorded yet.
#[verifier::loop_isolation(false)]
fn promise_index(promised: &mut Vec<usize>, answer: &Option<Answer>)
    ensures
        nats(final(promised)@) == promise(nats(old(promised)@), (None, answer.deep_view())),
{
    match answer {
        Some(Answer::SharedPool(n)) => {
            let n = *n;
            let mut k: usize = 0;
            while k < promised.len()
                invariant
                    k <= promised.len(),
                    *promised == *old(promised),
                    forall|x: int| 0 <= x < k ==> promised@[x] != n,
                decreases promised.len() - k,
            {
                if promised[k] == n {
                    assert(nats(promised@)[k as int] == n as nat);
                    return;
                }
                k = k + 1;
            }
            let ghost before = promised@;
            promised.push(n);
            proof {
                assert(!nats(before).contains(n as nat)) by {
                    if nats(before).contains(n as nat) {
                        let x = choose|x: int| 0 <= x < nats(before).len() && nats(before)[x] == n as nat;
                        assert(before[x] == n);
                    }
                }
                assert(nats(promised@) =~= nats(before).push(n as nat));
            }
        },
        _ => {},
    }
}

/// The largest recorded pool index, or zero.
fn max_index(promised: &Vec<usize>) -> (r: usize)
    ensures
        r as nat == seq_max(nats(promised@)),
{
    let mut m: usize = 0;
    let mut k: usize = 0;
    while k < promised.len()
        invariant
            k <= promised.len(),
            m as nat == seq_max(nats(promised@).take(k as int)),
        decreases promised.len() - k,
    {
        assert(nats(promised@).take(k + 1).drop_last() == nats(promised@).take(k as int));
        if promised[k] > m {
            m = promised[k];
        }
        k = k + 1;
    }
    assert(nats(promised@).take(k as int) == nats(promised@));
    m
}

/// The message for `promised` pools referenced and none declared.
fn no_pools_message(promised: usize) -> (r: String)
    ensures
        r@ == msg_no_pools(promised as nat),
{
    let mut s = String::from_str("Expected ");
    push_decimal(&mut s, promised as u128);
    s.append(" pools, but none were provided!");
    s
}

/// The message for `promised` pools referenced and `found` declared.
fn pool_count_message(promised: u128, found: usize) -> (r: String)
    ensures
        r@ == msg_pool_count(promised as nat, found as nat),
{
    let mut s;
    if promised == 1 {
        s = String::from_str("Expected 1 pool, but found ");
    } else {
        s = String::from_str("Expected ");
        push_decimal(&mut s, promised);
        s.append(" pools, but found ");
    }
    push_decimal(&mut s, found as u128);
    s.append("!");
    s
}

/// Every pool with its items trimmed.
fn trim_pool_items(pools: &Vec<Vec<String>>) -> (r: Vec<Vec<String>>)
    ensures
        r.deep_view() == trim_pools(pools.deep_view()),
{
    let mut out: Vec<Vec<String>> = Vec::new();
    let mut p: usize = 0;
    while p < pools.len()
        invariant
            p <= pools.len(),
            out.deep_view() == trim_pools(pools.deep_view()).take(p as int),
        decreases pools.len() - p,
    {
        let pool = &pools[p];
        let mut row: Vec<String> = Vec::new();
        let mut k: usize = 0;
        while k < pool.len()
            invariant
                k <= pool.len(),
                pool == &pools[p as int],
                p < pools.len(),
                row.deep_view() == trim_all(pool.deep_view()).take(k as int),
            decreases pool.len() - k,
        {
            let t = trim_str(pool[k].as_str());
            let ghost before = row;
            row.push(t);
            proof {
                lemma_deep_push(before, row, t);
                assert(row.deep_view() =~= trim_all(pool.deep_view()).take(k + 1));
            }
            k = k + 1;
        }
        assert(row.deep_view() =~= trim_pools(pools.deep_view())[p as int]);
        let ghost before = out;
        out.push(row);
        proof {
            lemma_deep_push(before, out, row);
            assert(out.deep_view() =~= trim_pools(pools.deep_view()).take(p + 1));
        }
        p = p + 1;
    }
    assert(trim_pools(pools.deep_view()).take(p as int) =~= trim_pools(pools.deep_view()));
    out
}

/// The mathematical value of the result of parsing a line.
pub open spec fn result_view(r: ParseResult<Question>) -> Result<QuestionModel, ErrorModel> {
    match r {
        Ok(q) => Ok(q@),
        Err(e) => Err(error_view(e)),
    }
}

/// How an error is reported: `<source>:<line>:<column> <message>`, with the
/// line counted from zero.
pub open spec fn error_text(name: Seq<char>, line: nat, column: nat, message: Seq<char>) -> Seq<
    char,
> {
    name + ":"@ + decimal(line) + ":"@ + decimal(column) + " "@ + message
}

/// Reads a source text line by line, giving one parsed question (or one
/// error) per line.
pub struct Parser {
    src_name: String,
    lines: Vec<Vec<char>>,
    next_line: usize,
}

/// The mathematical value of a `Parser`: the name of its source, the lines of
/// the source, and the number of lines already read.
pub struct ParserModel {
    pub name: Seq<char>,
    pub lines: Seq<Seq<char>>,
    pub next_line: nat,
}

impl View for Parser {
    type V = ParserModel;

    closed spec fn view(&self) -> ParserModel {
        ParserModel {
            name: self.src_name@,
            lines: char_views(self.lines@),
            next_line: self.next_line as nat,
        }
    }
}

impl Parser {
    /// A parser over the lines of `src`; `src_name` names the source in error
    /// reports.
    pub fn new(src: &str, src_name: &str) -> (r: Parser)
        ensures
            r@ == (ParserModel { name: src_name@, lines: lines_of(src@), next_line: 0 }),
    {
        let chars = chars_of(src);
        let lines = split_lines(&chars);
        Parser { src_name: String::from_str(src_name), lines, next_line: 0 }
    }

    /// Parses one line of question text.
    pub fn parse_question(line: &str) -> (r: ParseResult<Question>)
        ensures
            result_view(r) == parse_line(line@),
    {
        let chars = chars_of(line);
        Self::parse_chars(&chars)
    }

    /// Parses the line `line`.
    fn parse_chars(line: &Vec<char>) -> (r: ParseResult<Question>)
        ensures
            result_view(r) == parse_line(line@),
    {
        let ghost init = LineModel { dat: seq![], promised: seq![], last: 0 };
        let mut dat: Vec<(Option<String>, Option<Answer>)> = Vec::new();
        let mut promised: Vec<usize> = Vec::new();
        let mut last: usize = 0;
        let mut section: Option<(usize, Vec<Vec<String>>)> = None;
        let mut i: usize = 0;
        proof {
            assert(dat.deep_view() =~= Seq::<SegmentModel>::empty());
            assert(nats(promised@) =~= Seq::<nat>::empty());
        }
        while i < line.len()
            invariant
                i <= line.len(),
                init == (LineModel { dat: seq![], promised: seq![], last: 0 }),
                section is None ==> scan_line(line@, 0, init) == scan_line(
                    line@,
                    i as nat,
                    LineModel { dat: dat.deep_view(), promised: nats(promised@), last: last as nat },
                ),
                section matches Some((at, pools)) ==> i == line.len() && scan_line(line@, 0, init)
                    == Ok::<(LineModel, Option<(nat, Seq<Seq<Seq<char>>>)>), ErrorModel>((
                    LineModel { dat: dat.deep_view(), promised: nats(promised@), last: last as nat },
                    Some((at as nat, pools.deep_view())),
                )),
            decreases line.len() - i,
        {
            proof {
                lemma_step_advances(line@, i as nat);
            }
            match Self::parse_segment(line, i) {
                Step::Fail(e) => {
                    return Err(e);
                },
                Step::Pools(text, at, pools) => {
                    match text {
                        Some(t) => {
                            let ghost before = dat;
                            let seg = (Some(t), None);
                            dat.push(seg);
                            proof {
                                lemma_deep_push(before, dat, seg);
                            }
                        },
                        None => {},
                    }
                    last = i;
                    section = Some((at, pools));
                    i = line.len();
                },
                Step::Segment(text, answer, j) => {
                    promise_index(&mut promised, &answer);
                    let ghost before = dat;
                    let seg = (text, answer);
                    dat.push(seg);
                    proof {
                        lemma_deep_push(before, dat, seg);
                    }
                    last = i;
                    i = j;
                },
            }
        }
        let n = promised.len();
        assert(nats(promised@).len() == n);
        let pools: Vec<Vec<String>>;
        if n == 0 {
            pools = match section {
                Some((_, found)) => trim_pool_items(&found),
                None => {
                    let empty: Vec<Vec<String>> = Vec::new();
                    assert(empty.deep_view() =~= Seq::<Seq<Seq<char>>>::empty());
                    empty
                },
            };
        } else {
            match section {
                None => {
                    return Err((last, no_pools_message(n)));
                },
                Some((at, found)) => {
                    if found.len() != n {
                        return Err((at, pool_count_message(n as u128, found.len())));
                    }
                    let m = max_index(&promised);
                    if m >= found.len() {
                        return Err((at, pool_count_message(m as u128 + 1, found.len())));
                    }
                    pools = trim_pool_items(&found);
                },
            }
        }
        Ok(Question { dat, pools })
    }

    /// Parses literal text from `start` up to the next reserved character.
    fn parse_text(line: &Vec<char>, start: usize) -> (r: ParseResult<(String, usize)>)
        requires
            start <= line.len(),
        ensures
            match r {
                Ok((t, j)) => text_run(line@, start as nat) == Ok::<(Seq<char>, nat), ErrorModel>((t@, j as nat)),
                Err(e) => text_run(line@, start as nat) == Err::<(Seq<char>, nat), ErrorModel>(error_view(e)),
            },
    {
        let mut j: usize = start;
        while j < line.len() && !(line[j] == '[' || line[j] == ']' || line[j] == '{' || line[j] == '}'
            || line[j] == ';')
            invariant
                start <= j <= line.len(),
                text_end(line@, start as nat) == text_end(line@, j as nat),
            decreases line.len() - j,
        {
            j = j + 1;
        }
        if j < line.len() && line[j] == ']' {
            return Err(error(j, "Unexpected `]`!"));
        }
        Ok((string_of(line, start, j), j))
    }

    /// Parses the answer in brackets that opens at `start`.
    fn parse_bracket_answer(line: &Vec<char>, start: usize) -> (r: ParseResult<(Answer, usize)>)
        requires
            start < line.len(),
            line[start as int] == '[',
        ensures
            match r {
                Ok((a, j)) => bracket_at(line@, start as nat) == Ok::<(AnswerModel, nat), ErrorModel>((a@, j as nat)),
                Err(e) => bracket_at(line@, start as nat) == Err::<(AnswerModel, nat), ErrorModel>(error_view(e)),
            },
    {
        let ghost body_start = (start + 1) as int;
        let mut alts: Vec<String> = Vec::new();
        let mut piece: usize = start + 1;
        let mut k: usize = start + 1;
        proof {
            assert(line@.subrange(body_start, body_start) =~= Seq::<char>::empty());
        }
        while k < line.len() && line[k] != '[' && line[k] != ']'
            invariant
                start < piece <= k <= line.len(),
                bracket_end(line@, (start + 1) as nat) == bracket_end(line@, k as nat),
                trim_all(split_on(line@.subrange(body_start, k as int), '|').drop_last()) == alts.deep_view(),
                split_on(line@.subrange(body_start, k as int), '|').last() == line@.subrange(
                    piece as int,
                    k as int,
                ),
                body_start == start + 1,
            decreases line.len() - k,
        {
            let ghost before = line@.subrange(body_start, k as int);
            let ghost after = line@.subrange(body_start, k + 1);
            proof {
                assert(after.drop_last() == before);
                lemma_split_on_len(before, '|');
            }
            if line[k] == '|' {
                let text = string_of(line, piece, k);
                let t = trim_str(text.as_str());
                let ghost prev = alts;
                alts.push(t);
                piece = k + 1;
                proof {
                    assert(split_on(after, '|').drop_last() == split_on(before, '|'));
                    lemma_deep_push(prev, alts, t);
                    assert(trim_all(split_on(after, '|').drop_last())
                        =~= alts.deep_view());
                    assert(line@.subrange(piece as int, k + 1) =~= Seq::<char>::empty());
                }
            } else {
                proof {
                    let sb = split_on(before, '|');
                    assert(split_on(after, '|') == sb.update(sb.len() - 1, sb.last().push(line@[k as int])));
                    assert(split_on(after, '|').drop_last() =~= sb.drop_last());
                    assert(line@.subrange(piece as int, k + 1) =~= line@.subrange(piece as int, k as int).push(line@[k as int]));
                }
            }
            k = k + 1;
        }
        if k >= line.len() {
            return Err(error(start, "Unexpected end of answer!"));
        }
        if line[k] == '[' {
            return Err(error(k, "Unexpected `[`!"));
        }
        let ghost pieces = split_on(line@.subrange(body_start, k as int), '|');
        proof {
            lemma_split_on_len(line@.subrange(body_start, k as int), '|');
        }
        let text = string_of(line, piece, k);
        let t = trim_str(text.as_str());
        if alts.len() == 0 {
            proof {
                assert(pieces.len() == 1);
            }
            Ok((Answer::Raw(t), k + 1))
        } else {
            let ghost before = alts;
            alts.push(t);
            proof {
                lemma_deep_push(before, alts, t);
                let prev = before.deep_view();
                assert(trim_all(pieces.drop_last()) == prev);
                assert forall|x: int| 0 <= x < pieces.len() - 1 implies #[trigger] trim_all(pieces)[x] == prev[x] by {
                    assert(pieces.drop_last()[x] == pieces[x]);
                }
                assert(trim_all(pieces) =~= alts.deep_view());
            }
            Ok((Answer::OneOf(alts), k + 1))
        }
    }

    /// Parses the pool number in braces that opens at `start`, giving the
    /// zero-based pool index.
    fn parse_idx_answer(line: &Vec<char>, start: usize) -> (r: ParseResult<(usize, usize)>)
        requires
            start < line.len(),
            line[start as int] == '{',
        ensures
            match r {
                Ok((n, j)) => index_at(line@, start as nat) == Ok::<(nat, nat), ErrorModel>((n as nat, j as nat)),
                Err(e) => index_at(line@, start as nat) == Err::<(nat, nat), ErrorModel>(error_view(e)),
            },
    {
        let mut k: usize = start + 1;
        while k < line.len() && line[k] != '}'
            invariant
                start < k <= line.len(),
                brace_end(line@, (start + 1) as nat) == brace_end(line@, k as nat),
            decreases line.len() - k,
        {
            k = k + 1;
        }
        if k >= line.len() {
            return Err(error(start, "Expected end of answer!"));
        }
        let text = string_of(line, start + 1, k);
        let t = trim_str(text.as_str());
        let digits = chars_of(t.as_str());
        match parse_usize(&digits) {
            Some(n) => {
                if n >= 1 {
                    Ok((n - 1, k + 1))
                } else {
                    Err(error(start, "Not a number!"))
                }
            },
            None => Err(error(start, "Not a number!")),
        }
    }

    /// Parses the pool section that starts with the `;` at `start` and runs to
    /// the end of the line; items are not trimmed here.
    fn parse_answer_pools(line: &Vec<char>, start: usize) -> (r: ParseResult<Vec<Vec<String>>>)
        requires
            start < line.len(),
            line[start as int] == ';',
        ensures
            match r {
                Ok(pools) => pool_section(line@, start as nat) == Ok::<Seq<Seq<Seq<char>>>, ErrorModel>(pools.deep_view()),
                Err(e) => pool_section(line@, start as nat) == Err::<Seq<Seq<Seq<char>>>, ErrorModel>(error_view(e)),
            },
    {
        let ghost body = line@.subrange(start + 1, line@.len() as int);
        let mut pools: Vec<Vec<String>> = Vec::new();
        let mut pool: Vec<String> = Vec::new();
        let mut item: usize = start + 1;
        let mut k: usize = start + 1;
        proof {
            assert(body.take(0) =~= Seq::<char>::empty());
            assert(line@.subrange(item as int, k as int) =~= Seq::<char>::empty());
            assert(pools.deep_view() =~= Seq::<Seq<Seq<char>>>::empty());
            assert(pool.deep_view() =~= Seq::<Seq<char>>::empty());
        }
        while k < line.len()
            invariant
                start < item <= k <= line.len(),
                body == line@.subrange(start + 1, line@.len() as int),
                pool_scan(body.take(k - start - 1)) == Ok::<(Seq<Seq<Seq<char>>>, Seq<Seq<char>>, Seq<char>), nat>((
                    pools.deep_view(),
                    pool.deep_view(),
                    line@.subrange(item as int, k as int),
                )),
            decreases line.len() - k,
        {
            let ghost prefix = body.take(k - start - 1);
            let ghost next = body.take(k - start);
            proof {
                assert(next.drop_last() == prefix);
                assert(next.last() == line@[k as int]);
            }
            let c = line[k];
            if c == ';' {
                if pool.len() == 0 && item == k {
                    proof {
                        lemma_pool_scan_err(body, k - start);
                    }
                    return Err(error(k, "Pool cannot be empty!"));
                }
                if item < k {
                    let text = string_of(line, item, k);
                    let ghost before = pool;
                    pool.push(text);
                    proof {
                        lemma_deep_push(before, pool, text);
                    }
                }
                let ghost before = pools;
                pools.push(pool);
                proof {
                    lemma_deep_push(before, pools, pool);
                }
                pool = Vec::new();
                item = k + 1;
                proof {
                    assert(pool.deep_view() =~= Seq::<Seq<char>>::empty());
                }
            } else if c == ',' {
                let text = string_of(line, item, k);
                let ghost before = pool;
                pool.push(text);
                proof {
                    lemma_deep_push(before, pool, text);
                }
                item = k + 1;
            } else {
                proof {
                    assert(line@.subrange(item as int, k + 1) =~= line@.subrange(item as int, k as int).push(c));
                }
            }
            k = k + 1;
            proof {
                assert(item == k ==> line@.subrange(item as int, k as int) =~= Seq::<char>::empty());
            }
        }
        proof {
            assert(body.take(k - start - 1) == body);
        }
        if item < k {
            let text = string_of(line, item, k);
            let ghost before = pool;
            pool.push(text);
            proof {
                lemma_deep_push(before, pool, text);
            }
        }
        if pool.len() > 0 {
            let ghost before = pools;
            pools.push(pool);
            proof {
                lemma_deep_push(before, pools, pool);
            }
        }
        Ok(pools)
    }

    /// Parses the answer that opens at `start`: a pool reference in braces or an
    /// answer in brackets.
    fn parse_answer(line: &Vec<char>, start: usize) -> (r: ParseResult<(Answer, usize)>)
        requires
            start < line.len(),
            line[start as int] == '[' || line[start as int] == '{',
        ensures
            match r {
                Ok((a, j)) => answer_at(line@, start as nat) == Ok::<(AnswerModel, nat), ErrorModel>((a@, j as nat)),
                Err(e) => answer_at(line@, start as nat) == Err::<(AnswerModel, nat), ErrorModel>(error_view(e)),
            },
    {
        if line[start] == '{' {
            match Self::parse_idx_answer(line, start) {
                Ok((n, j)) => Ok((Answer::SharedPool(n), j)),
                Err(e) => Err(e),
            }
        } else {
            Self::parse_bracket_answer(line, start)
        }
    }

    /// Parses what stands at position `i`: an answer, the pool section, or
    /// literal text with what follows it.
    fn parse_segment(line: &Vec<char>, i: usize) -> (r: Step)
        requires
            i < line.len(),
        ensures
            step_view(r) == step_at(line@, i as nat),
    {
        let c = line[i];
        if c == '[' || c == '{' {
            match Self::parse_answer(line, i) {
                Ok((a, j)) => Step::Segment(None, Some(a), j),
                Err(e) => Step::Fail(e),
            }
        } else if c == ';' {
            match Self::parse_answer_pools(line, i) {
                Ok(pools) => Step::Pools(None, i, pools),
                Err(e) => Step::Fail(e),
            }
        } else if c == '}' || c == ']' {
            Step::Fail(error(i, "Unexpected closing bracket!"))
        } else {
            match Self::parse_text(line, i) {
                Err(e) => Step::Fail(e),
                Ok((t, j)) => {
                    if j >= line.len() {
                        Step::Segment(Some(t), None, j)
                    } else if line[j] == ';' {
                        match Self::parse_answer_pools(line, j) {
                            Ok(pools) => Step::Pools(Some(t), j, pools),
                            Err(e) => Step::Fail(e),
                        }
                    } else if line[j] == '[' || line[j] == '{' {
                        match Self::parse_answer(line, j) {
                            Ok((a, k)) => Step::Segment(Some(t), Some(a), k),
                            Err(e) => Step::Fail(e),
                        }
                    } else {
                        Step::Fail(error(j, "Unexpected closing bracket!"))
                    }
                },
            }
        }
    }

    /// The next line's question, or its error as `<source>:<line>:<column>
    /// <message>`; `None` once every line was read.
    pub fn next(&mut self) -> (r: Option<Result<Question, String>>)
        ensures
            old(self)@.next_line >= old(self)@.lines.len() ==> r is None && final(self)@ == old(
                self,
            )@,
            old(self)@.next_line < old(self)@.lines.len() ==> {
                &&& final(self)@ == (ParserModel {
                    next_line: old(self)@.next_line + 1,
                    ..old(self)@
                })
                &&& r matches Some(res) && match res {
                    Ok(q) => parse_line(old(self)@.lines[old(self)@.next_line as int]) == Ok::<
                        QuestionModel,
                        ErrorModel,
                    >(q@),
                    Err(m) => parse_line(old(self)@.lines[old(self)@.next_line as int]) matches Err(
                        (column, message),
                    ) && m@ == error_text(
                        old(self)@.name,
                        old(self)@.next_line,
                        column,
                        message,
                    ),
                }
            },
    {
        if self.next_line >= self.lines.len() {
            return None;
        }
        let n = self.next_line;
        let parsed = Self::parse_chars(&self.lines[n]);
        self.next_line = n + 1;
        match parsed {
            Ok(q) => Some(Ok(q)),
            Err((column, message)) => {
                let mut text = self.src_name.clone();
                text.append(":");
                push_decimal(&mut text, n as u128);
                text.append(":");
                push_decimal(&mut text, column as u128);
                text.append(" ");
                text.append(message.as_str());
                Some(Err(text))
            },
        }
    }
}

/// Every pool slot among `dat` references a pool recorded in `promised`.
pub open spec fn promises_kept(dat: Seq<SegmentModel>, promised: Seq<nat>) -> bool {
    forall|k: int|
        0 <= k < dat.len() ==> match #[trigger] dat[k].1 {
            Some(AnswerModel::SharedPool(n)) => promised.contains(n),
            _ => true,
        }
}

proof fn lemma_scan_keeps_promises(line: Seq<char>, i: nat, st: LineModel)
    requires
        promises_kept(st.dat, st.promised),
    ensures
        scan_line(line, i, st) matches Ok((end, _)) ==> promises_kept(end.dat, end.promised),
    decreases line.len() - i,
{
    if i < line.len() {
        lemma_step_advances(line, i);
        match step_at(line, i) {
            StepModel::Segment(seg, j) => {
                let next = LineModel {
                    dat: st.dat.push(seg),
                    promised: promise(st.promised, seg),
                    last: i,
                };
                assert forall|k: int| 0 <= k < next.dat.len() implies match #[trigger] next.dat[k].1 {
                    Some(AnswerModel::SharedPool(n)) => next.promised.contains(n),
                    _ => true,
                } by {
                    if k < st.dat.len() {
                        assert(next.dat[k] == st.dat[k]);
                        if let Some(AnswerModel::SharedPool(n)) = st.dat[k].1 {
                            assert(st.promised.contains(n));
                            if !promise(st.promised, seg).contains(n) {
                                let x = choose|x: int| 0 <= x < st.promised.len() && st.promised[x] == n;
                                assert(promise(st.promised, seg)[x] == n);
                            }
                        }
                    } else {
                        if let Some(AnswerModel::SharedPool(n)) = seg.1 {
                            if !st.promised.contains(n) {
                                assert(next.promised[st.promised.len() as int] == n);
                            }
                        }
                    }
                }
                lemma_scan_keeps_promises(line, j, next);
            },
            StepModel::Pools(t, _, _) => {
                if let Some(t) = t {
                    let dat = st.dat.push((Some(t), None));
                    assert forall|k: int| 0 <= k < dat.len() implies match #[trigger] dat[k].1 {
                        Some(AnswerModel::SharedPool(n)) => st.promised.contains(n),
                        _ => true,
                    } by {
                        if k < st.dat.len() {
                            assert(dat[k] == st.dat[k]);
                        }
                    }
                }
            },
            StepModel::Fail(_) => {},
        }
    }
}

proof fn lemma_seq_max(s: Seq<nat>)
    ensures
        forall|k: int| 0 <= k < s.len() ==> s[k] <= seq_max(s),
    decreases s.len(),
{
    if s.len() > 0 {
        lemma_seq_max(s.drop_last());
        assert forall|k: int| 0 <= k < s.len() implies s[k] <= seq_max(s) by {
            if k < s.len() - 1 {
                assert(s[k] == s.drop_last()[k]);
            }
        }
    }
}

/// A line that parses yields a well-formed question: every pool slot names
/// a pool that the line declares.
pub proof fn law_parsed_question_well_formed(line: Seq<char>)
    requires
        parse_line(line) is Ok,
    ensures
        parse_line(line)->Ok_0.wf(),
{
    let init = LineModel { dat: seq![], promised: seq![], last: 0 };
    lemma_scan_keeps_promises(line, 0, init);
    let (st, section) = scan_line(line, 0, init)->Ok_0;
    let q = parse_line(line)->Ok_0;
    lemma_seq_max(st.promised);
    assert forall|k: int| 0 <= k < q.dat.len() implies match #[trigger] q.dat[k].1 {
        Some(AnswerModel::SharedPool(i)) => i < q.pools.len(),
        _ => true,
    } by {
        if let Some(AnswerModel::SharedPool(i)) = q.dat[k].1 {
            assert(st.dat[k] == q.dat[k]);
            assert(st.promised.contains(i));
            let x = choose|x: int| 0 <= x < st.promised.len() && st.promised[x] == i;
            assert(st.promised[x] <= seq_max(st.promised));
        }
    }
}

} // verus!
