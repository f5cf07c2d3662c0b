//! The text form of an aggregation clause, and of a whole rule condition
//! with one. A clause follows the condition after a `|`:
//!
//! ```text
//! count() by Event.EventData.TargetUserName > 5 within 5m
//! count(Event.EventData.IpAddress) >= 10
//! ```
//!
//! `count()` counts matches and `count(F)` the distinct values of `F`.
//! `by G` groups by the field `G`. The comparison is one of `>`, `>=`,
//! `==`, `<`, `<=`, and the threshold a decimal number. `within` takes a
//! decimal number with one of the units `s`, `m`, `h`, `d`.

use vstd::prelude::*;
use vstd::string::*;
use crate::condition::{
    instantiate, parse_chars, parsed, stands_for, ConditionError, NamedSelection,
};
use crate::rule::{AggregationClause, CompareOp, ConditionExpr, CountMode};
use crate::text::{chars_of, i64_of_text, parse_int, spells, text_opt};

verus! {

/// An aggregation clause as a value of texts and numbers.
pub struct ClauseView {
    /// The field whose distinct values are counted; `None` counts matches.
    pub distinct: Option<Seq<char>>,
    pub group_by: Option<Seq<char>>,
    pub op: CompareOp,
    pub threshold: u64,
    pub window: Option<u64>,
}

/// The view of a clause.
pub open spec fn clause_view(clause: AggregationClause) -> ClauseView {
    ClauseView {
        distinct: match clause.mode {
            CountMode::Distinct(field) => Some(field@),
            CountMode::Matches => None,
        },
        group_by: text_opt(clause.group_by),
        op: clause.op,
        threshold: clause.threshold,
        window: clause.window,
    }
}

/// Where the run of characters other than blanks ends that begins at
/// `pos`.
pub open spec fn run_end(text: Seq<char>, pos: int) -> int
    decreases text.len() - pos,
{
    if 0 <= pos < text.len() && text[pos] != ' ' {
        run_end(text, pos + 1)
    } else {
        pos
    }
}

/// The words of `text` from `pos` on: the runs of characters other than
/// blanks, each as the places where it begins and ends.
pub open spec fn words_from(text: Seq<char>, pos: int) -> Seq<(int, int)>
    decreases text.len() - pos,
{
    if pos < 0 || pos >= text.len() {
        Seq::<(int, int)>::empty()
    } else if text[pos] == ' ' {
        words_from(text, pos + 1)
    } else if pos < run_end(text, pos) <= text.len() {
        seq![(pos, run_end(text, pos))] + words_from(text, run_end(text, pos))
    } else {
        Seq::<(int, int)>::empty()
    }
}

/// What a word says is counted: `count()` the matches, `count(F)` the
/// distinct values of `F`. The result is the field, or `None` for
/// matches; any other word is no count.
pub open spec fn count_of(word: Seq<char>) -> Option<Option<Seq<char>>> {
    if word.len() >= 7 && word.subrange(0, 6) == "count("@ && word.last() == ')' {
        if word.len() == 7 {
            Some(None)
        } else {
            Some(Some(word.subrange(6, word.len() - 1)))
        }
    } else {
        None
    }
}

/// The comparison that a word names.
pub open spec fn op_of(word: Seq<char>) -> Option<CompareOp> {
    if word == ">"@ {
        Some(CompareOp::Greater)
    } else if word == ">="@ {
        Some(CompareOp::GreaterOrEqual)
    } else if word == "=="@ {
        Some(CompareOp::Equal)
    } else if word == "<"@ {
        Some(CompareOp::Less)
    } else if word == "<="@ {
        Some(CompareOp::LessOrEqual)
    } else {
        None
    }
}

/// The threshold that a word names: a decimal number that is not negative.
pub open spec fn threshold_of(word: Seq<char>) -> Option<u64> {
    match i64_of_text(word) {
        Some(n) => if n >= 0 {
            Some(n as u64)
        } else {
            None
        },
        None => None,
    }
}

/// How many milliseconds one unit of time is.
pub open spec fn unit_millis(unit: char) -> Option<int> {
    if unit == 's' {
        Some(1_000)
    } else if unit == 'm' {
        Some(60_000)
    } else if unit == 'h' {
        Some(3_600_000)
    } else if unit == 'd' {
        Some(86_400_000)
    } else {
        None
    }
}

/// The length of time that a word names, in milliseconds: a decimal
/// number that is not negative and a unit, as long as the product fits.
pub open spec fn duration_of(word: Seq<char>) -> Option<u64> {
    if word.len() < 2 {
        None
    } else {
        match (threshold_of(word.drop_last()), unit_millis(word.last())) {
            (Some(n), Some(factor)) => if n * factor <= u64::MAX {
                Some((n * factor) as u64)
            } else {
                None
            },
            _ => None,
        }
    }
}

/// Word number `k` of `text`.
pub open spec fn word_at(text: Seq<char>, words: Seq<(int, int)>, k: int) -> Seq<char> {
    text.subrange(words[k].0, words[k].1)
}

/// The clause that the words spell: a count, `by` and a field or nothing,
/// a comparison, a threshold, and `within` and a duration or nothing.
pub open spec fn clause_of(text: Seq<char>, words: Seq<(int, int)>) -> Option<ClauseView> {
    let grouped = words.len() >= 3 && word_at(text, words, 1) == "by"@;
    let base: int = if grouped {
        3
    } else {
        1
    };
    if words.len() != base + 2 && words.len() != base + 4 {
        None
    } else if words.len() == base + 4 && word_at(text, words, base + 2) != "within"@ {
        None
    } else {
        match (
            count_of(word_at(text, words, 0)),
            op_of(word_at(text, words, base)),
            threshold_of(word_at(text, words, base + 1)),
        ) {
            (Some(distinct), Some(op), Some(threshold)) => {
                let group_by = if grouped {
                    Some(word_at(text, words, 2))
                } else {
                    None
                };
                if words.len() == base + 4 {
                    match duration_of(word_at(text, words, base + 3)) {
                        Some(length) => Some(
                            ClauseView { distinct, group_by, op, threshold, window: Some(length) },
                        ),
                        None => None,
                    }
                } else {
                    Some(ClauseView { distinct, group_by, op, threshold, window: None })
                }
            },
            _ => None,
        }
    }
}

/// Where the first `|` stands in `text` from `pos` on, or the length of
/// `text` where there is none.
pub open spec fn bar_from(text: Seq<char>, pos: int) -> int
    decreases text.len() - pos,
{
    if pos < 0 || pos >= text.len() {
        text.len() as int
    } else if text[pos] == '|' {
        pos
    } else {
        bar_from(text, pos + 1)
    }
}

/// Every word lies in the text, and is not empty.
pub proof fn lemma_words_in_text(text: Seq<char>, pos: int)
    requires
        0 <= pos,
    ensures
        forall|k: int|
            0 <= k < words_from(text, pos).len() ==> pos <= (#[trigger] words_from(text, pos)[k]).0
                < words_from(text, pos)[k].1 <= text.len(),
    decreases text.len() - pos,
{
    if pos < text.len() {
        if text[pos] == ' ' {
            lemma_words_in_text(text, pos + 1);
            let here = words_from(text, pos);
            let rest = words_from(text, pos + 1);
            assert(here == rest);
            assert forall|k: int| 0 <= k < here.len() implies pos <= (#[trigger] here[k]).0 < here[k].1
                <= text.len() by {
                assert(pos + 1 <= rest[k].0 < rest[k].1 <= text.len());
            }
        } else if pos < run_end(text, pos) <= text.len() {
            let end = run_end(text, pos);
            lemma_words_in_text(text, end);
            let here = words_from(text, pos);
            let rest = words_from(text, end);
            assert(here =~= seq![(pos, end)] + rest);
            assert forall|k: int| 0 <= k < here.len() implies pos <= (#[trigger] here[k]).0 < here[k].1
                <= text.len() by {
                if k > 0 {
                    assert(here[k] == rest[k - 1]);
                }
            }
        }
    }
}

/// Finds the words of `chars` from `pos` on.
pub fn find_words(chars: &Vec<char>, pos: usize) -> (out: Vec<(usize, usize)>)
    ensures
        out@.len() == words_from(chars@, pos as int).len(),
        forall|k: int|
            0 <= k < out@.len() ==> (#[trigger] out@[k]).0 == words_from(chars@, pos as int)[k].0
                && out@[k].1 == words_from(chars@, pos as int)[k].1,
        forall|k: int| 0 <= k < out@.len() ==> (#[trigger] out@[k]).0 < out@[k].1 <= chars@.len(),
{
    let mut out: Vec<(usize, usize)> = Vec::new();
    let mut at: usize = pos;
    let ghost all = words_from(chars@, pos as int);
    proof {
        lemma_words_in_text(chars@, pos as int);
    }
    while at < chars.len()
        invariant
            pos <= at,
            all == words_from(chars@, pos as int),
            out@.len() + words_from(chars@, at as int).len() == all.len(),
            forall|k: int|
                0 <= k < out@.len() ==> (#[trigger] out@[k]).0 == all[k].0 && out@[k].1 == all[k].1,
            forall|k: int|
                0 <= k < words_from(chars@, at as int).len() ==> (#[trigger] words_from(
                    chars@,
                    at as int,
                )[k]) == all[out@.len() + k],
            forall|k: int| 0 <= k < out@.len() ==> (#[trigger] out@[k]).0 < out@[k].1 <= chars@.len(),
        decreases chars@.len() - at,
    {
        if chars[at] == ' ' {
            at += 1;
        } else {
            let mut end: usize = at + 1;
            while end < chars.len() && chars[end] != ' '
                invariant
                    at < end <= chars@.len(),
                    run_end(chars@, at as int) == run_end(chars@, end as int),
                decreases chars@.len() - end,
            {
                end += 1;
            }
            proof {
                assert(run_end(chars@, end as int) == end);
                let here = words_from(chars@, at as int);
                let rest = words_from(chars@, end as int);
                assert(here =~= seq![(at as int, end as int)] + rest);
                assert(here[0] == all[out@.len() as int]);
                assert forall|k: int| 0 <= k < rest.len() implies (#[trigger] rest[k]) == all[out@.len()
                    + 1 + k] by {
                    assert(here[k + 1] == rest[k]);
                }
            }
            out.push((at, end));
            at = end;
        }
    }
    out
}

fn in_text(text: &str, chars: &Vec<char>, start: usize, end: usize) -> (s: String)
    requires
        chars@ == text@,
        start <= end <= chars@.len(),
    ensures
        s@ == chars@.subrange(start as int, end as int),
{
    text.substring_char(start, end).to_owned()
}

fn read_count(text: &str, chars: &Vec<char>, start: usize, end: usize) -> (r: Option<CountMode>)
    requires
        chars@ == text@,
        start <= end <= chars@.len(),
    ensures
        match r {
            Some(CountMode::Matches) => count_of(chars@.subrange(start as int, end as int)) == Some(
                None::<Seq<char>>,
            ),
            Some(CountMode::Distinct(field)) => count_of(chars@.subrange(start as int, end as int))
                == Some(Some(field@)),
            None => count_of(chars@.subrange(start as int, end as int)) is None,
        },
{
    let ghost word = chars@.subrange(start as int, end as int);
    if end - start < 7 {
        return None;
    }
    assert(word.subrange(0, 6) =~= chars@.subrange(start as int, start + 6));
    if !spells("count(", chars, start, start + 6) || chars[end - 1] != ')' {
        return None;
    }
    if end - start == 7 {
        Some(CountMode::Matches)
    } else {
        assert(word.subrange(6, word.len() - 1) =~= chars@.subrange(start + 6, end - 1));
        Some(CountMode::Distinct(in_text(text, chars, start + 6, end - 1)))
    }
}

fn read_op(chars: &Vec<char>, start: usize, end: usize) -> (r: Option<CompareOp>)
    requires
        start <= end <= chars@.len(),
    ensures
        r == op_of(chars@.subrange(start as int, end as int)),
{
    if spells(">", chars, start, end) {
        Some(CompareOp::Greater)
    } else if spells(">=", chars, start, end) {
        Some(CompareOp::GreaterOrEqual)
    } else if spells("==", chars, start, end) {
        Some(CompareOp::Equal)
    } else if spells("<", chars, start, end) {
        Some(CompareOp::Less)
    } else if spells("<=", chars, start, end) {
        Some(CompareOp::LessOrEqual)
    } else {
        None
    }
}

fn read_threshold(text: &str, chars: &Vec<char>, start: usize, end: usize) -> (r: Option<u64>)
    requires
        chars@ == text@,
        start <= end <= chars@.len(),
    ensures
        r == threshold_of(chars@.subrange(start as int, end as int)),
{
    match parse_int(text.substring_char(start, end)) {
        Some(n) => if n >= 0 {
            Some(n as u64)
        } else {
            None
        },
        None => None,
    }
}

fn read_duration(text: &str, chars: &Vec<char>, start: usize, end: usize) -> (r: Option<u64>)
    requires
        chars@ == text@,
        start <= end <= chars@.len(),
    ensures
        r == duration_of(chars@.subrange(start as int, end as int)),
{
    let ghost word = chars@.subrange(start as int, end as int);
    if end - start < 2 {
        return None;
    }
    assert(word.drop_last() =~= chars@.subrange(start as int, end - 1));
    let unit: char = chars[end - 1];
    let factor: u64 = if unit == 's' {
        1_000
    } else if unit == 'm' {
        60_000
    } else if unit == 'h' {
        3_600_000
    } else if unit == 'd' {
        86_400_000
    } else {
        return None;
    };
    match read_threshold(text, chars, start, end - 1) {
        Some(n) => n.checked_mul(factor),
        None => None,
    }
}

/// Reads the aggregation clause that the words of `text` from `pos` on
/// spell.
pub fn parse_clause(text: &str, pos: usize) -> (r: Option<AggregationClause>)
    ensures
        match r {
            Some(clause) => clause_of(text@, words_from(text@, pos as int)) == Some(
                clause_view(clause),
            ),
            None => clause_of(text@, words_from(text@, pos as int)) is None,
        },
{
    let chars = chars_of(text);
    let words = find_words(&chars, pos);
    let ghost spans = words_from(text@, pos as int);
    let n: usize = words.len();
    assert forall|k: int| 0 <= k < n implies word_at(text@, spans, k) == chars@.subrange(
        (#[trigger] words@[k]).0 as int,
        words@[k].1 as int,
    ) by {}
    let grouped: bool = n >= 3 && spells("by", &chars, words[1].0, words[1].1);
    let base: usize = if grouped { 3 } else { 1 };
    if n < 3 || (n != base + 2 && n != base + 4) {
        return None;
    }
    if n == base + 4 && !spells("within", &chars, words[base + 2].0, words[base + 2].1) {
        return None;
    }
    let mode = match read_count(text, &chars, words[0].0, words[0].1) {
        Some(mode) => mode,
        None => {
            return None;
        },
    };
    let op = match read_op(&chars, words[base].0, words[base].1) {
        Some(op) => op,
        None => {
            return None;
        },
    };
    let threshold = match read_threshold(text, &chars, words[base + 1].0, words[base + 1].1) {
        Some(threshold) => threshold,
        None => {
            return None;
        },
    };
    let group_by = if grouped {
        Some(in_text(text, &chars, words[2].0, words[2].1))
    } else {
        None
    };
    let window = if n == base + 4 {
        match read_duration(text, &chars, words[base + 3].0, words[base + 3].1) {
            Some(length) => Some(length),
            None => {
                return None;
            },
        }
    } else {
        None
    };
    Some(AggregationClause { mode, group_by, op, threshold, window })
}

/// Where the first `|` stands in `chars`, or their number where there is
/// none.
pub fn find_bar(chars: &Vec<char>) -> (at: usize)
    ensures
        at == bar_from(chars@, 0),
        at <= chars@.len(),
{
    let mut at: usize = 0;
    while at < chars.len() && chars[at] != '|'
        invariant
            at <= chars@.len(),
            bar_from(chars@, 0) == bar_from(chars@, at as int),
        decreases chars@.len() - at,
    {
        at += 1;
    }
    at
}

/// Reads the condition of a rule from its text form, with the aggregation
/// clause that may follow it after a `|`. Each name stands for the
/// selection of that name. What is wrong with the condition is reported
/// before what is wrong with the clause.
pub fn read_rule_condition(text: &str, selections: &Vec<NamedSelection>) -> (r: Result<
    (ConditionExpr, Option<AggregationClause>),
    ConditionError,
>)
    ensures
        ({
            let bar = bar_from(text@, 0);
            let head = text@.take(bar);
            match parsed(head) {
                Err(e) => r == Err::<(ConditionExpr, Option<AggregationClause>), ConditionError>(e),
                Ok(formula) => match formula.unknown(head, selections@) {
                    Some(at) => r == Err::<(ConditionExpr, Option<AggregationClause>), ConditionError>(
                        ConditionError::UnknownName(at),
                    ),
                    None => if bar >= text@.len() {
                        &&& r matches Ok((condition, clause))
                        &&& stands_for(condition, formula, head, selections@)
                        &&& clause is None
                    } else {
                        match clause_of(text@, words_from(text@, bar + 1)) {
                            Some(view) => {
                                &&& r matches Ok((condition, clause))
                                &&& stands_for(condition, formula, head, selections@)
                                &&& clause matches Some(c)
                                &&& clause_view(c) == view
                            },
                            None => r == Err::<
                                (ConditionExpr, Option<AggregationClause>),
                                ConditionError,
                            >(ConditionError::BadAggregation),
                        }
                    },
                },
            }
        }),
{
    let chars = chars_of(text);
    let bar = find_bar(&chars);
    let mut head: Vec<char> = Vec::new();
    let mut i: usize = 0;
    while i < bar
        invariant
            i <= bar <= chars@.len(),
            head@ == chars@.take(i as int),
        decreases bar - i,
    {
        head.push(chars[i]);
        assert(head@ =~= chars@.take(i + 1));
        i += 1;
    }
    let formula = match parse_chars(&head) {
        Ok(formula) => formula,
        Err(e) => {
            return Err(e);
        },
    };
    let condition = match instantiate(&formula, &head, selections) {
        Ok(condition) => condition,
        Err(e) => {
            return Err(e);
        },
    };
    if bar >= chars.len() {
        return Ok((condition, None));
    }
    match parse_clause(text, bar + 1) {
        Some(clause) => Ok((condition, Some(clause))),
        None => Err(ConditionError::BadAggregation),
    }
}

} // verus!
