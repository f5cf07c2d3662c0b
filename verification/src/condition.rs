//! The text form of a rule condition: names of selections joined by `and`,
//! `or` and `not`, with parentheses. `not` binds tighter than `and`, and
//! `and` tighter than `or`; `and` and `or` group from the left.

use vstd::prelude::*;
use crate::enrich::EnrichedRecord;
use crate::rule::{lemma_holds_unfold, lemma_mentions_unfold, mentioned_by, ConditionExpr};
use crate::text::{chars_of, spells};

verus! {

/// One word or sign of a condition.
#[derive(Clone, Copy, Debug, PartialEq, Eq, Structural)]
pub enum Token {
    Open,
    Close,
    And,
    Or,
    Not,
    /// A name: the characters of the text from `start` up to `end`.
    Name { start: usize, end: usize },
}

/// A condition over names of selections.
#[derive(Debug, PartialEq, Eq)]
pub enum Formula {
    And(Box<Formula>, Box<Formula>),
    Or(Box<Formula>, Box<Formula>),
    Not(Box<Formula>),
    /// The selection named by the characters of the text from `start` up
    /// to `end`.
    Name { start: usize, end: usize },
}

/// Why a text is no condition.
#[derive(Clone, Copy, Debug, PartialEq, Eq, Structural)]
pub enum ConditionError {
    /// The character at this place belongs to no word or sign.
    BadCharacter(usize),
    /// The words and signs do not make a condition.
    Malformed,
    /// The name that begins at this place is the name of no selection.
    UnknownName(usize),
    /// What follows the `|` is no aggregation clause.
    BadAggregation,
}

/// Whether `c` parts words without being one.
pub open spec fn is_space(c: char) -> bool {
    c == ' ' || c == '\t' || c == '\n' || c == '\r'
}

/// Whether `c` may stand in a word: a letter, a digit or `_`.
pub open spec fn is_name_char(c: char) -> bool {
    let u = c as u32;
    (48 <= u <= 57) || (65 <= u <= 90) || (97 <= u <= 122) || u == 95
}

/// Where the word ends that holds the character at `pos`.
pub open spec fn name_end(text: Seq<char>, pos: int) -> int
    decreases text.len() - pos,
{
    if 0 <= pos < text.len() && is_name_char(text[pos]) {
        name_end(text, pos + 1)
    } else {
        pos
    }
}

/// The token that the word from `start` up to `end` is: `and`, `or` and
/// `not` are the connectives, every other word is a name.
pub open spec fn word(text: Seq<char>, start: int, end: int) -> Token {
    let w = text.subrange(start, end);
    if w == seq!['a', 'n', 'd'] {
        Token::And
    } else if w == seq!['o', 'r'] {
        Token::Or
    } else if w == seq!['n', 'o', 't'] {
        Token::Not
    } else {
        Token::Name { start: start as usize, end: end as usize }
    }
}

/// `token` before the tokens of `rest`, where there are any.
pub open spec fn before(token: Token, rest: Result<Seq<Token>, int>) -> Result<Seq<Token>, int> {
    match rest {
        Ok(tokens) => Ok(seq![token] + tokens),
        Err(at) => Err(at),
    }
}

/// The tokens of `text` from `pos` on, or the place of the first character
/// that belongs to none.
pub open spec fn scan(text: Seq<char>, pos: int) -> Result<Seq<Token>, int>
    decreases text.len() - pos,
{
    if pos < 0 || pos >= text.len() {
        Ok(Seq::<Token>::empty())
    } else if is_space(text[pos]) {
        scan(text, pos + 1)
    } else if text[pos] == '(' {
        before(Token::Open, scan(text, pos + 1))
    } else if text[pos] == ')' {
        before(Token::Close, scan(text, pos + 1))
    } else if is_name_char(text[pos]) && pos < name_end(text, pos) <= text.len() {
        before(word(text, pos, name_end(text, pos)), scan(text, name_end(text, pos)))
    } else {
        Err(pos)
    }
}

/// A name or a condition in parentheses, from token `pos` on, and the
/// place of the token after it.
pub open spec fn parse_atom(tokens: Seq<Token>, pos: int) -> Option<(Formula, int)>
    decreases tokens.len() - pos, 0int,
{
    if pos < 0 || pos >= tokens.len() {
        None
    } else {
        match tokens[pos] {
            Token::Open => match parse_or(tokens, pos + 1) {
                Some((inner, next)) => if 0 <= next < tokens.len() && tokens[next] == Token::Close {
                    Some((inner, next + 1))
                } else {
                    None
                },
                None => None,
            },
            Token::Name { start, end } => Some((Formula::Name { start, end }, pos + 1)),
            _ => None,
        }
    }
}

/// An atom with any number of `not` before it.
pub open spec fn parse_not(tokens: Seq<Token>, pos: int) -> Option<(Formula, int)>
    decreases tokens.len() - pos, 1int,
{
    if 0 <= pos < tokens.len() && tokens[pos] == Token::Not {
        match parse_not(tokens, pos + 1) {
            Some((inner, next)) => Some((Formula::Not(Box::new(inner)), next)),
            None => None,
        }
    } else {
        parse_atom(tokens, pos)
    }
}

/// What follows the left side of a conjunction: any number of `and` with
/// a negation after each.
pub open spec fn and_tail(tokens: Seq<Token>, left: Formula, pos: int) -> Option<(Formula, int)>
    decreases tokens.len() - pos, 2int,
{
    if 0 <= pos < tokens.len() && tokens[pos] == Token::And {
        match parse_not(tokens, pos + 1) {
            Some((right, next)) => if pos < next <= tokens.len() {
                and_tail(tokens, Formula::And(Box::new(left), Box::new(right)), next)
            } else {
                None
            },
            None => None,
        }
    } else {
        Some((left, pos))
    }
}

/// Negations joined by `and`.
pub open spec fn parse_and(tokens: Seq<Token>, pos: int) -> Option<(Formula, int)>
    decreases tokens.len() - pos, 3int,
{
    match parse_not(tokens, pos) {
        Some((left, next)) => if pos <= next <= tokens.len() {
            and_tail(tokens, left, next)
        } else {
            None
        },
        None => None,
    }
}

/// What follows the left side of a disjunction: any number of `or` with a
/// conjunction after each.
pub open spec fn or_tail(tokens: Seq<Token>, left: Formula, pos: int) -> Option<(Formula, int)>
    decreases tokens.len() - pos, 4int,
{
    if 0 <= pos < tokens.len() && tokens[pos] == Token::Or {
        match parse_and(tokens, pos + 1) {
            Some((right, next)) => if pos < next <= tokens.len() {
                or_tail(tokens, Formula::Or(Box::new(left), Box::new(right)), next)
            } else {
                None
            },
            None => None,
        }
    } else {
        Some((left, pos))
    }
}

/// Conjunctions joined by `or`.
pub open spec fn parse_or(tokens: Seq<Token>, pos: int) -> Option<(Formula, int)>
    decreases tokens.len() - pos, 5int,
{
    match parse_and(tokens, pos) {
        Some((left, next)) => if pos <= next <= tokens.len() {
            or_tail(tokens, left, next)
        } else {
            None
        },
        None => None,
    }
}

/// The condition that `text` spells: its tokens have to make one
/// disjunction, with no token left over.
pub open spec fn parsed(text: Seq<char>) -> Result<Formula, ConditionError> {
    match scan(text, 0) {
        Err(at) => Err(ConditionError::BadCharacter(at as usize)),
        Ok(tokens) => match parse_or(tokens, 0) {
            Some((formula, next)) => if next == tokens.len() {
                Ok(formula)
            } else {
                Err(ConditionError::Malformed)
            },
            None => Err(ConditionError::Malformed),
        },
    }
}

/// A condition written out in tokens, with parentheses round every part
/// that is not a name.
pub open spec fn spelled(formula: Formula) -> Seq<Token>
    decreases formula,
{
    match formula {
        Formula::Name { start, end } => seq![Token::Name { start, end }],
        Formula::Not(a) => seq![Token::Not, Token::Open] + spelled(*a) + seq![Token::Close],
        Formula::And(a, b) => seq![Token::Open] + spelled(*a) + seq![
            Token::Close,
            Token::And,
            Token::Open,
        ] + spelled(*b) + seq![Token::Close],
        Formula::Or(a, b) => seq![Token::Open] + spelled(*a) + seq![
            Token::Close,
            Token::Or,
            Token::Open,
        ] + spelled(*b) + seq![Token::Close],
    }
}

proof fn lemma_tails_stop(tokens: Seq<Token>, left: Formula, pos: int)
    requires
        0 <= pos <= tokens.len(),
        pos == tokens.len() || tokens[pos] == Token::Close,
    ensures
        and_tail(tokens, left, pos) == Some((left, pos)),
        or_tail(tokens, left, pos) == Some((left, pos)),
{
}

proof fn lemma_reads_parentheses(tokens: Seq<Token>, pos: int, inner: Formula, next: int)
    requires
        0 <= pos < next < tokens.len(),
        tokens[pos] == Token::Open,
        parse_or(tokens, pos + 1) == Some((inner, next)),
        tokens[next] == Token::Close,
    ensures
        parse_atom(tokens, pos) == Some((inner, next + 1)),
        parse_not(tokens, pos) == Some((inner, next + 1)),
{
}

proof fn lemma_reads_name(tokens: Seq<Token>, pos: int, start: usize, end: usize)
    requires
        0 <= pos < tokens.len(),
        tokens[pos] == (Token::Name { start, end }),
        pos + 1 == tokens.len() || tokens[pos + 1] == Token::Close,
    ensures
        parse_or(tokens, pos) == Some((Formula::Name { start, end }, pos + 1)),
{
    let f = Formula::Name { start, end };
    assert(parse_atom(tokens, pos) == Some((f, pos + 1)));
    assert(parse_not(tokens, pos) == Some((f, pos + 1)));
    lemma_tails_stop(tokens, f, pos + 1);
    assert(parse_and(tokens, pos) == Some((f, pos + 1)));
}

proof fn lemma_reads_not(tokens: Seq<Token>, pos: int, inner: Formula, end: int)
    requires
        0 <= pos,
        pos + 1 < end <= tokens.len(),
        tokens[pos] == Token::Not,
        parse_not(tokens, pos + 1) == Some((inner, end)),
        end == tokens.len() || tokens[end] == Token::Close,
    ensures
        parse_or(tokens, pos) == Some((Formula::Not(Box::new(inner)), end)),
{
    let f = Formula::Not(Box::new(inner));
    assert(parse_not(tokens, pos) == Some((f, end)));
    lemma_tails_stop(tokens, f, end);
    assert(parse_and(tokens, pos) == Some((f, end)));
}

proof fn lemma_reads_and(tokens: Seq<Token>, pos: int, a: Formula, mid: int, b: Formula, end: int)
    requires
        0 <= pos < mid,
        mid + 1 < end <= tokens.len(),
        parse_not(tokens, pos) == Some((a, mid)),
        tokens[mid] == Token::And,
        parse_not(tokens, mid + 1) == Some((b, end)),
        end == tokens.len() || tokens[end] == Token::Close,
    ensures
        parse_or(tokens, pos) == Some((Formula::And(Box::new(a), Box::new(b)), end)),
{
    let f = Formula::And(Box::new(a), Box::new(b));
    lemma_tails_stop(tokens, f, end);
    assert(and_tail(tokens, a, mid) == Some((f, end)));
    assert(parse_and(tokens, pos) == Some((f, end)));
}

proof fn lemma_reads_or(tokens: Seq<Token>, pos: int, a: Formula, mid: int, b: Formula, end: int)
    requires
        0 <= pos < mid,
        mid + 1 < end <= tokens.len(),
        parse_not(tokens, pos) == Some((a, mid)),
        tokens[mid] == Token::Or,
        parse_not(tokens, mid + 1) == Some((b, end)),
        end == tokens.len() || tokens[end] == Token::Close,
    ensures
        parse_or(tokens, pos) == Some((Formula::Or(Box::new(a), Box::new(b)), end)),
{
    let f = Formula::Or(Box::new(a), Box::new(b));
    assert(and_tail(tokens, a, mid) == Some((a, mid)));
    assert(parse_and(tokens, pos) == Some((a, mid)));
    lemma_tails_stop(tokens, b, end);
    assert(parse_and(tokens, mid + 1) == Some((b, end)));
    lemma_tails_stop(tokens, f, end);
    assert(or_tail(tokens, a, mid) == Some((f, end)));
}

proof fn lemma_part_of(tokens: Seq<Token>, pos: int, all: Seq<Token>, from: int, part: Seq<Token>)
    requires
        0 <= pos,
        pos + all.len() <= tokens.len(),
        tokens.subrange(pos, pos + all.len()) == all,
        0 <= from,
        from + part.len() <= all.len(),
        all.subrange(from, from + part.len()) == part,
    ensures
        tokens.subrange(pos + from, pos + from + part.len()) == part,
{
    assert forall|k: int| 0 <= k < part.len() implies tokens[pos + from + k] == part[k] by {
        assert(tokens.subrange(pos, pos + all.len())[from + k] == tokens[pos + from + k]);
        assert(all.subrange(from, from + part.len())[k] == all[from + k]);
    }
    assert(tokens.subrange(pos + from, pos + from + part.len()) =~= part);
}

proof fn lemma_token_of(tokens: Seq<Token>, pos: int, all: Seq<Token>, k: int)
    requires
        0 <= pos,
        pos + all.len() <= tokens.len(),
        tokens.subrange(pos, pos + all.len()) == all,
        0 <= k < all.len(),
    ensures
        tokens[pos + k] == all[k],
{
    assert(tokens.subrange(pos, pos + all.len())[k] == tokens[pos + k]);
}

proof fn lemma_spelled_not(a: Formula)
    ensures
        ({
            let all = spelled(Formula::Not(Box::new(a)));
            let m = spelled(a).len() as int;
            &&& all.len() == m + 3
            &&& all[0] == Token::Not
            &&& all[1] == Token::Open
            &&& all[m + 2] == Token::Close
            &&& all.subrange(2, 2 + m) == spelled(a)
        }),
{
    let all = spelled(Formula::Not(Box::new(a)));
    let m = spelled(a).len() as int;
    assert(all =~= seq![Token::Not, Token::Open] + spelled(a) + seq![Token::Close]);
    assert(all.subrange(2, 2 + m) =~= spelled(a));
}

proof fn lemma_spelled_pair(a: Formula, b: Formula, all: Seq<Token>, sign: Token)
    requires
        all == seq![Token::Open] + spelled(a) + seq![Token::Close, sign, Token::Open] + spelled(b)
            + seq![Token::Close],
    ensures
        ({
            let m = spelled(a).len() as int;
            let r = spelled(b).len() as int;
            &&& all.len() == m + r + 5
            &&& all[0] == Token::Open
            &&& all[m + 1] == Token::Close
            &&& all[m + 2] == sign
            &&& all[m + 3] == Token::Open
            &&& all[m + r + 4] == Token::Close
            &&& all.subrange(1, 1 + m) == spelled(a)
            &&& all.subrange(4 + m, 4 + m + r) == spelled(b)
        }),
{
    let m = spelled(a).len() as int;
    let r = spelled(b).len() as int;
    assert(all.subrange(1, 1 + m) =~= spelled(a));
    assert(all.subrange(4 + m, 4 + m + r) =~= spelled(b));
}

proof fn lemma_reads_spelled_not(tokens: Seq<Token>, pos: int, a: Formula)
    requires
        0 <= pos,
        pos + spelled(a).len() + 3 <= tokens.len(),
        tokens[pos] == Token::Not,
        tokens[pos + 1] == Token::Open,
        tokens[pos + 2 + spelled(a).len()] == Token::Close,
        parse_or(tokens, pos + 2) == Some((a, pos + 2 + spelled(a).len())),
        pos + spelled(a).len() + 3 == tokens.len() || tokens[pos + spelled(a).len() + 3]
            == Token::Close,
        spelled(a).len() >= 1,
    ensures
        parse_or(tokens, pos) == Some((Formula::Not(Box::new(a)), pos + spelled(a).len() + 3)),
{
    let m = spelled(a).len() as int;
    lemma_reads_parentheses(tokens, pos + 1, a, pos + 2 + m);
    lemma_reads_not(tokens, pos, a, pos + m + 3);
}

proof fn lemma_reads_spelled_pair(tokens: Seq<Token>, pos: int, a: Formula, b: Formula, sign: Token)
    requires
        0 <= pos,
        sign == Token::And || sign == Token::Or,
        spelled(a).len() >= 1,
        spelled(b).len() >= 1,
        pos + spelled(a).len() + spelled(b).len() + 5 <= tokens.len(),
        tokens[pos] == Token::Open,
        tokens[pos + 1 + spelled(a).len()] == Token::Close,
        tokens[pos + 2 + spelled(a).len()] == sign,
        tokens[pos + 3 + spelled(a).len()] == Token::Open,
        tokens[pos + 4 + spelled(a).len() + spelled(b).len()] == Token::Close,
        parse_or(tokens, pos + 1) == Some((a, pos + 1 + spelled(a).len())),
        parse_or(tokens, pos + 4 + spelled(a).len()) == Some(
            (b, pos + 4 + spelled(a).len() + spelled(b).len()),
        ),
        pos + spelled(a).len() + spelled(b).len() + 5 == tokens.len() || tokens[pos + spelled(
            a,
        ).len() + spelled(b).len() + 5] == Token::Close,
    ensures
        sign == Token::And ==> parse_or(tokens, pos) == Some(
            (Formula::And(Box::new(a), Box::new(b)), pos + spelled(a).len() + spelled(b).len() + 5),
        ),
        sign == Token::Or ==> parse_or(tokens, pos) == Some(
            (Formula::Or(Box::new(a), Box::new(b)), pos + spelled(a).len() + spelled(b).len() + 5),
        ),
{
    let m = spelled(a).len() as int;
    let r = spelled(b).len() as int;
    lemma_reads_parentheses(tokens, pos, a, pos + 1 + m);
    lemma_reads_parentheses(tokens, pos + 3 + m, b, pos + 4 + m + r);
    if sign == Token::And {
        lemma_reads_and(tokens, pos, a, pos + 2 + m, b, pos + m + r + 5);
    } else {
        lemma_reads_or(tokens, pos, a, pos + 2 + m, b, pos + m + r + 5);
    }
}

proof fn lemma_spelled_len(formula: Formula)
    ensures
        spelled(formula).len() >= 1,
    decreases formula,
{
    match formula {
        Formula::Name { .. } => {},
        Formula::Not(a) => {
            lemma_spelled_not(*a);
        },
        Formula::And(a, b) => {
            lemma_spelled_pair(*a, *b, spelled(formula), Token::And);
        },
        Formula::Or(a, b) => {
            lemma_spelled_pair(*a, *b, spelled(formula), Token::Or);
        },
    }
}

proof fn lemma_reads_spelled_under_not(tokens: Seq<Token>, pos: int, formula: Formula, a: Formula)
    requires
        formula == Formula::Not(Box::new(a)),
        0 <= pos,
        pos + spelled(formula).len() <= tokens.len(),
        tokens.subrange(pos, pos + spelled(formula).len()) == spelled(formula),
        pos + spelled(formula).len() == tokens.len() || tokens[pos + spelled(formula).len()]
            == Token::Close,
    ensures
        parse_or(tokens, pos) == Some((formula, pos + spelled(formula).len())),
    decreases formula, 0int,
{
    let all = spelled(formula);
    let m = spelled(a).len() as int;
    lemma_spelled_len(a);
    lemma_spelled_not(a);
    lemma_token_of(tokens, pos, all, 0);
    lemma_token_of(tokens, pos, all, 1);
    lemma_token_of(tokens, pos, all, m + 2);
    lemma_part_of(tokens, pos, all, 2, spelled(a));
    lemma_reads_spelled(tokens, pos + 2, a);
    lemma_reads_spelled_not(tokens, pos, a);
}

proof fn lemma_reads_spelled_under_pair(
    tokens: Seq<Token>,
    pos: int,
    formula: Formula,
    a: Formula,
    b: Formula,
    sign: Token,
)
    requires
        (sign == Token::And && formula == Formula::And(Box::new(a), Box::new(b))) || (sign
            == Token::Or && formula == Formula::Or(Box::new(a), Box::new(b))),
        0 <= pos,
        pos + spelled(formula).len() <= tokens.len(),
        tokens.subrange(pos, pos + spelled(formula).len()) == spelled(formula),
        pos + spelled(formula).len() == tokens.len() || tokens[pos + spelled(formula).len()]
            == Token::Close,
    ensures
        parse_or(tokens, pos) == Some((formula, pos + spelled(formula).len())),
    decreases formula, 0int,
{
    let all = spelled(formula);
    let m = spelled(a).len() as int;
    let r = spelled(b).len() as int;
    lemma_spelled_len(a);
    lemma_spelled_len(b);
    lemma_spelled_pair(a, b, all, sign);
    lemma_token_of(tokens, pos, all, 0);
    lemma_token_of(tokens, pos, all, m + 1);
    lemma_token_of(tokens, pos, all, m + 2);
    lemma_token_of(tokens, pos, all, m + 3);
    lemma_token_of(tokens, pos, all, m + r + 4);
    lemma_part_of(tokens, pos, all, 1, spelled(a));
    lemma_part_of(tokens, pos, all, 4 + m, spelled(b));
    lemma_reads_spelled(tokens, pos + 1, a);
    lemma_reads_spelled(tokens, pos + 4 + m, b);
    lemma_reads_spelled_pair(tokens, pos, a, b, sign);
}

proof fn lemma_reads_spelled(tokens: Seq<Token>, pos: int, formula: Formula)
    requires
        0 <= pos,
        pos + spelled(formula).len() <= tokens.len(),
        tokens.subrange(pos, pos + spelled(formula).len()) == spelled(formula),
        pos + spelled(formula).len() == tokens.len() || tokens[pos + spelled(formula).len()]
            == Token::Close,
    ensures
        parse_or(tokens, pos) == Some((formula, pos + spelled(formula).len())),
    decreases formula, 1int,
{
    match formula {
        Formula::Name { start, end } => {
            lemma_token_of(tokens, pos, spelled(formula), 0);
            lemma_reads_name(tokens, pos, start, end);
        },
        Formula::Not(a) => {
            lemma_reads_spelled_under_not(tokens, pos, formula, *a);
        },
        Formula::And(a, b) => {
            lemma_reads_spelled_under_pair(tokens, pos, formula, *a, *b, Token::And);
        },
        Formula::Or(a, b) => {
            lemma_reads_spelled_under_pair(tokens, pos, formula, *a, *b, Token::Or);
        },
    }
}

/// Every condition can be written down and read back: the tokens of a
/// condition written out with all its parentheses make that condition and
/// no other, with no token left over.
pub proof fn lemma_spelled_reads_back(formula: Formula)
    ensures
        parse_or(spelled(formula), 0) == Some((formula, spelled(formula).len() as int)),
{
    let all = spelled(formula);
    assert(all.subrange(0, all.len() as int) =~= all);
    lemma_reads_spelled(all, 0, formula);
}

/// `done` and then the tokens of `rest`, where there are any.
pub open spec fn after(done: Seq<Token>, rest: Result<Seq<Token>, int>) -> Result<Seq<Token>, int> {
    match rest {
        Ok(tokens) => Ok(done + tokens),
        Err(at) => Err(at),
    }
}

proof fn lemma_after_before(done: Seq<Token>, token: Token, rest: Result<Seq<Token>, int>)
    ensures
        after(done, before(token, rest)) == after(done.push(token), rest),
{
    match rest {
        Ok(tokens) => {
            assert(done + (seq![token] + tokens) =~= done.push(token) + tokens);
        },
        Err(_) => {},
    }
}

fn name_char(c: char) -> (r: bool)
    ensures
        r == is_name_char(c),
{
    let u: u32 = c as u32;
    (48 <= u && u <= 57) || (65 <= u && u <= 90) || (97 <= u && u <= 122) || u == 95
}

/// Cuts the characters of a condition into tokens. The error is the place
/// of the first character that belongs to no token.
pub fn tokenize(chars: &Vec<char>) -> (r: Result<Vec<Token>, usize>)
    ensures
        match r {
            Ok(tokens) => scan(chars@, 0) == Ok::<Seq<Token>, int>(tokens@),
            Err(at) => scan(chars@, 0) == Err::<Seq<Token>, int>(at as int),
        },
{
    let mut out: Vec<Token> = Vec::new();
    let mut pos: usize = 0;
    assert(Seq::<Token>::empty() + Seq::<Token>::empty() =~= Seq::<Token>::empty());
    while pos < chars.len()
        invariant
            pos <= chars@.len(),
            scan(chars@, 0) == after(out@, scan(chars@, pos as int)),
        decreases chars@.len() - pos,
    {
        let c: char = chars[pos];
        if c == ' ' || c == '\t' || c == '\n' || c == '\r' {
            pos += 1;
        } else if c == '(' {
            proof {
                lemma_after_before(out@, Token::Open, scan(chars@, pos + 1));
            }
            out.push(Token::Open);
            pos += 1;
        } else if c == ')' {
            proof {
                lemma_after_before(out@, Token::Close, scan(chars@, pos + 1));
            }
            out.push(Token::Close);
            pos += 1;
        } else if name_char(c) {
            let mut end: usize = pos + 1;
            while end < chars.len() && name_char(chars[end])
                invariant
                    pos < end <= chars@.len(),
                    name_end(chars@, pos as int) == name_end(chars@, end as int),
                decreases chars@.len() - end,
            {
                end += 1;
            }
            let ghost w = chars@.subrange(pos as int, end as int);
            let n: usize = end - pos;
            let token = if n == 3 && chars[pos] == 'a' && chars[pos + 1] == 'n' && chars[pos + 2]
                == 'd' {
                assert(w =~= seq!['a', 'n', 'd']);
                Token::And
            } else if n == 2 && chars[pos] == 'o' && chars[pos + 1] == 'r' {
                assert(w =~= seq!['o', 'r']);
                Token::Or
            } else if n == 3 && chars[pos] == 'n' && chars[pos + 1] == 'o' && chars[pos + 2]
                == 't' {
                assert(w =~= seq!['n', 'o', 't']);
                Token::Not
            } else {
                proof {
                    if w == seq!['a', 'n', 'd'] {
                        assert(w.len() == 3 && w[0] == 'a' && w[1] == 'n' && w[2] == 'd');
                    }
                    if w == seq!['o', 'r'] {
                        assert(w.len() == 2 && w[0] == 'o' && w[1] == 'r');
                    }
                    if w == seq!['n', 'o', 't'] {
                        assert(w.len() == 3 && w[0] == 'n' && w[1] == 'o' && w[2] == 't');
                    }
                }
                Token::Name { start: pos, end }
            };
            proof {
                assert(name_end(chars@, end as int) == end);
                assert(name_end(chars@, pos as int) == end);
                assert(token == word(chars@, pos as int, end as int));
                lemma_after_before(out@, token, scan(chars@, end as int));
            }
            out.push(token);
            pos = end;
        } else {
            return Err(pos);
        }
    }
    assert(out@ + Seq::<Token>::empty() =~= out@);
    Ok(out)
}

fn atom(tokens: &Vec<Token>, pos: usize) -> (r: Option<(Formula, usize)>)
    ensures
        match r {
            Some((f, next)) => parse_atom(tokens@, pos as int) == Some((f, next as int)) && pos
                < next <= tokens@.len(),
            None => parse_atom(tokens@, pos as int) is None,
        },
    decreases tokens@.len() - pos, 0int,
{
    if pos >= tokens.len() {
        return None;
    }
    match tokens[pos] {
        Token::Open => match disjunction(tokens, pos + 1) {
            Some((inner, next)) => {
                if next < tokens.len() {
                    match tokens[next] {
                        Token::Close => Some((inner, next + 1)),
                        _ => None,
                    }
                } else {
                    None
                }
            },
            None => None,
        },
        Token::Name { start, end } => Some((Formula::Name { start, end }, pos + 1)),
        _ => None,
    }
}

fn negation(tokens: &Vec<Token>, pos: usize) -> (r: Option<(Formula, usize)>)
    ensures
        match r {
            Some((f, next)) => parse_not(tokens@, pos as int) == Some((f, next as int)) && pos
                < next <= tokens@.len(),
            None => parse_not(tokens@, pos as int) is None,
        },
    decreases tokens@.len() - pos, 1int,
{
    if pos < tokens.len() {
        match tokens[pos] {
            Token::Not => {
                return match negation(tokens, pos + 1) {
                    Some((inner, next)) => Some((Formula::Not(Box::new(inner)), next)),
                    None => None,
                };
            },
            _ => {},
        }
    }
    atom(tokens, pos)
}

fn conjunction_tail(tokens: &Vec<Token>, left: Formula, pos: usize) -> (r: Option<(Formula, usize)>)
    requires
        pos <= tokens@.len(),
    ensures
        match r {
            Some((f, next)) => and_tail(tokens@, left, pos as int) == Some((f, next as int)) && pos
                <= next <= tokens@.len(),
            None => and_tail(tokens@, left, pos as int) is None,
        },
    decreases tokens@.len() - pos, 2int,
{
    if pos < tokens.len() {
        match tokens[pos] {
            Token::And => {
                return match negation(tokens, pos + 1) {
                    Some((right, next)) => conjunction_tail(
                        tokens,
                        Formula::And(Box::new(left), Box::new(right)),
                        next,
                    ),
                    None => None,
                };
            },
            _ => {},
        }
    }
    Some((left, pos))
}

fn conjunction(tokens: &Vec<Token>, pos: usize) -> (r: Option<(Formula, usize)>)
    ensures
        match r {
            Some((f, next)) => parse_and(tokens@, pos as int) == Some((f, next as int)) && pos
                < next <= tokens@.len(),
            None => parse_and(tokens@, pos as int) is None,
        },
    decreases tokens@.len() - pos, 3int,
{
    match negation(tokens, pos) {
        Some((left, next)) => conjunction_tail(tokens, left, next),
        None => None,
    }
}

fn disjunction_tail(tokens: &Vec<Token>, left: Formula, pos: usize) -> (r: Option<(Formula, usize)>)
    requires
        pos <= tokens@.len(),
    ensures
        match r {
            Some((f, next)) => or_tail(tokens@, left, pos as int) == Some((f, next as int)) && pos
                <= next <= tokens@.len(),
            None => or_tail(tokens@, left, pos as int) is None,
        },
    decreases tokens@.len() - pos, 4int,
{
    if pos < tokens.len() {
        match tokens[pos] {
            Token::Or => {
                return match conjunction(tokens, pos + 1) {
                    Some((right, next)) => disjunction_tail(
                        tokens,
                        Formula::Or(Box::new(left), Box::new(right)),
                        next,
                    ),
                    None => None,
                };
            },
            _ => {},
        }
    }
    Some((left, pos))
}

fn disjunction(tokens: &Vec<Token>, pos: usize) -> (r: Option<(Formula, usize)>)
    ensures
        match r {
            Some((f, next)) => parse_or(tokens@, pos as int) == Some((f, next as int)) && pos
                < next <= tokens@.len(),
            None => parse_or(tokens@, pos as int) is None,
        },
    decreases tokens@.len() - pos, 5int,
{
    match conjunction(tokens, pos) {
        Some((left, next)) => disjunction_tail(tokens, left, next),
        None => None,
    }
}

/// Reads a condition. Names stay what they are in the text: places in it.
pub fn parse_condition(text: &str) -> (r: Result<Formula, ConditionError>)
    ensures
        r == parsed(text@),
{
    let chars = chars_of(text);
    parse_chars(&chars)
}

/// Reads a condition from its characters.
pub fn parse_chars(chars: &Vec<char>) -> (r: Result<Formula, ConditionError>)
    ensures
        r == parsed(chars@),
{
    match tokenize(chars) {
        Err(at) => Err(ConditionError::BadCharacter(at)),
        Ok(tokens) => match disjunction(&tokens, 0) {
            Some((formula, next)) => {
                if next == tokens.len() {
                    Ok(formula)
                } else {
                    Err(ConditionError::Malformed)
                }
            },
            None => Err(ConditionError::Malformed),
        },
    }
}

/// A selection and the name by which conditions call it.
#[derive(Debug, PartialEq, Eq)]
pub struct NamedSelection {
    pub name: String,
    pub condition: ConditionExpr,
}

/// The place of the first selection from `from` on that is called `name`.
pub open spec fn selection_from(selections: Seq<NamedSelection>, name: Seq<char>, from: int) -> Option<
    int,
>
    decreases selections.len() - from,
{
    if from < 0 || from >= selections.len() {
        None
    } else if selections[from].name@ == name {
        Some(from)
    } else {
        selection_from(selections, name, from + 1)
    }
}

/// The selection that the characters of `text` from `start` up to `end`
/// name: the first of that name.
pub open spec fn named(
    text: Seq<char>,
    selections: Seq<NamedSelection>,
    start: usize,
    end: usize,
) -> Option<int> {
    if start <= end <= text.len() {
        selection_from(selections, text.subrange(start as int, end as int), 0)
    } else {
        None
    }
}

impl Formula {
    /// Where the first name begins, from left to right, that names no
    /// selection; `None` when every name names one.
    pub open spec fn unknown(self, text: Seq<char>, selections: Seq<NamedSelection>) -> Option<
        usize,
    >
        decreases self,
    {
        match self {
            Formula::And(a, b) => match a.unknown(text, selections) {
                Some(at) => Some(at),
                None => b.unknown(text, selections),
            },
            Formula::Or(a, b) => match a.unknown(text, selections) {
                Some(at) => Some(at),
                None => b.unknown(text, selections),
            },
            Formula::Not(a) => a.unknown(text, selections),
            Formula::Name { start, end } => if named(text, selections, start, end) is Some {
                None
            } else {
                Some(start)
            },
        }
    }

    /// Whether the formula holds of `rec` when each name stands for its
    /// selection.
    pub open spec fn holds(
        self,
        text: Seq<char>,
        selections: Seq<NamedSelection>,
        rec: EnrichedRecord,
    ) -> bool
        decreases self,
    {
        match self {
            Formula::And(a, b) => a.holds(text, selections, rec) && b.holds(text, selections, rec),
            Formula::Or(a, b) => a.holds(text, selections, rec) || b.holds(text, selections, rec),
            Formula::Not(a) => !a.holds(text, selections, rec),
            Formula::Name { start, end } => match named(text, selections, start, end) {
                Some(k) => selections[k].condition.holds(rec),
                None => false,
            },
        }
    }

    /// Whether a selection that the formula names reads the field at
    /// `key`.
    pub open spec fn mentions(
        self,
        text: Seq<char>,
        selections: Seq<NamedSelection>,
        key: Seq<char>,
    ) -> bool
        decreases self,
    {
        match self {
            Formula::And(a, b) => a.mentions(text, selections, key) || b.mentions(
                text,
                selections,
                key,
            ),
            Formula::Or(a, b) => a.mentions(text, selections, key) || b.mentions(
                text,
                selections,
                key,
            ),
            Formula::Not(a) => a.mentions(text, selections, key),
            Formula::Name { start, end } => match named(text, selections, start, end) {
                Some(k) => selections[k].condition.mentions(key),
                None => false,
            },
        }
    }
}

/// Whether `condition` is what `formula` says once each name stands for
/// its selection: the two hold of the same records and read the same
/// fields.
pub open spec fn stands_for(
    condition: ConditionExpr,
    formula: Formula,
    text: Seq<char>,
    selections: Seq<NamedSelection>,
) -> bool {
    &&& forall|rec: EnrichedRecord| #[trigger]
        condition.holds(rec) == formula.holds(text, selections, rec)
    &&& forall|key: Seq<char>| #[trigger]
        condition.mentions(key) == formula.mentions(text, selections, key)
}

proof fn lemma_pair(a: ConditionExpr, b: ConditionExpr, pair: Vec<ConditionExpr>)
    requires
        pair@ == seq![a, b],
    ensures
        forall|rec: EnrichedRecord| #[trigger]
            ConditionExpr::And(pair).holds(rec) == (a.holds(rec) && b.holds(rec)),
        forall|rec: EnrichedRecord| #[trigger]
            ConditionExpr::Or(pair).holds(rec) == (a.holds(rec) || b.holds(rec)),
        forall|key: Seq<char>| #[trigger]
            ConditionExpr::And(pair).mentions(key) == (a.mentions(key) || b.mentions(key)),
        forall|key: Seq<char>| #[trigger]
            ConditionExpr::Or(pair).mentions(key) == (a.mentions(key) || b.mentions(key)),
{
    assert forall|rec: EnrichedRecord| #[trigger]
        ConditionExpr::And(pair).holds(rec) == (a.holds(rec) && b.holds(rec)) by {
        lemma_holds_unfold(pair, rec);
        assert(pair@[0] == a && pair@[1] == b);
    }
    assert forall|rec: EnrichedRecord| #[trigger]
        ConditionExpr::Or(pair).holds(rec) == (a.holds(rec) || b.holds(rec)) by {
        lemma_holds_unfold(pair, rec);
        assert(pair@[0] == a && pair@[1] == b);
    }
    lemma_mentions_unfold(pair);
    assert forall|key: Seq<char>|
        mentioned_by(pair@, key, 2) == (a.mentions(key) || b.mentions(key)) by {
        assert(pair@[0] == a && pair@[1] == b);
        if a.mentions(key) {
            assert(pair@[0].mentions(key));
        }
        if b.mentions(key) {
            assert(pair@[1].mentions(key));
        }
    }
}

/// Puts for each name of `formula` the selection of that name. `chars` are
/// the characters of the text that the formula was read from.
pub fn instantiate(formula: &Formula, chars: &Vec<char>, selections: &Vec<NamedSelection>) -> (r:
    Result<ConditionExpr, ConditionError>)
    ensures
        match r {
            Ok(condition) => {
                &&& formula.unknown(chars@, selections@) is None
                &&& stands_for(condition, *formula, chars@, selections@)
            },
            Err(e) => {
                &&& formula.unknown(chars@, selections@) matches Some(at)
                &&& e == ConditionError::UnknownName(at)
            },
        },
    decreases *formula,
{
    match formula {
        Formula::And(a, b) => {
            let left = match instantiate(a, chars, selections) {
                Ok(c) => c,
                Err(e) => {
                    return Err(e);
                },
            };
            let right = match instantiate(b, chars, selections) {
                Ok(c) => c,
                Err(e) => {
                    return Err(e);
                },
            };
            let ghost l = left;
            let ghost r = right;
            let mut pair: Vec<ConditionExpr> = Vec::new();
            pair.push(left);
            pair.push(right);
            let made = ConditionExpr::And(pair);
            proof {
                assert(pair@ =~= seq![l, r]);
                lemma_pair(l, r, pair);
                assert(formula.unknown(chars@, selections@) is None);
                assert forall|rec: EnrichedRecord| #[trigger]
                    made.holds(rec) == formula.holds(chars@, selections@, rec) by {
                    assert(l.holds(rec) == a.holds(chars@, selections@, rec));
                    assert(r.holds(rec) == b.holds(chars@, selections@, rec));
                }
                assert forall|key: Seq<char>| #[trigger]
                    made.mentions(key) == formula.mentions(chars@, selections@, key) by {
                    assert(l.mentions(key) == a.mentions(chars@, selections@, key));
                    assert(r.mentions(key) == b.mentions(chars@, selections@, key));
                }
            }
            Ok(made)
        },
        Formula::Or(a, b) => {
            let left = match instantiate(a, chars, selections) {
                Ok(c) => c,
                Err(e) => {
                    return Err(e);
                },
            };
            let right = match instantiate(b, chars, selections) {
                Ok(c) => c,
                Err(e) => {
                    return Err(e);
                },
            };
            let ghost l = left;
            let ghost r = right;
            let mut pair: Vec<ConditionExpr> = Vec::new();
            pair.push(left);
            pair.push(right);
            let made = ConditionExpr::Or(pair);
            proof {
                assert(pair@ =~= seq![l, r]);
                lemma_pair(l, r, pair);
                assert(formula.unknown(chars@, selections@) is None);
                assert forall|rec: EnrichedRecord| #[trigger]
                    made.holds(rec) == formula.holds(chars@, selections@, rec) by {
                    assert(l.holds(rec) == a.holds(chars@, selections@, rec));
                    assert(r.holds(rec) == b.holds(chars@, selections@, rec));
                }
                assert forall|key: Seq<char>| #[trigger]
                    made.mentions(key) == formula.mentions(chars@, selections@, key) by {
                    assert(l.mentions(key) == a.mentions(chars@, selections@, key));
                    assert(r.mentions(key) == b.mentions(chars@, selections@, key));
                }
            }
            Ok(made)
        },
        Formula::Not(a) => match instantiate(a, chars, selections) {
            Ok(c) => {
                let made = ConditionExpr::Not(Box::new(c));
                proof {
                    assert forall|rec: EnrichedRecord| #[trigger]
                        made.holds(rec) == formula.holds(chars@, selections@, rec) by {
                        assert(c.holds(rec) == a.holds(chars@, selections@, rec));
                    }
                    assert forall|key: Seq<char>| #[trigger]
                        made.mentions(key) == formula.mentions(chars@, selections@, key) by {
                        assert(c.mentions(key) == a.mentions(chars@, selections@, key));
                    }
                }
                Ok(made)
            },
            Err(e) => Err(e),
        },
        Formula::Name { start, end } => {
            if !(*start <= *end && *end <= chars.len()) {
                return Err(ConditionError::UnknownName(*start));
            }
            let ghost name = chars@.subrange(*start as int, *end as int);
            let mut i: usize = 0;
            while i < selections.len()
                invariant
                    i <= selections@.len(),
                    *start <= *end <= chars@.len(),
                    name == chars@.subrange(*start as int, *end as int),
                    *formula == (Formula::Name { start: *start, end: *end }),
                    selection_from(selections@, name, 0) == selection_from(
                        selections@,
                        name,
                        i as int,
                    ),
                decreases selections@.len() - i,
            {
                if spells(selections[i].name.as_str(), chars, *start, *end) {
                    let made = selections[i].condition.duplicate();
                    proof {
                        assert(named(chars@, selections@, *start, *end) == Some(i as int));
                        assert forall|rec: EnrichedRecord| #[trigger]
                            made.holds(rec) == formula.holds(chars@, selections@, rec) by {
                            assert(made.holds(rec) == selections@[i as int].condition.holds(rec));
                        }
                        assert forall|key: Seq<char>| #[trigger]
                            made.mentions(key) == formula.mentions(chars@, selections@, key) by {
                            assert(made.mentions(key) == selections@[i as int].condition.mentions(key));
                        }
                    }
                    return Ok(made);
                }
                i += 1;
            }
            Err(ConditionError::UnknownName(*start))
        },
    }
}

/// Reads the condition of a rule from its text form, with each name
/// standing for the selection of that name.
pub fn read_condition(text: &str, selections: &Vec<NamedSelection>) -> (r: Result<
    ConditionExpr,
    ConditionError,
>)
    ensures
        match parsed(text@) {
            Err(e) => r == Err::<ConditionExpr, ConditionError>(e),
            Ok(formula) => match r {
                Ok(condition) => {
                    &&& formula.unknown(text@, selections@) is None
                    &&& stands_for(condition, formula, text@, selections@)
                },
                Err(e) => {
                    &&& formula.unknown(text@, selections@) matches Some(at)
                    &&& e == ConditionError::UnknownName(at)
                },
            },
        },
{
    let chars = chars_of(text);
    match parse_chars(&chars) {
        Ok(formula) => instantiate(&formula, &chars, selections),
        Err(e) => Err(e),
    }
}

} // verus!
