//! Characters of a text and decimal numbers written in it.

use vstd::prelude::*;

verus! {

/// The characters of `s`, in order.
pub fn chars_of(s: &str) -> (v: Vec<char>)
    ensures
        v@ == s@,
{
    let mut v: Vec<char> = Vec::new();
    for c in it: s.chars()
        invariant
            v@ == it.seq().take(it.index() as int),
            it.seq() == s@,
    {
        v.push(c);
    }
    v
}

/// Whether `chars[from..to]` is a part of `chars` and `s` spells exactly
/// its characters.
pub fn spells(s: &str, chars: &Vec<char>, from: usize, to: usize) -> (r: bool)
    ensures
        r == (from <= to <= chars@.len() && s@ == chars@.subrange(from as int, to as int)),
{
    if !(from <= to && to <= chars.len()) {
        return false;
    }
    let own = chars_of(s);
    if own.len() != to - from {
        return false;
    }
    let mut i: usize = 0;
    while i < own.len()
        invariant
            i <= own@.len(),
            own@ == s@,
            own@.len() == to - from,
            from <= to <= chars@.len(),
            forall|j: int| 0 <= j < i ==> own@[j] == chars@[from + j],
        decreases own@.len() - i,
    {
        if own[i] != chars[from + i] {
            assert(s@[i as int] != chars@.subrange(from as int, to as int)[i as int]);
            return false;
        }
        i += 1;
    }
    assert(s@ =~= chars@.subrange(from as int, to as int));
    true
}

/// Whether `a` and `b` are the same text.
pub fn same_text(a: &str, b: &str) -> (r: bool)
    ensures
        r == (a@ == b@),
{
    let chars = chars_of(b);
    assert(chars@.subrange(0, chars@.len() as int) =~= chars@);
    spells(a, &chars, 0, chars.len())
}

/// Whether one of `list` has the text `key`.
pub open spec fn lists(list: Seq<String>, key: Seq<char>) -> bool {
    exists|j: int| 0 <= j < list.len() && (#[trigger] list[j])@ == key
}

/// A list with one more string lists what it listed, and that string.
pub proof fn lemma_lists_push(list: Seq<String>, last: String, key: Seq<char>)
    ensures
        lists(list.push(last), key) == (lists(list, key) || last@ == key),
{
    let longer = list.push(last);
    if lists(list, key) {
        let j = choose|j: int| 0 <= j < list.len() && (#[trigger] list[j])@ == key;
        assert(longer[j]@ == key);
    }
    if last@ == key {
        assert(longer[list.len() as int]@ == key);
    }
    if lists(longer, key) {
        let j = choose|j: int| 0 <= j < longer.len() && (#[trigger] longer[j])@ == key;
        if j < list.len() {
            assert(list[j]@ == key);
        }
    }
}

/// A list lists a text exactly if the text is among the texts of the list.
pub proof fn lemma_lists_texts(list: Seq<String>, key: Seq<char>)
    ensures
        lists(list, key) == texts(list).contains(key),
{
    if lists(list, key) {
        let j = choose|j: int| 0 <= j < list.len() && (#[trigger] list[j])@ == key;
        assert(texts(list)[j] == key);
    }
    if texts(list).contains(key) {
        let j = choose|j: int| 0 <= j < texts(list).len() && texts(list)[j] == key;
        assert(list[j]@ == key);
    }
}

/// Whether one of `list` has the text of `key`.
pub fn is_listed(list: &Vec<String>, key: &str) -> (r: bool)
    ensures
        r == lists(list@, key@),
{
    let mut i: usize = 0;
    while i < list.len()
        invariant
            i <= list@.len(),
            forall|j: int| 0 <= j < i ==> (#[trigger] list@[j])@ != key@,
        decreases list@.len() - i,
    {
        if same_text(list[i].as_str(), key) {
            return true;
        }
        i += 1;
    }
    false
}

/// The texts of a sequence of strings, in the same order.
pub open spec fn texts(v: Seq<String>) -> Seq<Seq<char>> {
    v.map_values(|s: String| s@)
}

/// The text of an optional string.
pub open spec fn text_opt(o: Option<String>) -> Option<Seq<char>> {
    match o {
        Some(s) => Some(s@),
        None => None,
    }
}

/// Whether `c` is one of the ten decimal digits.
pub open spec fn is_digit(c: char) -> bool {
    48 <= c as u32 <= 57
}

/// The number that the digit `c` stands for.
pub open spec fn digit_value(c: char) -> int {
    (c as u32) as int - 48
}

/// Whether every character of `s` is a decimal digit.
pub open spec fn all_digits(s: Seq<char>) -> bool {
    forall|i: int| 0 <= i < s.len() ==> is_digit(#[trigger] s[i])
}

/// The number that the digits of `s` denote, most significant digit first.
pub open spec fn digits_value(s: Seq<char>) -> int
    decreases s.len(),
{
    if s.len() == 0 {
        0
    } else {
        digits_value(s.drop_last()) * 10 + digit_value(s.last())
    }
}

/// The integer that `s` denotes in decimal notation: one or more digits,
/// optionally after a single `-`. Nothing else is a number.
pub open spec fn int_of_text(s: Seq<char>) -> Option<int> {
    if s.len() > 0 && s[0] == '-' {
        let digits = s.subrange(1, s.len() as int);
        if digits.len() > 0 && all_digits(digits) {
            Some(-digits_value(digits))
        } else {
            None
        }
    } else if s.len() > 0 && all_digits(s) {
        Some(digits_value(s))
    } else {
        None
    }
}

/// The 64-bit integer that `s` denotes, if it denotes one that fits.
pub open spec fn i64_of_text(s: Seq<char>) -> Option<i64> {
    match int_of_text(s) {
        Some(v) => if i64::MIN <= v <= i64::MAX {
            Some(v as i64)
        } else {
            None
        },
        None => None,
    }
}

/// A number only grows when further digits follow it.
pub proof fn lemma_digits_value_grows(s: Seq<char>, n: int)
    requires
        all_digits(s),
        0 <= n <= s.len(),
    ensures
        0 <= digits_value(s.take(n)) <= digits_value(s),
    decreases s.len() - n,
{
    if n == s.len() {
        assert(s.take(n) =~= s);
        lemma_digits_value_nonnegative(s);
    } else {
        lemma_digits_value_grows(s, n + 1);
        let longer = s.take(n + 1);
        assert(longer.drop_last() =~= s.take(n));
        assert(longer.last() == s[n]);
        assert(is_digit(s[n]));
        lemma_digits_value_nonnegative(s.take(n));
    }
}

/// Digits never denote a negative number.
pub proof fn lemma_digits_value_nonnegative(s: Seq<char>)
    requires
        all_digits(s),
    ensures
        0 <= digits_value(s),
    decreases s.len(),
{
    if s.len() > 0 {
        assert(is_digit(s[s.len() - 1]));
        lemma_digits_value_nonnegative(s.drop_last());
    }
}

/// Reads `s` as a decimal integer of 64 bits. `None` when `s` is not a
/// decimal integer or the integer does not fit.
pub fn parse_int(s: &str) -> (r: Option<i64>)
    ensures
        r == i64_of_text(s@),
{
    let chars = chars_of(s);
    let n: usize = chars.len();
    if n == 0 {
        return None;
    }
    let negative: bool = chars[0] == '-';
    let start: usize = if negative { 1 } else { 0 };
    if start == n {
        return None;
    }
    let ghost digits = chars@.subrange(start as int, n as int);
    proof {
        if !negative {
            assert(digits =~= s@);
        }
    }
    let limit: u64 = if negative { 0x8000_0000_0000_0000 } else { 0x7fff_ffff_ffff_ffff };
    let mut acc: u64 = 0;
    let mut i: usize = start;
    while i < n
        invariant
            start <= i <= n,
            n == chars@.len(),
            digits == chars@.subrange(start as int, n as int),
            all_digits(digits.take(i - start)),
            acc == digits_value(digits.take(i - start)),
            acc <= limit,
            chars@ == s@,
            negative == (s@[0] == '-'),
            start == (if negative { 1int } else { 0int }),
            limit == (if negative { 0x8000_0000_0000_0000u64 } else { 0x7fff_ffff_ffff_ffffu64 }),
            !negative ==> digits == s@,
        decreases n - i,
    {
        let c: char = chars[i];
        let code: u32 = c as u32;
        if code < 48 || code > 57 {
            assert(!is_digit(digits[i - start]));
            return None;
        }
        let next: u128 = (acc as u128) * 10 + ((code - 48) as u128);
        proof {
            let longer = digits.take(i - start + 1);
            assert(longer.drop_last() =~= digits.take(i - start));
            assert(longer.last() == c);
            assert(next == digits_value(longer));
            assert forall|j: int| 0 <= j < longer.len() implies is_digit(#[trigger] longer[j]) by {
                if j < i - start {
                    assert(longer[j] == digits.take(i - start)[j]);
                }
            }
        }
        if next > limit as u128 {
            proof {
                if all_digits(digits) {
                    lemma_digits_value_grows(digits, i - start + 1);
                }
            }
            return None;
        }
        acc = next as u64;
        i += 1;
    }
    assert(digits.take(n - start) =~= digits);
    if negative {
        if acc == 0x8000_0000_0000_0000 {
            Some(i64::MIN)
        } else {
            Some(-(acc as i64))
        }
    } else {
        Some(acc as i64)
    }
}

/// The parts of `text` between the occurrences of `separator`. A text
/// without the separator is one part; a text with `n` of them has `n + 1`,
/// some of which may be empty.
pub open spec fn split(text: Seq<char>, separator: char) -> Seq<Seq<char>>
    decreases text.len(),
{
    if text.len() == 0 {
        seq![Seq::<char>::empty()]
    } else {
        let before = split(text.drop_last(), separator);
        if text.last() == separator {
            before.push(Seq::<char>::empty())
        } else {
            before.drop_last().push(before.last().push(text.last()))
        }
    }
}

/// The texts of a list of character vectors.
pub open spec fn rows(v: Seq<Vec<char>>) -> Seq<Seq<char>> {
    v.map_values(|row: Vec<char>| row@)
}

/// Splits `text` at every occurrence of `separator`.
pub fn split_text(text: &str, separator: char) -> (parts: Vec<Vec<char>>)
    ensures
        rows(parts@) == split(text@, separator),
{
    let chars = chars_of(text);
    let mut done: Vec<Vec<char>> = Vec::new();
    let mut current: Vec<char> = Vec::new();
    let mut i: usize = 0;
    while i < chars.len()
        invariant
            i <= chars@.len(),
            chars@ == text@,
            rows(done@).push(current@) == split(text@.take(i as int), separator),
        decreases chars@.len() - i,
    {
        let c: char = chars[i];
        proof {
            let longer = text@.take(i + 1);
            assert(longer.drop_last() =~= text@.take(i as int));
            assert(longer.last() == c);
            let before = split(longer.drop_last(), separator);
            assert(before.last() == current@);
            assert(before.drop_last() =~= rows(done@));
        }
        if c == separator {
            let ghost old_done = done@;
            done.push(current);
            current = Vec::new();
            assert(rows(done@) =~= rows(old_done).push(done@.last()@));
        } else {
            current.push(c);
        }
        i += 1;
    }
    assert(text@.take(i as int) =~= text@);
    let ghost old_done = done@;
    done.push(current);
    assert(rows(done@) =~= rows(old_done).push(done@.last()@));
    done
}

} // verus!
