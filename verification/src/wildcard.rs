//! Wildcard patterns: `*` stands for any run of characters, the empty one
//! too, `?` for exactly one character, and every other character for itself.
//! A pattern matches a text only as a whole.

use vstd::prelude::*;
use crate::text::chars_of;

verus! {

/// Whether the pattern from position `i` on matches the text from position
/// `j` on.
pub open spec fn glob_from(pattern: Seq<char>, text: Seq<char>, i: int, j: int) -> bool
    decreases pattern.len() - i, text.len() - j,
{
    if i >= pattern.len() {
        j >= text.len()
    } else if pattern[i] == '*' {
        glob_from(pattern, text, i + 1, j) || (j < text.len() && glob_from(pattern, text, i, j + 1))
    } else if j >= text.len() {
        false
    } else if pattern[i] == '?' || pattern[i] == text[j] {
        glob_from(pattern, text, i + 1, j + 1)
    } else {
        false
    }
}

/// Whether `pattern` matches the whole of `text`.
pub open spec fn glob_matches(pattern: Seq<char>, text: Seq<char>) -> bool {
    glob_from(pattern, text, 0, 0)
}

/// A pattern without `*` and `?` matches its own text and no other.
pub proof fn lemma_plain_pattern(pattern: Seq<char>, text: Seq<char>)
    requires
        forall|k: int| 0 <= k < pattern.len() ==> pattern[k] != '*' && pattern[k] != '?',
    ensures
        glob_matches(pattern, text) <==> pattern == text,
{
    lemma_plain_suffix(pattern, text, 0);
    assert(pattern.subrange(0, pattern.len() as int) =~= pattern);
    assert(text.subrange(0, text.len() as int) =~= text);
}

proof fn lemma_plain_suffix(pattern: Seq<char>, text: Seq<char>, i: int)
    requires
        0 <= i <= pattern.len(),
        forall|k: int| 0 <= k < pattern.len() ==> pattern[k] != '*' && pattern[k] != '?',
    ensures
        i <= text.len() ==> (glob_from(pattern, text, i, i) <==> pattern.subrange(
            i,
            pattern.len() as int,
        ) == text.subrange(i, text.len() as int)),
        i > text.len() ==> !glob_from(pattern, text, i, i) || i >= pattern.len(),
    decreases pattern.len() - i,
{
    if i <= text.len() {
        let ps = pattern.subrange(i, pattern.len() as int);
        let ts = text.subrange(i, text.len() as int);
        if i >= pattern.len() {
            if i >= text.len() {
                assert(ps =~= ts);
            } else {
                assert(ps.len() != ts.len());
            }
        } else if i >= text.len() {
            assert(ps.len() != ts.len());
        } else {
            lemma_plain_suffix(pattern, text, i + 1);
            let pr = pattern.subrange(i + 1, pattern.len() as int);
            let tr = text.subrange(i + 1, text.len() as int);
            assert(ps[0] == pattern[i]);
            assert(ts[0] == text[i]);
            if ps == ts {
                assert(pr =~= ps.subrange(1, ps.len() as int));
                assert(tr =~= ts.subrange(1, ts.len() as int));
            }
            if pattern[i] == text[i] && pr == tr {
                assert(ps.len() == ts.len());
                assert forall|k: int| 0 <= k < ps.len() implies ps[k] == ts[k] by {
                    if k > 0 {
                        assert(ps[k] == pr[k - 1]);
                        assert(ts[k] == tr[k - 1]);
                    }
                }
                assert(ps =~= ts);
            }
        }
    }
}

/// A lone `*` matches every text.
pub proof fn lemma_star_matches_all(text: Seq<char>)
    ensures
        glob_matches(seq!['*'], text),
{
    lemma_star_from(text, 0);
}

proof fn lemma_star_from(text: Seq<char>, j: int)
    requires
        0 <= j <= text.len(),
    ensures
        glob_from(seq!['*'], text, 0, j),
    decreases text.len() - j,
{
    let p = seq!['*'];
    if j < text.len() {
        lemma_star_from(text, j + 1);
    } else {
        assert(glob_from(p, text, 1, j));
    }
}

fn blank_row(n: usize) -> (row: Vec<bool>)
    ensures
        row@.len() == n,
        forall|k: int| 0 <= k < n ==> !row@[k],
{
    let mut row: Vec<bool> = Vec::new();
    while row.len() < n
        invariant
            row@.len() <= n,
            forall|k: int| 0 <= k < row@.len() ==> !row@[k],
        decreases n - row@.len(),
    {
        row.push(false);
    }
    row
}

/// Whether the wildcard `pattern` matches the whole of `text`.
pub fn wildcard_match(pattern: &str, text: &str) -> (r: bool)
    ensures
        r == glob_matches(pattern@, text@),
{
    let p = chars_of(pattern);
    let t = chars_of(text);
    let plen: usize = p.len();
    let tlen: usize = t.len();
    // `next[j]` says whether the pattern from `i` on matches the text from
    // `j` on, for `j < tlen`; `next_end` says the same for the empty rest.
    let mut next: Vec<bool> = blank_row(tlen);
    let mut next_end: bool = true;
    let mut i: usize = plen;
    while i > 0
        invariant
            i <= plen,
            plen == p@.len(),
            tlen == t@.len(),
            next@.len() == tlen,
            next_end == glob_from(p@, t@, i as int, tlen as int),
            forall|j: int| 0 <= j < tlen ==> next@[j] == glob_from(p@, t@, i as int, j),
        decreases i,
    {
        i -= 1;
        let c: char = p[i];
        let star: bool = c == '*';
        let cur_end: bool = star && next_end;
        let mut cur: Vec<bool> = blank_row(tlen);
        let mut j: usize = tlen;
        while j > 0
            invariant
                j <= tlen,
                i < plen,
                plen == p@.len(),
                tlen == t@.len(),
                next@.len() == tlen,
                cur@.len() == tlen,
                c == p@[i as int],
                star == (c == '*'),
                next_end == glob_from(p@, t@, i + 1, tlen as int),
                cur_end == glob_from(p@, t@, i as int, tlen as int),
                forall|k: int| 0 <= k < tlen ==> next@[k] == glob_from(p@, t@, i + 1, k),
                forall|k: int| j <= k < tlen ==> cur@[k] == glob_from(p@, t@, i as int, k),
            decreases j,
        {
            j -= 1;
            let after_next: bool = if j + 1 < tlen { next[j + 1] } else { next_end };
            let after_cur: bool = if j + 1 < tlen { cur[j + 1] } else { cur_end };
            let cell: bool = if star {
                next[j] || after_cur
            } else {
                (c == '?' || c == t[j]) && after_next
            };
            assert(cell == glob_from(p@, t@, i as int, j as int));
            cur.set(j, cell);
        }
        next = cur;
        next_end = cur_end;
    }
    if tlen == 0 {
        next_end
    } else {
        next[0]
    }
}

} // verus!
