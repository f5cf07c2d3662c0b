//! Which paths name event log files.

use vstd::prelude::*;
use crate::text::chars_of;

verus! {

/// Whether `c` parts the directories of a path.
pub open spec fn is_separator(c: char) -> bool {
    c == '/' || c == '\\'
}

/// Where the file name begins in `path`: after its last separator, or at
/// its beginning where it has none.
pub open spec fn name_start(path: Seq<char>) -> int
    decreases path.len(),
{
    if path.len() == 0 {
        0
    } else if is_separator(path.last()) {
        path.len() as int
    } else {
        name_start(path.drop_last())
    }
}

/// Whether `text` ends with `suffix`.
pub open spec fn has_suffix(text: Seq<char>, suffix: Seq<char>) -> bool {
    text.len() >= suffix.len() && text.subrange(text.len() - suffix.len(), text.len() as int)
        == suffix
}

/// Whether `path` names an event log file that is to be read: it ends
/// with `.evtx`, and its file name does not begin with a dot, which marks
/// a hidden file.
pub open spec fn is_evtx_path(path: Seq<char>) -> bool {
    has_suffix(path, seq!['.', 'e', 'v', 't', 'x']) && path[name_start(path)] != '.'
}

/// Whether `path` names an event log file that is to be read.
pub fn is_evtx_file(path: &str) -> (r: bool)
    ensures
        r == is_evtx_path(path@),
{
    let chars = chars_of(path);
    let n: usize = chars.len();
    if n < 5 {
        return false;
    }
    let ghost suffix = seq!['.', 'e', 'v', 't', 'x'];
    let ghost tail = chars@.subrange(n - 5, n as int);
    if !(chars[n - 5] == '.' && chars[n - 4] == 'e' && chars[n - 3] == 'v' && chars[n - 2] == 't'
        && chars[n - 1] == 'x') {
        proof {
            if tail == suffix {
                assert(tail[0] == '.' && tail[1] == 'e' && tail[2] == 'v' && tail[3] == 't'
                    && tail[4] == 'x');
            }
        }
        return false;
    }
    assert(tail =~= suffix);
    let mut start: usize = n;
    assert(chars@.take(n as int) =~= chars@);
    while start > 0 && !(chars[start - 1] == '/' || chars[start - 1] == '\\')
        invariant
            start <= n,
            n == chars@.len(),
            name_start(chars@) == name_start(chars@.take(start as int)),
        decreases start,
    {
        assert(chars@.take(start as int).drop_last() =~= chars@.take(start - 1));
        start -= 1;
    }
    proof {
        if start > 0 {
            assert(chars@.take(start as int).last() == chars@[start - 1]);
        }
        assert(name_start(chars@) == start);
    }
    chars[start] != '.'
}

} // verus!
