//! Records as field trees, and how a dotted field path finds a value in one.

use vstd::prelude::*;
use crate::text::{rows, spells, split, split_text, text_opt};

verus! {

/// One node of a decoded record. A record is an `Object` at its root; a
/// number is kept in the decimal notation in which its source wrote it.
#[derive(Debug, PartialEq, Eq)]
pub enum Value {
    Null,
    Bool(bool),
    Number(String),
    Text(String),
    Array(Vec<Value>),
    Object(Vec<(String, Value)>),
}

/// The value of the first entry from position `from` on whose name is `name`.
pub open spec fn entry_from(entries: Seq<(String, Value)>, name: Seq<char>, from: int) -> Option<
    Value,
>
    decreases entries.len() - from,
{
    if from < 0 || from >= entries.len() {
        None
    } else if entries[from].0@ == name {
        Some(entries[from].1)
    } else {
        entry_from(entries, name, from + 1)
    }
}

/// The member called `name` of an object: its first entry of that name.
/// Values that are not objects have no members.
pub open spec fn member(v: Value, name: Seq<char>) -> Option<Value> {
    match v {
        Value::Object(entries) => entry_from(entries@, name, 0),
        _ => None,
    }
}

/// The segments of a dotted path: the runs of characters between its dots.
/// A path without a dot is one segment; a path of `n` dots has `n + 1`.
pub open spec fn segments(key: Seq<char>) -> Seq<Seq<char>> {
    split(key, '.')
}

/// The value reached from `v` by taking, one after the other, the members
/// that `path` names.
pub open spec fn descend(v: Value, path: Seq<Seq<char>>) -> Option<Value>
    decreases path.len(),
{
    if path.len() == 0 {
        Some(v)
    } else {
        match member(v, path[0]) {
            Some(child) => descend(child, path.subrange(1, path.len() as int)),
            None => None,
        }
    }
}

/// The value that the dotted path `key` names in the record `v`.
pub open spec fn field_at(v: Value, key: Seq<char>) -> Option<Value> {
    descend(v, segments(key))
}

/// The text of `true` and of `false`.
pub open spec fn bool_text(b: bool) -> Seq<char> {
    if b {
        "true"@
    } else {
        "false"@
    }
}

/// The text that stands for a scalar value. `Null`, arrays and objects have
/// none.
pub open spec fn text_of(v: Value) -> Option<Seq<char>> {
    match v {
        Value::Bool(b) => Some(bool_text(b)),
        Value::Number(t) => Some(t@),
        Value::Text(t) => Some(t@),
        _ => None,
    }
}

/// The text of the scalar that `key` names in `v`, if it names one.
pub open spec fn text_at(v: Value, key: Seq<char>) -> Option<Seq<char>> {
    match field_at(v, key) {
        Some(found) => text_of(found),
        None => None,
    }
}

/// Splits a dotted path into its segments.
pub fn split_path(key: &str) -> (parts: Vec<Vec<char>>)
    ensures
        rows(parts@) == segments(key@),
{
    split_text(key, '.')
}

/// The member of `v` whose name is spelled by `name`.
pub fn member_of<'a>(v: &'a Value, name: &Vec<char>) -> (r: Option<&'a Value>)
    ensures
        match r {
            Some(child) => member(*v, name@) == Some(*child),
            None => member(*v, name@) is None,
        },
{
    match v {
        Value::Object(entries) => {
            let mut i: usize = 0;
            while i < entries.len()
                invariant
                    i <= entries@.len(),
                    *v == Value::Object(*entries),
                    entry_from(entries@, name@, 0) == entry_from(entries@, name@, i as int),
                decreases entries@.len() - i,
            {
                assert(name@.subrange(0, name@.len() as int) =~= name@);
                if spells(entries[i].0.as_str(), name, 0, name.len()) {
                    return Some(&entries[i].1);
                }
                i += 1;
            }
            None
        },
        _ => None,
    }
}

/// Finds the value that the dotted path `key` names in `record`.
pub fn lookup<'a>(record: &'a Value, key: &str) -> (r: Option<&'a Value>)
    ensures
        match r {
            Some(found) => field_at(*record, key@) == Some(*found),
            None => field_at(*record, key@) is None,
        },
{
    let path = split_path(key);
    let mut at: &Value = record;
    let mut k: usize = 0;
    assert(rows(path@).subrange(0, path@.len() as int) =~= rows(path@));
    while k < path.len()
        invariant
            k <= path@.len(),
            rows(path@) == segments(key@),
            field_at(*record, key@) == descend(*at, rows(path@).subrange(k as int, path@.len() as int)),
        decreases path@.len() - k,
    {
        let ghost rest = rows(path@).subrange(k as int, path@.len() as int);
        assert(rest[0] == path@[k as int]@);
        assert(rest.subrange(1, rest.len() as int) =~= rows(path@).subrange(
            k + 1,
            path@.len() as int,
        ));
        match member_of(at, &path[k]) {
            Some(child) => {
                at = child;
            },
            None => {
                return None;
            },
        }
        k += 1;
    }
    Some(at)
}

/// The text that stands for a scalar value, as a string of its own.
pub fn render(v: &Value) -> (r: Option<String>)
    ensures
        text_opt(r) == text_of(*v),
{
    match v {
        Value::Bool(b) => {
            if *b {
                Some("true".to_owned())
            } else {
                Some("false".to_owned())
            }
        },
        Value::Number(t) => Some(t.clone()),
        Value::Text(t) => Some(t.clone()),
        _ => None,
    }
}

/// The text of the scalar that `key` names in `record`.
pub fn lookup_text(record: &Value, key: &str) -> (r: Option<String>)
    ensures
        text_opt(r) == text_at(*record, key@),
{
    match lookup(record, key) {
        Some(found) => render(found),
        None => None,
    }
}

} // verus!
