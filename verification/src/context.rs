//! The settings of one run, fixed before the first record is read.

use vstd::prelude::*;
use crate::record::{Value, field_at, lookup};
use crate::text::{lists, is_listed};

verus! {

/// How many records one batch holds at most.
pub const MAX_DETECT_RECORDS: usize = 5000;

/// Where the time windows of aggregation clauses begin.
#[derive(Clone, Copy, Debug, PartialEq, Eq, Structural)]
pub enum WindowAlignment {
    /// A window begins with the first match that no open window takes.
    FirstMatch,
    /// Windows tile the time line from the epoch on, each as long as the
    /// clause says.
    Fixed,
}

/// The settings that the driver, the enricher and the engine share.
#[derive(Clone, Debug)]
pub struct Context {
    /// The largest number of records in one batch; zero counts as one.
    pub max_batch: usize,
    /// The path of the field that identifies the kind of an event.
    pub event_id_key: String,
    /// The path of the field that holds the time of an event.
    pub time_key: String,
    /// The identifiers of the events to look at; `None` looks at all.
    pub target_event_ids: Option<Vec<String>>,
    /// The paths of the fields whose values the statistics count.
    pub stat_fields: Vec<String>,
    /// Whether failures on single records stay out of the error log.
    pub quiet_errors: bool,
    /// Whether only statistics are wanted and no rule is evaluated.
    pub statistics_only: bool,
    /// Where aggregation windows begin.
    pub alignment: WindowAlignment,
}

/// Whether a record gets past the allow-set `ids`: a record whose
/// identifying field is a text or a number passes if the set lists it;
/// any other record passes, and so does every record when there is no set.
pub open spec fn passes(ids: Option<Vec<String>>, event_id_key: Seq<char>, record: Value) -> bool {
    match ids {
        None => true,
        Some(list) => match field_at(record, event_id_key) {
            Some(Value::Text(id)) => lists(list@, id@),
            Some(Value::Number(id)) => lists(list@, id@),
            _ => true,
        },
    }
}

impl Context {
    /// The batch size in force: `max_batch`, or one where that is zero.
    pub open spec fn batch_limit(self) -> int {
        if self.max_batch == 0 {
            1
        } else {
            self.max_batch as int
        }
    }

    /// Whether `record` is one of the events that this run looks at.
    pub fn is_target_event_id(&self, record: &Value) -> (r: bool)
        ensures
            r == passes(self.target_event_ids, self.event_id_key@, *record),
    {
        match &self.target_event_ids {
            None => true,
            Some(list) => match lookup(record, self.event_id_key.as_str()) {
                Some(Value::Text(id)) => is_listed(list, id.as_str()),
                Some(Value::Number(id)) => is_listed(list, id.as_str()),
                _ => true,
            },
        }
    }
}

} // verus!
