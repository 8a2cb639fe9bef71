//! The persisted record type: one work session, with its total ordering by
//! start time and its duration arithmetic.
use vstd::prelude::*;

verus! {

/// Earliest supported instant, 0001-01-01T00:00:00Z, as seconds since the
/// Unix epoch.
pub const MIN_SECS: i64 = -62135596800;

/// Latest supported instant, 9999-12-31T23:59:59Z, as seconds since the
/// Unix epoch.
pub const MAX_SECS: i64 = 253402300799;

/// An instant in time: seconds since the Unix epoch, together with the
/// local clock's offset from UTC (in seconds) at the moment of recording.
#[derive(Clone, Copy, PartialEq, Eq, Structural, Debug)]
pub struct Timestamp {
    pub secs: i64,
    pub off: i32,
}

impl Timestamp {
    /// The range in which every calendar computation is defined: years 1
    /// through 9999, with an offset of less than one day in either direction.
    pub open spec fn valid(self) -> bool {
        &&& MIN_SECS <= self.secs <= MAX_SECS
        &&& -86399 <= self.off <= 86399
    }

    /// Builds a timestamp, rejecting values outside the supported range.
    pub fn new(secs: i64, off: i32) -> (r: Option<Timestamp>)
        ensures
            r matches Some(t) ==> t == (Timestamp { secs, off }) && t.valid(),
            r is None <==> !(Timestamp { secs, off }).valid(),
    {
        if MIN_SECS <= secs && secs <= MAX_SECS && -86399 <= off && off <= 86399 {
            Some(Timestamp { secs, off })
        } else {
            None
        }
    }
}

/// One logged work session.
#[derive(Clone, Debug)]
pub struct Entry {
    /// When the session began; absent only transiently during construction.
    pub start: Option<Timestamp>,
    /// When the session ended; `None` while the session is still open.
    pub stop: Option<Timestamp>,
    /// What the session set out to do.
    pub goal: String,
    /// What came of it; empty until the session is stopped.
    pub result: String,
    /// Free-form remarks appended over the session's lifetime.
    pub notes: Vec<String>,
}

/// The mathematical model of an entry: timestamps as they are, text fields
/// as character sequences.
#[verifier::ext_equal]
pub struct EntryModel {
    pub start: Option<Timestamp>,
    pub stop: Option<Timestamp>,
    pub goal: Seq<char>,
    pub result: Seq<char>,
    pub notes: Seq<Seq<char>>,
}

impl View for Entry {
    type V = EntryModel;

    open spec fn view(&self) -> EntryModel {
        EntryModel {
            start: self.start,
            stop: self.stop,
            goal: self.goal@,
            result: self.result@,
            notes: self.notes.deep_view(),
        }
    }
}

/// The sort key of an entry: its start second, with an absent start sorting
/// before every present one.
pub open spec fn start_key(e: Entry) -> int {
    match e.start {
        None => (i64::MIN as int) - 1,
        Some(t) => t.secs as int,
    }
}

/// Both timestamps of an entry, where present, lie in the supported range.
pub open spec fn entry_valid(e: Entry) -> bool {
    &&& (e.start matches Some(t) ==> t.valid())
    &&& (e.stop matches Some(t) ==> t.valid())
}

impl Entry {
    /// The total order on entries: by start second, an absent start first.
    pub fn cmp(&self, other: &Entry) -> (r: core::cmp::Ordering)
        ensures
            r == core::cmp::Ordering::Less <==> start_key(*self) < start_key(*other),
            r == core::cmp::Ordering::Equal <==> start_key(*self) == start_key(*other),
            r == core::cmp::Ordering::Greater <==> start_key(*self) > start_key(*other),
    {
        match (self.start, other.start) {
            (Some(a), Some(b)) => {
                if a.secs < b.secs {
                    core::cmp::Ordering::Less
                } else if a.secs == b.secs {
                    core::cmp::Ordering::Equal
                } else {
                    core::cmp::Ordering::Greater
                }
            },
            (Some(_), None) => core::cmp::Ordering::Greater,
            (None, Some(_)) => core::cmp::Ordering::Less,
            (None, None) => core::cmp::Ordering::Equal,
        }
    }

    /// The session's length in seconds, defined only when both ends are set.
    pub open spec fn spec_duration_secs(self) -> Option<int> {
        match (self.start, self.stop) {
            (Some(a), Some(b)) => Some(b.secs - a.secs),
            _ => None,
        }
    }

    /// Computes `stop - start` in seconds, or `None` while either end is
    /// absent.
    pub fn duration_secs(&self) -> (r: Option<i64>)
        requires
            entry_valid(*self),
        ensures
            r matches Some(d) ==> self.spec_duration_secs() == Some(d as int),
            r is None <==> self.spec_duration_secs() is None,
    {
        match (self.start, self.stop) {
            (Some(a), Some(b)) => Some(b.secs - a.secs),
            _ => None,
        }
    }
}

} // verus!
