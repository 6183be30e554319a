use vstd::prelude::*;

use crate::text::{chars_of, string_of};
use crate::time::{parse_rfc3339, rfc3339_nanos};

verus! {

/// A closed time range, in nanoseconds since the Unix epoch.
#[derive(Clone, Copy, Debug, PartialEq, Eq, Structural)]
pub struct TimeInterval {
    pub start: i64,
    pub end: i64,
}

impl TimeInterval {
    pub open spec fn wf(&self) -> bool {
        self.start <= self.end
    }

    /// Builds an interval; `None` when `start` comes after `end`.
    pub fn new(start: i64, end: i64) -> (r: Option<TimeInterval>)
        ensures
            r is Some <==> start <= end,
            r matches Some(i) ==> i.start == start && i.end == end,
    {
        if start <= end {
            Some(TimeInterval { start, end })
        } else {
            None
        }
    }

    /// Reads `start/end`, two RFC 3339 instants joined by the first `/`.
    /// `None` when there is no `/`, either side does not read, or `start`
    /// comes after `end`.
    pub fn new_from_string(s: &str) -> (r: Option<TimeInterval>)
        ensures
            r is Some <==> exists|k: int| interval_at(s@, k),
            forall|k: int| interval_at(s@, k) ==> r == Some(interval_of(s@, k)),
    {
        let cs = chars_of(s);
        let mut k: usize = 0;
        while k < cs.len() && cs[k] != '/'
            invariant
                k <= cs@.len(),
                forall|j: int| 0 <= j < k ==> cs@[j] != '/',
            decreases cs@.len() - k,
        {
            k += 1;
        }
        proof {
            assert forall|j: int| interval_at(s@, j) implies j == k by {
                if j < k {
                    assert(cs@[j] != '/');
                } else if j > k {
                    assert(cs@[k as int] == '/');
                }
            }
        }
        if k == cs.len() {
            return None;
        }
        let mut left: Vec<char> = Vec::new();
        let mut right: Vec<char> = Vec::new();
        let mut i: usize = 0;
        while i < cs.len()
            invariant
                k < cs@.len(),
                i <= cs@.len(),
                left@ == cs@.subrange(0, if i < k { i as int } else { k as int }),
                right@ == cs@.subrange(k + 1, if i > k { i as int } else { k + 1 }),
            decreases cs@.len() - i,
        {
            if i < k {
                left.push(cs[i]);
            } else if i > k {
                right.push(cs[i]);
            }
            i += 1;
            proof {
                assert(left@ =~= cs@.subrange(0, if i < k { i as int } else { k as int }));
                assert(right@ =~= cs@.subrange(k + 1, if i > k { i as int } else { k + 1 }));
            }
        }
        let ls = string_of(&left);
        let rs = string_of(&right);
        let start = parse_rfc3339(ls.as_str());
        let end = parse_rfc3339(rs.as_str());
        proof {
            assert(left@ == s@.subrange(0, k as int));
            assert(right@ == s@.subrange(k + 1, s@.len() as int));
            if start is Some && end is Some && start->0 <= end->0 {
                assert(interval_at(s@, k as int));
            }
        }
        match (start, end) {
            (Some(a), Some(b)) => TimeInterval::new(a, b),
            _ => None,
        }
    }
}

/// Text `s` is `start/end` with its first `/` at `k`, both sides read as
/// RFC 3339 instants, and `start <= end`.
pub open spec fn interval_at(s: Seq<char>, k: int) -> bool {
    &&& 0 <= k < s.len()
    &&& s[k] == '/'
    &&& forall|j: int| 0 <= j < k ==> s[j] != '/'
    &&& rfc3339_nanos(s.subrange(0, k)) is Some
    &&& rfc3339_nanos(s.subrange(k + 1, s.len() as int)) is Some
    &&& rfc3339_nanos(s.subrange(0, k))->0 <= rfc3339_nanos(s.subrange(k + 1, s.len() as int))->0
}

/// The interval that `s` names when `interval_at(s, k)`.
pub open spec fn interval_of(s: Seq<char>, k: int) -> TimeInterval {
    TimeInterval {
        start: rfc3339_nanos(s.subrange(0, k))->0,
        end: rfc3339_nanos(s.subrange(k + 1, s.len() as int))->0,
    }
}

/// A query request: a script given as lines, to run once per period.
#[derive(Debug)]
pub struct Query {
    pub timeperiods: Vec<TimeInterval>,
    pub query: Vec<String>,
}

/// A named container of events.
#[derive(Clone, Debug)]
pub struct Bucket {
    /// Key assigned by the store at creation; never reused.
    pub bid: Option<i64>,
    pub id: String,
    pub _type: String,
    pub client: String,
    pub hostname: String,
    /// Creation instant, in nanoseconds since the Unix epoch.
    pub created: Option<i64>,
}

/// A timestamped record with a duration.
///
/// `data` holds the canonical JSON text of the event's string-keyed map
/// (keys sorted, no insignificant whitespace), so two maps are structurally
/// equal exactly when their texts are equal.
#[derive(Clone, Debug)]
pub struct Event {
    pub id: Option<i64>,
    /// Nanoseconds since the Unix epoch, UTC.
    pub timestamp: i64,
    /// Nanoseconds; never negative in a stored event.
    pub duration: i64,
    pub data: String,
}

impl Bucket {
    /// A copy equal to `self`.
    pub fn copied(&self) -> (r: Bucket)
        ensures
            r == *self,
    {
        Bucket {
            bid: self.bid,
            id: self.id.clone(),
            _type: self._type.clone(),
            client: self.client.clone(),
            hostname: self.hostname.clone(),
            created: self.created,
        }
    }

    /// Equal in every field that the caller supplies; `bid` is the store's.
    pub open spec fn same_fields(&self, other: Bucket) -> bool {
        &&& self.id@ == other.id@
        &&& self._type@ == other._type@
        &&& self.client@ == other.client@
        &&& self.hostname@ == other.hostname@
        &&& self.created == other.created
    }
}

impl Event {
    /// A copy equal to `self`.
    pub fn copied(&self) -> (r: Event)
        ensures
            r == *self,
    {
        Event { id: self.id, timestamp: self.timestamp, duration: self.duration, data: self.data.clone() }
    }

    /// End of the event's span, `timestamp + duration`.
    pub open spec fn end(&self) -> int {
        self.timestamp + self.duration
    }

    /// Whether the event's half-open span `[timestamp, timestamp + duration)`
    /// meets the closed range `[start, end]`: it ends after `start` and
    /// begins no later than `end`. An absent bound is unbounded.
    pub open spec fn meets(&self, start: Option<i64>, end: Option<i64>) -> bool {
        &&& (start matches Some(s) ==> self.end() > s)
        &&& (end matches Some(t) ==> self.timestamp <= t)
    }
}

} // verus!
