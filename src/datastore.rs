use vstd::prelude::*;

use crate::models::{Bucket, Event};

verus! {

/// Faults of the event store.
#[derive(Clone, Copy, Debug, PartialEq, Eq, Structural)]
pub enum DatastoreError {
    NoSuchBucket,
    BucketAlreadyExists,
    /// A store-assigned key or a merged span does not fit in 64 bits.
    Overflow,
}

/// `a` precedes `b` newest-first: the later timestamp first, and on equal
/// timestamps the larger id first.
pub open spec fn newer(a: Event, b: Event) -> bool {
    a.timestamp > b.timestamp || (a.timestamp == b.timestamp && a.id->0 > b.id->0)
}

/// The events are ordered newest-first, each strictly before the next.
pub open spec fn newest_first(s: Seq<Event>) -> bool {
    forall|i: int, j: int| 0 <= i < j < s.len() ==> newer(#[trigger] s[i], #[trigger] s[j])
}

/// The events of `s` whose span meets `[start, end]`, in the order of `s`.
pub open spec fn in_range(s: Seq<Event>, start: Option<i64>, end: Option<i64>) -> Seq<Event> {
    s.filter(|e: Event| e.meets(start, end))
}

/// The first `limit` elements of `s`, or all of them when there is no limit.
pub open spec fn limited(s: Seq<Event>, limit: Option<u64>) -> Seq<Event> {
    match limit {
        Some(n) => if n < s.len() { s.take(n as int) } else { s },
        None => s,
    }
}

/// The events of `s` whose id is not listed in `ids`, in the order of `s`.
pub open spec fn without_ids(s: Seq<Event>, ids: Seq<i64>) -> Seq<Event> {
    s.filter(|e: Event| !ids.contains(e.id->0))
}

/// Heartbeat `e` is merged into `last`: it starts no earlier than `last`
/// ends, at most `pulsetime` later, with equal data.
pub open spec fn merges(last: Event, e: Event, pulsetime: i64) -> bool {
    &&& e.timestamp - last.end() >= 0
    &&& e.timestamp - last.end() <= pulsetime
    &&& last.data@ == e.data@
}

/// `last` extended so as to cover the span of `e`.
pub open spec fn merged(last: Event, e: Event) -> Event {
    let span = e.end() - last.timestamp;
    Event {
        duration: if span > last.duration { span as i64 } else { last.duration },
        ..last
    }
}

/// Whether `e` is what a stored copy of `src` looks like under id `id`.
pub open spec fn stored_as(e: Event, src: Event, id: i64) -> bool {
    &&& e.id == Some(id)
    &&& e.timestamp == src.timestamp
    &&& e.duration == src.duration
    &&& e.data == src.data
}

/// `new` is `old` with the events of `added` put in: every element of one
/// is an element of the others, and no element is lost or repeated.
pub open spec fn extended(new: Seq<Event>, old: Seq<Event>, added: Seq<Event>) -> bool {
    &&& new.len() == old.len() + added.len()
    &&& forall|x: Event| #[trigger] new.contains(x) <==> old.contains(x) || added.contains(x)
}

/// The events of `added` carry the ids `first`, `first + 1`, ... in order.
pub open spec fn numbered_from(added: Seq<Event>, first: int) -> bool {
    forall|k: int| 0 <= k < added.len() ==> (#[trigger] added[k]).id == Some((first + k) as i64)
}

/// With no bounds, every event is in range.
pub proof fn lemma_unbounded_range(s: Seq<Event>)
    ensures
        in_range(s, None, None) == s,
    decreases s.len(),
{
    reveal(Seq::filter);
    if s.len() > 0 {
        lemma_unbounded_range(s.drop_last());
        assert(s.drop_last().push(s.last()) =~= s);
    }
}

proof fn lemma_newer_trans(a: Event, b: Event, c: Event)
    requires
        newer(a, b),
        newer(b, c),
    ensures
        newer(a, c),
{
}

/// `new` is `old` after `create_bucket(b)` succeeded.
pub open spec fn created(old: Datastore, new: Datastore, b: Bucket) -> bool {
    &&& !old.has_bucket(b.id@)
    &&& new.has_bucket(b.id@)
    &&& new.bucket_of(b.id@).same_fields(b)
    &&& new.bucket_of(b.id@).bid is Some
    &&& new.events_of(b.id@) == Seq::<Event>::empty()
    &&& new.next_id(b.id@) == 0
    &&& new.others_kept(old, b.id@)
}

/// `new` is `old` after `insert_events(id, events)` succeeded with `out`.
pub open spec fn inserted(old: Datastore, new: Datastore, id: Seq<char>, events: Seq<Event>, out: Seq<Event>) -> bool {
    &&& old.has_bucket(id)
    &&& new.has_bucket(id)
    &&& out.len() == events.len()
    &&& forall|k: int| 0 <= k < out.len() ==> {
        &&& (#[trigger] out[k]).timestamp == events[k].timestamp
        &&& out[k].duration == events[k].duration
        &&& out[k].data == events[k].data
    }
    &&& numbered_from(out, old.next_id(id))
    &&& extended(new.events_of(id), old.events_of(id), out)
    &&& new.next_id(id) == old.next_id(id) + events.len()
    &&& new.bucket_of(id) == old.bucket_of(id)
    &&& new.others_kept(old, id)
}

/// `new` is `old` after `heartbeat(id, e, pulsetime)` succeeded with `r`:
/// merged into the newest event, or stored under the next id.
pub open spec fn beat(old: Datastore, new: Datastore, id: Seq<char>, e: Event, pulsetime: i64, r: Event) -> bool {
    &&& old.has_bucket(id)
    &&& new.has_bucket(id)
    &&& new.bucket_of(id) == old.bucket_of(id)
    &&& new.others_kept(old, id)
    &&& if old.events_of(id).len() > 0 && merges(old.events_of(id)[0], e, pulsetime) {
        &&& r == merged(old.events_of(id)[0], e)
        &&& new.events_of(id) == old.events_of(id).update(0, r)
        &&& new.next_id(id) == old.next_id(id)
    } else {
        &&& r.timestamp == e.timestamp
        &&& r.duration == e.duration
        &&& r.data == e.data
        &&& r.id == Some(old.next_id(id) as i64)
        &&& extended(new.events_of(id), old.events_of(id), seq![r])
        &&& new.next_id(id) == old.next_id(id) + 1
    }
}

/// `new` is `old` after `delete_bucket(id)` succeeded.
pub open spec fn bucket_deleted(old: Datastore, new: Datastore, id: Seq<char>) -> bool {
    &&& old.has_bucket(id)
    &&& !new.has_bucket(id)
    &&& new.others_kept(old, id)
}

struct Slot {
    bucket: Bucket,
    /// Newest-first.
    events: Vec<Event>,
    next_event_id: i64,
}

impl Slot {
    spec fn wf(&self) -> bool {
        &&& newest_first(self.events@)
        &&& self.next_event_id >= 0
        &&& forall|i: int|
            0 <= i < self.events@.len() ==> {
                &&& (#[trigger] self.events@[i]).id is Some
                &&& 0 <= self.events@[i].id->0 < self.next_event_id
                &&& self.events@[i].duration >= 0
            }
        &&& forall|i: int, j: int|
            0 <= i < self.events@.len() && 0 <= j < self.events@.len() && i != j
                ==> (#[trigger] self.events@[i]).id->0 != (#[trigger] self.events@[j]).id->0
    }
}

impl Slot {
    /// Stores a copy of `e` under the next id, at its newest-first place.
    fn insert_one(&mut self, e: &Event) -> (r: Event)
        requires
            old(self).wf(),
            old(self).next_event_id < i64::MAX,
            e.duration >= 0,
        ensures
            final(self).wf(),
            final(self).bucket == old(self).bucket,
            final(self).next_event_id == old(self).next_event_id + 1,
            stored_as(r, *e, old(self).next_event_id),
            extended(final(self).events@, old(self).events@, seq![r]),
            forall|a: int| 0 <= a < old(self).events@.len()
                ==> (#[trigger] old(self).events@[a]).id->0 < r.id->0,
    {
        let ghost pre = *self;
        let mut p: usize = 0;
        while p < self.events.len() && self.events[p].timestamp > e.timestamp
            invariant
                p <= self.events@.len(),
                forall|k: int| 0 <= k < p ==> (#[trigger] self.events@[k]).timestamp > e.timestamp,
            decreases self.events@.len() - p,
        {
            p += 1;
        }
        let mut stored = e.copied();
        stored.id = Some(self.next_event_id);
        let ghost r = stored;
        let out = stored.copied();
        self.events.insert(p, stored);
        self.next_event_id = self.next_event_id + 1;
        proof {
            let old_s = pre.events@;
            let new_s = self.events@;
            old_s.insert_ensures(p as int, r);
            assert(new_s =~= old_s.insert(p as int, r));
            assert forall|k: int| p <= k < old_s.len() implies (#[trigger] old_s[k]).timestamp <= e.timestamp by {
                if p < old_s.len() {
                    assert(!(old_s[p as int].timestamp > e.timestamp));
                    if k > p {
                        assert(newer(old_s[p as int], old_s[k]));
                    }
                }
            }
            assert forall|a: int, b: int| 0 <= a < b < new_s.len() implies newer(#[trigger] new_s[a], #[trigger] new_s[b]) by {
                if b < p {
                    assert(newer(old_s[a], old_s[b]));
                } else if b == p {
                    assert(old_s[a].timestamp > e.timestamp);
                } else if a < p {
                    assert(newer(old_s[a], old_s[b - 1]));
                } else if a == p {
                    assert(old_s[b - 1].timestamp <= e.timestamp);
                    assert(old_s[b - 1].id->0 < pre.next_event_id);
                } else {
                    assert(newer(old_s[a - 1], old_s[b - 1]));
                }
            }
            assert forall|k: int| 0 <= k < new_s.len() implies {
                &&& (#[trigger] new_s[k]).id is Some
                &&& 0 <= new_s[k].id->0 < self.next_event_id
                &&& new_s[k].duration >= 0
            } by {
                if k < p {
                    assert(new_s[k] == old_s[k]);
                } else if k > p {
                    assert(new_s[k] == old_s[k - 1]);
                }
            }
            assert forall|x: Event| #[trigger] new_s.contains(x) <==> old_s.contains(x) || seq![r].contains(x) by {
                if new_s.contains(x) {
                    let k = choose|k: int| 0 <= k < new_s.len() && new_s[k] == x;
                    if k < p {
                        assert(old_s[k] == x);
                    } else if k > p {
                        assert(old_s[k - 1] == x);
                    } else {
                        assert(seq![r][0] == x);
                    }
                }
                if old_s.contains(x) {
                    let k = choose|k: int| 0 <= k < old_s.len() && old_s[k] == x;
                    if k < p {
                        assert(new_s[k] == x);
                    } else {
                        assert(new_s[k + 1] == x);
                    }
                }
                if seq![r].contains(x) {
                    assert(seq![r][0] == x);
                    assert(new_s[p as int] == x);
                }
            }
        }
        out
    }

    /// The events that meet `[start, end]`, newest-first.
    fn select(&self, start: Option<i64>, end: Option<i64>) -> (r: Vec<Event>)
        ensures
            r@ == in_range(self.events@, start, end),
    {
        let mut r: Vec<Event> = Vec::new();
        let mut i: usize = 0;
        while i < self.events.len()
            invariant
                i <= self.events@.len(),
                r@ == in_range(self.events@.take(i as int), start, end),
            decreases self.events@.len() - i,
        {
            let e = &self.events[i];
            let hit = match start {
                Some(s) => e.timestamp as i128 + e.duration as i128 > s as i128,
                None => true,
            } && match end {
                Some(t) => e.timestamp <= t,
                None => true,
            };
            proof {
                let pred = |x: Event| x.meets(start, end);
                assert(self.events@.take(i as int + 1) =~= self.events@.take(i as int).push(*e));
                self.events@.take(i as int).lemma_filter_push(*e, pred);
            }
            if hit {
                r.push(e.copied());
            }
            i += 1;
        }
        proof {
            assert(self.events@.take(self.events@.len() as int) =~= self.events@);
        }
        r
    }
}

/// The store: every bucket with its events. Exclusive access to it is
/// whatever the holder of the handle enforces (`&mut` for writers).
pub struct Datastore {
    slots: Vec<Slot>,
    next_bid: i64,
}

impl Datastore {
    pub closed spec fn wf(&self) -> bool {
        &&& self.next_bid >= 0
        &&& forall|i: int|
            0 <= i < self.slots@.len() ==> {
                &&& (#[trigger] self.slots@[i]).wf()
                &&& self.slots@[i].bucket.bid is Some
                &&& 0 <= self.slots@[i].bucket.bid->0 < self.next_bid
            }
        &&& forall|i: int, j: int|
            0 <= i < self.slots@.len() && 0 <= j < self.slots@.len() && i != j
                ==> (#[trigger] self.slots@[i]).bucket.id@ != (#[trigger] self.slots@[j]).bucket.id@
    }

    /// A fresh bucket key can still be assigned.
    pub closed spec fn bids_left(&self) -> bool {
        self.next_bid < i64::MAX
    }

    /// A bucket with id `id` exists.
    pub closed spec fn has_bucket(&self, id: Seq<char>) -> bool {
        exists|i: int| 0 <= i < self.slots@.len() && self.slots@[i].bucket.id@ == id
    }

    closed spec fn index_of(&self, id: Seq<char>) -> int {
        choose|i: int| 0 <= i < self.slots@.len() && self.slots@[i].bucket.id@ == id
    }

    /// The bucket with id `id`, when `has_bucket(id)`.
    pub closed spec fn bucket_of(&self, id: Seq<char>) -> Bucket {
        self.slots@[self.index_of(id)].bucket
    }

    /// The events of bucket `id`, newest-first, when `has_bucket(id)`.
    pub closed spec fn events_of(&self, id: Seq<char>) -> Seq<Event> {
        self.slots@[self.index_of(id)].events@
    }

    /// The id that the next event stored in bucket `id` receives; every
    /// stored or deleted event of the bucket had a smaller one.
    pub closed spec fn next_id(&self, id: Seq<char>) -> int {
        self.slots@[self.index_of(id)].next_event_id as int
    }

    /// Every bucket but `id` is as in `old`.
    pub open spec fn others_kept(&self, old: Datastore, id: Seq<char>) -> bool {
        forall|k: Seq<char>|
            k != id ==> {
                &&& (#[trigger] self.has_bucket(k)) == old.has_bucket(k)
                &&& self.has_bucket(k) ==> self.bucket_of(k) == old.bucket_of(k)
                    && self.events_of(k) == old.events_of(k) && self.next_id(k) == old.next_id(k)
            }
    }

    /// Whether every event stored in bucket `id` is well-formed: ordered
    /// newest-first, with an id and a non-negative duration.
    pub open spec fn events_wf(&self, id: Seq<char>) -> bool {
        &&& newest_first(self.events_of(id))
        &&& forall|i: int|
            0 <= i < self.events_of(id).len() ==> (#[trigger] self.events_of(id)[i]).id is Some
                && self.events_of(id)[i].duration >= 0
                && 0 <= self.events_of(id)[i].id->0 < self.next_id(id)
        &&& 0 <= self.next_id(id) <= i64::MAX
        &&& forall|i: int, j: int|
            0 <= i < self.events_of(id).len() && 0 <= j < self.events_of(id).len() && i != j
                ==> (#[trigger] self.events_of(id)[i]).id->0 != (#[trigger] self.events_of(id)[j]).id->0
    }

    proof fn lemma_index(&self, i: int)
        requires
            self.wf(),
            0 <= i < self.slots@.len(),
        ensures
            self.has_bucket(self.slots@[i].bucket.id@),
            self.index_of(self.slots@[i].bucket.id@) == i,
    {
        let id = self.slots@[i].bucket.id@;
        assert(self.slots@[i].bucket.id@ == id);
        let j = self.index_of(id);
        assert(self.slots@[j].bucket.id@ == id);
    }

    /// The stored events of every bucket are well-formed.
    pub proof fn lemma_events_wf(&self, id: Seq<char>)
        requires
            self.wf(),
            self.has_bucket(id),
        ensures
            self.events_wf(id),
    {
        let i = self.index_of(id);
        assert(self.slots@[i].wf());
        assert(self.slots@[i].events@ == self.events_of(id));
    }

    /// An empty store.
    pub fn new() -> (r: Datastore)
        ensures
            r.wf(),
            r.bids_left(),
            forall|id: Seq<char>| !(#[trigger] r.has_bucket(id)),
    {
        Datastore { slots: Vec::new(), next_bid: 0 }
    }

    fn find(&self, id: &String) -> (r: Option<usize>)
        requires
            self.wf(),
        ensures
            r is None <==> !self.has_bucket(id@),
            r matches Some(i) ==> i < self.slots@.len() && self.slots@[i as int].bucket.id@ == id@
                && self.index_of(id@) == i,
    {
        let mut i: usize = 0;
        while i < self.slots.len()
            invariant
                self.wf(),
                i <= self.slots@.len(),
                forall|k: int| 0 <= k < i ==> self.slots@[k].bucket.id@ != id@,
            decreases self.slots@.len() - i,
        {
            if self.slots[i].bucket.id == *id {
                proof {
                    self.lemma_index(i as int);
                }
                return Some(i);
            }
            i += 1;
        }
        None
    }

    /// Creates a bucket with no events. The store assigns `bid`.
    pub fn create_bucket(&mut self, bucket: &Bucket) -> (r: Result<(), DatastoreError>)
        requires
            old(self).wf(),
        ensures
            final(self).wf(),
            r == Err::<(), _>(DatastoreError::BucketAlreadyExists) <==> old(self).has_bucket(bucket.id@),
            r == Err::<(), _>(DatastoreError::Overflow) <==> !old(self).has_bucket(bucket.id@)
                && !old(self).bids_left(),
            r is Err ==> *final(self) == *old(self),
            r is Ok ==> {
                &&& final(self).has_bucket(bucket.id@)
                &&& final(self).bucket_of(bucket.id@).same_fields(*bucket)
                &&& final(self).bucket_of(bucket.id@).bid is Some
                &&& final(self).events_of(bucket.id@) == Seq::<Event>::empty()
                &&& final(self).next_id(bucket.id@) == 0
                &&& final(self).others_kept(*old(self), bucket.id@)
            },
            !old(self).has_bucket(bucket.id@) && old(self).bids_left() ==> r is Ok,
            r is Ok ==> created(*old(self), *final(self), *bucket),
    {
        if self.find(&bucket.id).is_some() {
            return Err(DatastoreError::BucketAlreadyExists);
        }
        if self.next_bid == i64::MAX {
            return Err(DatastoreError::Overflow);
        }
        let ghost pre = *self;
        let mut b = bucket.copied();
        b.bid = Some(self.next_bid);
        self.slots.push(Slot { bucket: b, events: Vec::new(), next_event_id: 0 });
        self.next_bid = self.next_bid + 1;
        proof {
            let n = pre.slots@.len() as int;
            assert(self.slots@[n].wf());
            assert forall|i: int, j: int|
                0 <= i < self.slots@.len() && 0 <= j < self.slots@.len() && i != j
                    implies (#[trigger] self.slots@[i]).bucket.id@ != (#[trigger] self.slots@[j]).bucket.id@ by {
                if i == n {
                    assert(pre.slots@[j].bucket.id@ != bucket.id@);
                } else if j == n {
                    assert(pre.slots@[i].bucket.id@ != bucket.id@);
                } else {
                    assert(pre.slots@[i] == self.slots@[i]);
                }
            }
            assert(self.wf());
            self.lemma_index(n);
            assert forall|k: Seq<char>| k != bucket.id@ implies {
                &&& (#[trigger] self.has_bucket(k)) == pre.has_bucket(k)
                &&& self.has_bucket(k) ==> self.bucket_of(k) == pre.bucket_of(k)
                    && self.events_of(k) == pre.events_of(k) && self.next_id(k) == pre.next_id(k)
            } by {
                if pre.has_bucket(k) {
                    let i = pre.index_of(k);
                    pre.lemma_index(i);
                    assert(self.slots@[i] == pre.slots@[i]);
                    self.lemma_index(i);
                }
                if self.has_bucket(k) {
                    let i = self.index_of(k);
                    assert(i != n);
                    assert(pre.slots@[i] == self.slots@[i]);
                }
            }
        }
        Ok(())
    }

    /// The bucket with id `id`.
    pub fn get_bucket(&self, id: &String) -> (r: Result<Bucket, DatastoreError>)
        requires
            self.wf(),
        ensures
            r is Err <==> !self.has_bucket(id@),
            r matches Err(e) ==> e == DatastoreError::NoSuchBucket,
            r matches Ok(b) ==> b == self.bucket_of(id@),
    {
        match self.find(id) {
            Some(i) => Ok(self.slots[i].bucket.copied()),
            None => Err(DatastoreError::NoSuchBucket),
        }
    }

    /// All buckets, one for each id.
    pub fn get_buckets(&self) -> (r: Vec<Bucket>)
        requires
            self.wf(),
        ensures
            forall|i: int| 0 <= i < r@.len() ==> self.has_bucket((#[trigger] r@[i]).id@)
                && r@[i] == self.bucket_of(r@[i].id@),
            forall|id: Seq<char>| #[trigger] self.has_bucket(id)
                ==> exists|i: int| 0 <= i < r@.len() && (#[trigger] r@[i]).id@ == id,
            forall|i: int, j: int| 0 <= i < j < r@.len() ==> (#[trigger] r@[i]).id@ != (#[trigger] r@[j]).id@,
    {
        let mut r: Vec<Bucket> = Vec::new();
        let mut i: usize = 0;
        while i < self.slots.len()
            invariant
                self.wf(),
                i <= self.slots@.len(),
                r@.len() == i,
                forall|k: int| 0 <= k < i ==> #[trigger] r@[k] == self.slots@[k].bucket,
            decreases self.slots@.len() - i,
        {
            r.push(self.slots[i].bucket.copied());
            i += 1;
        }
        proof {
            assert forall|k: int| 0 <= k < r@.len() implies self.has_bucket((#[trigger] r@[k]).id@)
                && r@[k] == self.bucket_of(r@[k].id@) by {
                self.lemma_index(k);
            }
            assert forall|id: Seq<char>| #[trigger] self.has_bucket(id)
                implies exists|k: int| 0 <= k < r@.len() && (#[trigger] r@[k]).id@ == id by {
                let k = self.index_of(id);
                assert(r@[k].id@ == id);
            }
        }
        r
    }

    /// Removes bucket `id` and all of its events.
    pub fn delete_bucket(&mut self, id: &String) -> (r: Result<(), DatastoreError>)
        requires
            old(self).wf(),
        ensures
            final(self).wf(),
            r is Err <==> !old(self).has_bucket(id@),
            r matches Err(e) ==> e == DatastoreError::NoSuchBucket,
            !final(self).has_bucket(id@),
            final(self).others_kept(*old(self), id@),
            r is Ok ==> bucket_deleted(*old(self), *final(self), id@),
    {
        let ghost pre = *self;
        match self.find(id) {
            None => Err(DatastoreError::NoSuchBucket),
            Some(i) => {
                self.slots.remove(i);
                proof {
                    let n = pre.slots@.len() as int;
                    let at = i as int;
                    pre.slots@.remove_ensures(at);
                    assert(self.slots@ == pre.slots@.remove(at));
                    assert forall|a: int| 0 <= a < self.slots@.len() implies
                        #[trigger] self.slots@[a] == pre.slots@[if a < at { a } else { a + 1 }] by {}
                    assert forall|a: int, b: int|
                        0 <= a < self.slots@.len() && 0 <= b < self.slots@.len() && a != b
                            implies (#[trigger] self.slots@[a]).bucket.id@ != (#[trigger] self.slots@[b]).bucket.id@ by {
                        let pa = if a < at { a } else { a + 1 };
                        let pb = if b < at { b } else { b + 1 };
                        assert(pre.slots@[pa].bucket.id@ != pre.slots@[pb].bucket.id@);
                    }
                    assert forall|a: int| 0 <= a < self.slots@.len() implies self.slots@[a].bucket.id@ != id@ by {
                        let pa = if a < at { a } else { a + 1 };
                        assert(pre.slots@[pa].bucket.id@ != pre.slots@[at].bucket.id@);
                    }
                    assert forall|k: Seq<char>| k != id@ implies {
                        &&& (#[trigger] self.has_bucket(k)) == pre.has_bucket(k)
                        &&& self.has_bucket(k) ==> self.bucket_of(k) == pre.bucket_of(k)
                            && self.events_of(k) == pre.events_of(k) && self.next_id(k) == pre.next_id(k)
                    } by {
                        if pre.has_bucket(k) {
                            let p = pre.index_of(k);
                            assert(p != at);
                            let a = if p < at { p } else { p - 1 };
                            assert(self.slots@[a] == pre.slots@[p]);
                            self.lemma_index(a);
                        }
                        if self.has_bucket(k) {
                            let a = self.index_of(k);
                            let pa = if a < at { a } else { a + 1 };
                            pre.lemma_index(pa);
                        }
                    }
                }
                Ok(())
            },
        }
    }

    proof fn lemma_replaced(&self, pre: Datastore, i: int, s: Slot)
        requires
            pre.wf(),
            0 <= i < pre.slots@.len(),
            self.slots@ == pre.slots@.update(i, s),
            s.wf(),
            s.bucket == pre.slots@[i].bucket,
            self.next_bid == pre.next_bid,
        ensures
            self.wf(),
            self.has_bucket(s.bucket.id@),
            pre.has_bucket(s.bucket.id@),
            self.bucket_of(s.bucket.id@) == pre.bucket_of(s.bucket.id@),
            pre.events_of(s.bucket.id@) == pre.slots@[i].events@,
            self.events_of(s.bucket.id@) == s.events@,
            self.next_id(s.bucket.id@) == s.next_event_id,
            pre.next_id(s.bucket.id@) == pre.slots@[i].next_event_id,
            self.others_kept(pre, s.bucket.id@),
            self.bids_left() == pre.bids_left(),
    {
        let id = s.bucket.id@;
        assert forall|a: int, b: int|
            0 <= a < self.slots@.len() && 0 <= b < self.slots@.len() && a != b
                implies (#[trigger] self.slots@[a]).bucket.id@ != (#[trigger] self.slots@[b]).bucket.id@ by {
            assert(pre.slots@[a].bucket.id@ != pre.slots@[b].bucket.id@);
        }
        assert(self.wf());
        self.lemma_index(i);
        pre.lemma_index(i);
        assert forall|k: Seq<char>| k != id implies {
            &&& (#[trigger] self.has_bucket(k)) == pre.has_bucket(k)
            &&& self.has_bucket(k) ==> self.bucket_of(k) == pre.bucket_of(k)
                && self.events_of(k) == pre.events_of(k)
        } by {
            if pre.has_bucket(k) {
                let a = pre.index_of(k);
                assert(a != i);
                self.lemma_index(a);
            }
            if self.has_bucket(k) {
                let a = self.index_of(k);
                assert(a != i);
                pre.lemma_index(a);
            }
        }
    }

    /// Event ids for `n` more events can still be assigned in bucket `id`.
    pub open spec fn ids_left(&self, id: Seq<char>, n: int) -> bool {
        self.next_id(id) + n <= i64::MAX
    }

    /// Stores `events` in bucket `id`, each under a fresh id assigned in
    /// list order, and returns the stored events in that order. Nothing is
    /// stored on failure.
    pub fn insert_events(&mut self, id: &String, events: &Vec<Event>) -> (r: Result<Vec<Event>, DatastoreError>)
        requires
            old(self).wf(),
            forall|k: int| 0 <= k < events@.len() ==> (#[trigger] events@[k]).duration >= 0,
        ensures
            final(self).wf(),
            r == Err::<Vec<Event>, _>(DatastoreError::NoSuchBucket) <==> !old(self).has_bucket(id@),
            r == Err::<Vec<Event>, _>(DatastoreError::Overflow) <==> old(self).has_bucket(id@)
                && !old(self).ids_left(id@, events@.len() as int),
            r is Err ==> *final(self) == *old(self),
            r matches Ok(out) ==> {
                &&& out@.len() == events@.len()
                &&& forall|k: int| 0 <= k < out@.len() ==> {
                    &&& (#[trigger] out@[k]).timestamp == events@[k].timestamp
                    &&& out@[k].duration == events@[k].duration
                    &&& out@[k].data == events@[k].data
                    &&& out@[k].id is Some
                }
                &&& numbered_from(out@, old(self).next_id(id@))
                &&& extended(final(self).events_of(id@), old(self).events_of(id@), out@)
                &&& final(self).next_id(id@) == old(self).next_id(id@) + events@.len()
                &&& final(self).bucket_of(id@) == old(self).bucket_of(id@)
                &&& final(self).others_kept(*old(self), id@)
                &&& final(self).bids_left() == old(self).bids_left()
            },
            final(self).has_bucket(id@) == old(self).has_bucket(id@),
            old(self).has_bucket(id@) && old(self).ids_left(id@, events@.len() as int) ==> r is Ok,
            r matches Ok(out) ==> inserted(*old(self), *final(self), id@, events@, out@),
    {
        let i = match self.find(id) {
            Some(i) => i,
            None => return Err(DatastoreError::NoSuchBucket),
        };
        if self.slots[i].next_event_id as i128 + events.len() as i128 > i64::MAX as i128 {
            return Err(DatastoreError::Overflow);
        }
        let ghost pre = *self;
        let mut slot = self.slots.remove(i);
        proof {
            assert(slot == pre.slots@[i as int]);
        }
        let ghost first = slot.events@;
        let ghost base = slot.next_event_id;
        let mut out: Vec<Event> = Vec::new();
        let mut k: usize = 0;
        while k < events.len()
            invariant
                pre.wf(),
                slot.wf(),
                slot.bucket == pre.slots@[i as int].bucket,
                k <= events@.len(),
                slot.next_event_id == base + k,
                base + events@.len() <= i64::MAX,
                out@.len() == k,
                forall|m: int| 0 <= m < events@.len() ==> (#[trigger] events@[m]).duration >= 0,
                forall|m: int| 0 <= m < k ==> {
                    &&& (#[trigger] out@[m]).timestamp == events@[m].timestamp
                    &&& out@[m].duration == events@[m].duration
                    &&& out@[m].data == events@[m].data
                    &&& out@[m].id == Some((base + m) as i64)
                },
                forall|a: int| 0 <= a < first.len() ==> (#[trigger] first[a]).id->0 < base,
                extended(slot.events@, first, out@),
            decreases events@.len() - k,
        {
            let ghost before = slot.events@;
            let e = slot.insert_one(&events[k]);
            let ghost prev_out = out@;
            out.push(e);
            proof {
                assert(out@.drop_last() =~= prev_out);
                assert forall|x: Event| #[trigger] slot.events@.contains(x) <==> first.contains(x) || out@.contains(x) by {
                    if out@.contains(x) {
                        let m = choose|m: int| 0 <= m < out@.len() && out@[m] == x;
                        if m < k {
                            assert(out@.drop_last()[m] == x);
                            assert(out@.drop_last().contains(x));
                        } else {
                            assert(seq![e][0] == x);
                        }
                    }
                    if out@.drop_last().contains(x) {
                        let m = choose|m: int| 0 <= m < out@.drop_last().len() && out@.drop_last()[m] == x;
                        assert(out@[m] == x);
                    }
                    if seq![e].contains(x) {
                        assert(seq![e][0] == x);
                        assert(out@[k as int] == x);
                    }
                }
                assert(out@.drop_last() =~= prev_out);
            }
            k += 1;
        }
        let ghost done = slot;
        self.slots.insert(i, slot);
        proof {
            assert(self.slots@ =~= pre.slots@.update(i as int, done));
            self.lemma_replaced(pre, i as int, done);
        }
        Ok(out)
    }

    /// The events of bucket `id` whose span meets `[start, end]` (an absent
    /// bound is unbounded), newest-first, at most `limit` of them.
    pub fn get_events(&self, id: &String, start: Option<i64>, end: Option<i64>, limit: Option<u64>) -> (r: Result<Vec<Event>, DatastoreError>)
        requires
            self.wf(),
        ensures
            r is Err <==> !self.has_bucket(id@),
            r matches Err(e) ==> e == DatastoreError::NoSuchBucket,
            r matches Ok(out) ==> out@ == limited(in_range(self.events_of(id@), start, end), limit),
    {
        match self.find(id) {
            None => Err(DatastoreError::NoSuchBucket),
            Some(i) => {
                let mut out = self.slots[i].select(start, end);
                if let Some(n) = limit {
                    if n < out.len() as u64 {
                        out.truncate(n as usize);
                    }
                }
                Ok(out)
            },
        }
    }

    /// How many events of bucket `id` meet `[start, end]`.
    pub fn get_event_count(&self, id: &String, start: Option<i64>, end: Option<i64>) -> (r: Result<u64, DatastoreError>)
        requires
            self.wf(),
        ensures
            r is Err <==> !self.has_bucket(id@),
            r matches Err(e) ==> e == DatastoreError::NoSuchBucket,
            r matches Ok(n) ==> n == in_range(self.events_of(id@), start, end).len(),
    {
        match self.find(id) {
            None => Err(DatastoreError::NoSuchBucket),
            Some(i) => Ok(self.slots[i].select(start, end).len() as u64),
        }
    }

    /// Removes from bucket `id` every event whose id is listed in `ids`;
    /// ids that match nothing are ignored.
    pub fn delete_events_by_id(&mut self, id: &String, ids: &Vec<i64>) -> (r: Result<(), DatastoreError>)
        requires
            old(self).wf(),
        ensures
            final(self).wf(),
            r is Err <==> !old(self).has_bucket(id@),
            r matches Err(e) ==> e == DatastoreError::NoSuchBucket,
            r is Err ==> *final(self) == *old(self),
            r is Ok ==> {
                &&& final(self).events_of(id@) == without_ids(old(self).events_of(id@), ids@)
                &&& final(self).next_id(id@) == old(self).next_id(id@)
                &&& final(self).bucket_of(id@) == old(self).bucket_of(id@)
                &&& final(self).others_kept(*old(self), id@)
                &&& final(self).bids_left() == old(self).bids_left()
            },
            final(self).has_bucket(id@) == old(self).has_bucket(id@),
    {
        let i = match self.find(id) {
            Some(i) => i,
            None => return Err(DatastoreError::NoSuchBucket),
        };
        let ghost pre = *self;
        let mut slot = self.slots.remove(i);
        proof {
            assert(slot == pre.slots@[i as int]);
        }
        let ghost first = slot.events@;
        let pred = Ghost(|x: Event| !ids@.contains(x.id->0));
        let mut kept: Vec<Event> = Vec::new();
        let mut k: usize = 0;
        while k < slot.events.len()
            invariant
                slot.wf(),
                slot.events@ == first,
                k <= first.len(),
                kept@ == first.take(k as int).filter(pred@),
                pred@ == (|x: Event| !ids@.contains(x.id->0)),
                forall|a: int| 0 <= a < kept@.len() ==> (#[trigger] kept@[a]).id is Some
                    && 0 <= kept@[a].id->0 < slot.next_event_id && kept@[a].duration >= 0,
                newest_first(kept@),
                kept@.len() > 0 ==> exists|b: int| 0 <= b < k && first[b] == kept@.last(),
                forall|a: int| 0 <= a < kept@.len() ==> exists|b: int| 0 <= b < k && first[b] == #[trigger] kept@[a],
                forall|a: int, c: int| 0 <= a < kept@.len() && 0 <= c < kept@.len() && a != c
                    ==> (#[trigger] kept@[a]).id->0 != (#[trigger] kept@[c]).id->0,
            decreases first.len() - k,
        {
            let e = &slot.events[k];
            let eid: i64 = match e.id {
                Some(x) => x,
                None => 0,
            };
            proof {
                assert(slot.events@[k as int].id is Some);
            }
            let mut listed = false;
            let mut m: usize = 0;
            while m < ids.len()
                invariant
                    m <= ids@.len(),
                    eid == e.id->0,
                    listed <==> exists|c: int| 0 <= c < m && ids@[c] == e.id->0,
                decreases ids@.len() - m,
            {
                if ids[m] == eid {
                    listed = true;
                }
                m += 1;
            }
            proof {
                assert(first.take(k as int + 1) =~= first.take(k as int).push(*e));
                first.take(k as int).lemma_filter_push(*e, pred@);
                if listed {
                    let c = choose|c: int| 0 <= c < m && ids@[c] == e.id->0;
                    assert(ids@.contains(e.id->0));
                } else {
                    assert(!ids@.contains(e.id->0));
                }
                if kept@.len() > 0 {
                    let b = choose|b: int| 0 <= b < k && first[b] == kept@.last();
                    assert(newer(first[b], first[k as int]));
                    assert forall|a: int| 0 <= a < kept@.len() implies newer(#[trigger] kept@[a], *e) by {
                        if a < kept@.len() - 1 {
                            lemma_newer_trans(kept@[a], kept@.last(), *e);
                        }
                    }
                }
            }
            let ghost kept0 = kept@;
            if !listed {
                kept.push(e.copied());
                proof {
                    assert forall|a: int| 0 <= a < kept0.len() implies kept0[a].id->0 != e.id->0 by {
                        let b = choose|b: int| 0 <= b < k && first[b] == kept0[a];
                        assert(b != k);
                    }
                    assert forall|a: int| 0 <= a < kept@.len() implies exists|b: int|
                        0 <= b < k + 1 && first[b] == #[trigger] kept@[a] by {
                        if a < kept0.len() {
                            assert(kept@[a] == kept0[a]);
                        } else {
                            assert(first[k as int] == kept@[a]);
                        }
                    }
                }
            }
            k += 1;
        }
        proof {
            assert(first.take(first.len() as int) =~= first);
        }
        slot.events = kept;
        let ghost done = slot;
        self.slots.insert(i, slot);
        proof {
            assert(self.slots@ =~= pre.slots@.update(i as int, done));
            self.lemma_replaced(pre, i as int, done);
        }
        Ok(())
    }

    /// Coalesces heartbeat `e` into bucket `id`. When the newest stored
    /// event `last` exists and `merges(last, e, pulsetime)`, `last` is
    /// extended in place (same id, same timestamp) to cover `e`; otherwise `e`
    /// is stored as a new event under a fresh id. Returns the event as stored.
    pub fn heartbeat(&mut self, id: &String, e: &Event, pulsetime: i64) -> (r: Result<Event, DatastoreError>)
        requires
            old(self).wf(),
            e.duration >= 0,
        ensures
            final(self).wf(),
            r == Err::<Event, _>(DatastoreError::NoSuchBucket) <==> !old(self).has_bucket(id@),
            r is Err ==> *final(self) == *old(self),
            old(self).has_bucket(id@) && old(self).events_of(id@).len() > 0
                && merges(old(self).events_of(id@)[0], *e, pulsetime) ==> {
                let last = old(self).events_of(id@)[0];
                &&& (e.end() - last.timestamp <= i64::MAX) ==> {
                    &&& r == Ok::<Event, DatastoreError>(merged(last, *e))
                    &&& final(self).events_of(id@) == old(self).events_of(id@).update(0, merged(last, *e))
                    &&& final(self).next_id(id@) == old(self).next_id(id@)
                }
                &&& (e.end() - last.timestamp > i64::MAX) ==> r == Err::<Event, _>(DatastoreError::Overflow)
            },
            old(self).has_bucket(id@) && !(old(self).events_of(id@).len() > 0
                && merges(old(self).events_of(id@)[0], *e, pulsetime)) ==> {
                &&& old(self).ids_left(id@, 1) ==> (r matches Ok(x) && {
                    &&& x.timestamp == e.timestamp
                    &&& x.duration == e.duration
                    &&& x.data == e.data
                    &&& x.id == Some(old(self).next_id(id@) as i64)
                    &&& extended(final(self).events_of(id@), old(self).events_of(id@), seq![x])
                    &&& final(self).next_id(id@) == old(self).next_id(id@) + 1
                })
                &&& !old(self).ids_left(id@, 1) ==> r == Err::<Event, _>(DatastoreError::Overflow)
            },
            r is Ok ==> {
                &&& final(self).bucket_of(id@) == old(self).bucket_of(id@)
                &&& final(self).others_kept(*old(self), id@)
                &&& final(self).bids_left() == old(self).bids_left()
            },
            final(self).has_bucket(id@) == old(self).has_bucket(id@),
            r matches Ok(x) ==> beat(*old(self), *final(self), id@, *e, pulsetime, x),
    {
        let i = match self.find(id) {
            Some(i) => i,
            None => return Err(DatastoreError::NoSuchBucket),
        };
        let ghost pre = *self;
        proof {
            assert(pre.slots@[i as int].wf());
        }
        if self.slots[i].events.len() > 0 {
            let last = &self.slots[i].events[0];
            let gap: i128 = e.timestamp as i128 - (last.timestamp as i128 + last.duration as i128);
            if gap >= 0 && gap <= pulsetime as i128 && last.data == e.data {
                let span: i128 = e.timestamp as i128 + e.duration as i128 - last.timestamp as i128;
                if span > i64::MAX as i128 {
                    return Err(DatastoreError::Overflow);
                }
                let mut m = last.copied();
                if span > last.duration as i128 {
                    m.duration = span as i64;
                }
                let ghost mg = m;
                let out = m.copied();
                let mut slot = self.slots.remove(i);
                proof {
                    assert(slot == pre.slots@[i as int]);
                }
                slot.events.remove(0);
                slot.events.insert(0, m);
                proof {
                    let s0 = pre.slots@[i as int].events@;
                    assert(slot.events@ =~= s0.update(0, mg));
                    assert forall|a: int, b: int| 0 <= a < b < slot.events@.len()
                        implies newer(#[trigger] slot.events@[a], #[trigger] slot.events@[b]) by {
                        assert(newer(s0[a], s0[b]));
                    }
                    assert forall|k: int| 0 <= k < slot.events@.len() implies {
                        &&& (#[trigger] slot.events@[k]).id is Some
                        &&& 0 <= slot.events@[k].id->0 < slot.next_event_id
                        &&& slot.events@[k].duration >= 0
                    } by {
                        assert(s0[k].id is Some);
                    }
                }
                let ghost done = slot;
                self.slots.insert(i, slot);
                proof {
                    assert(self.slots@ =~= pre.slots@.update(i as int, done));
                    self.lemma_replaced(pre, i as int, done);
                }
                return Ok(out);
            }
        }
        if self.slots[i].next_event_id == i64::MAX {
            return Err(DatastoreError::Overflow);
        }
        let mut slot = self.slots.remove(i);
        proof {
            assert(slot == pre.slots@[i as int]);
        }
        let x = slot.insert_one(e);
        let ghost done = slot;
        self.slots.insert(i, slot);
        proof {
            assert(self.slots@ =~= pre.slots@.update(i as int, done));
            self.lemma_replaced(pre, i as int, done);
        }
        Ok(x)
    }
}

} // verus!
