use vstd::prelude::*;
use vstd::string::StringExecFns;

use crate::datastore::{
    beat, created, extended, in_range, inserted, lemma_unbounded_range, limited, merged, merges, numbered_from, without_ids,
    Datastore, DatastoreError,
};
use crate::datatype::{DataType, QueryError};
use crate::models::{Bucket, Event, Query};
use crate::query::{query as run_query, script_result};
use crate::time::{parse_rfc3339, rfc3339_nanos};

verus! {

/// The outcome of a request that did not succeed, as an HTTP status.
#[derive(Clone, Copy, Debug, PartialEq, Eq, Structural)]
pub enum Status {
    BadRequest,
    NotFound,
    NotModified,
    NoContent,
    InternalServerError,
    ServiceUnavailable,
}

/// A bucket together with all of its events.
#[derive(Debug)]
pub struct BucketExport {
    pub bucket: Bucket,
    pub events: Vec<Event>,
}

/// Buckets with their events, for export.
#[derive(Debug)]
pub struct BucketsExport {
    pub buckets: Vec<BucketExport>,
}

/// The status that answers a store fault.
pub open spec fn status_of(e: DatastoreError) -> Status {
    match e {
        DatastoreError::NoSuchBucket => Status::NotFound,
        DatastoreError::BucketAlreadyExists => Status::NotModified,
        DatastoreError::Overflow => Status::InternalServerError,
    }
}

fn to_status(e: DatastoreError) -> (r: Status)
    ensures
        r == status_of(e),
{
    match e {
        DatastoreError::NoSuchBucket => Status::NotFound,
        DatastoreError::BucketAlreadyExists => Status::NotModified,
        DatastoreError::Overflow => Status::InternalServerError,
    }
}

/// Every bucket.
pub fn buckets_get(ds: &Datastore) -> (r: Result<Vec<Bucket>, Status>)
    requires
        ds.wf(),
    ensures
        r matches Ok(bs) && {
            &&& forall|i: int| 0 <= i < bs@.len() ==> ds.has_bucket((#[trigger] bs@[i]).id@)
                && bs@[i] == ds.bucket_of(bs@[i].id@)
            &&& forall|id: Seq<char>| #[trigger] ds.has_bucket(id)
                ==> exists|i: int| 0 <= i < bs@.len() && (#[trigger] bs@[i]).id@ == id
        },
{
    Ok(ds.get_buckets())
}

/// The bucket `bucket_id`; `NotFound` when there is none.
pub fn bucket_get(ds: &Datastore, bucket_id: String) -> (r: Result<Bucket, Status>)
    requires
        ds.wf(),
    ensures
        r is Err <==> !ds.has_bucket(bucket_id@),
        r matches Err(s) ==> s == Status::NotFound,
        r matches Ok(b) ==> b == ds.bucket_of(bucket_id@),
{
    match ds.get_bucket(&bucket_id) {
        Ok(b) => Ok(b),
        Err(e) => Err(to_status(e)),
    }
}

/// Creates `bucket` under the id `bucket_id` (which overrides the id in the
/// message); `NotModified` when that id is taken.
pub fn bucket_new(ds: &mut Datastore, bucket_id: String, bucket: Bucket) -> (r: Result<(), Status>)
    requires
        old(ds).wf(),
    ensures
        final(ds).wf(),
        r == Err::<(), Status>(Status::NotModified) <==> old(ds).has_bucket(bucket_id@),
        r == Err::<(), Status>(Status::InternalServerError) <==> !old(ds).has_bucket(bucket_id@)
            && !old(ds).bids_left(),
        r is Ok ==> {
            &&& final(ds).has_bucket(bucket_id@)
            &&& final(ds).bucket_of(bucket_id@).id@ == bucket_id@
            &&& final(ds).bucket_of(bucket_id@)._type@ == bucket._type@
            &&& final(ds).bucket_of(bucket_id@).client@ == bucket.client@
            &&& final(ds).bucket_of(bucket_id@).hostname@ == bucket.hostname@
            &&& final(ds).bucket_of(bucket_id@).created == bucket.created
            &&& final(ds).bucket_of(bucket_id@).bid is Some
            &&& final(ds).events_of(bucket_id@) == Seq::<Event>::empty()
            &&& final(ds).others_kept(*old(ds), bucket_id@)
        },
        r is Err ==> *final(ds) == *old(ds),
        !old(ds).has_bucket(bucket_id@) && old(ds).bids_left() ==> r is Ok,
{
    let mut bucket = bucket;
    bucket.id = bucket_id;
    match ds.create_bucket(&bucket) {
        Ok(()) => Ok(()),
        Err(e) => Err(to_status(e)),
    }
}

/// The instant a query parameter names: `Some(None)` when it is absent,
/// `None` when it is not RFC 3339.
pub open spec fn bound_of(s: Option<String>) -> Option<Option<i64>> {
    match s {
        None => Some(None),
        Some(t) => match rfc3339_nanos(t@) {
            Some(n) => Some(Some(n)),
            None => None,
        },
    }
}

fn parse_bound(s: &Option<String>) -> (r: Option<Option<i64>>)
    ensures
        r == bound_of(*s),
{
    match s {
        None => Some(None),
        Some(t) => match parse_rfc3339(t.as_str()) {
            Some(n) => Some(Some(n)),
            None => None,
        },
    }
}

/// The events of bucket `bucket_id` that meet `[start, end]`, given as
/// RFC 3339 text, newest-first, at most `limit` of them. `BadRequest` when
/// a bound does not read; `NotFound` when there is no such bucket.
pub fn bucket_events_get(
    ds: &Datastore,
    bucket_id: String,
    start: Option<String>,
    end: Option<String>,
    limit: Option<u64>,
) -> (r: Result<Vec<Event>, Status>)
    requires
        ds.wf(),
    ensures
        bound_of(start) is None || bound_of(end) is None ==> r == Err::<Vec<Event>, Status>(Status::BadRequest),
        bound_of(start) is Some && bound_of(end) is Some ==> {
            &&& r is Err <==> !ds.has_bucket(bucket_id@)
            &&& r matches Err(s) ==> s == Status::NotFound
            &&& r matches Ok(es) ==> es@ == limited(
                in_range(ds.events_of(bucket_id@), bound_of(start)->0, bound_of(end)->0),
                limit,
            )
        },
{
    let starttime = match parse_bound(&start) {
        Some(t) => t,
        None => return Err(Status::BadRequest),
    };
    let endtime = match parse_bound(&end) {
        Some(t) => t,
        None => return Err(Status::BadRequest),
    };
    match ds.get_events(&bucket_id, starttime, endtime, limit) {
        Ok(es) => Ok(es),
        Err(e) => Err(to_status(e)),
    }
}

/// Stores `events` in bucket `bucket_id` and returns them as stored.
/// `BadRequest` when an event has a negative duration.
pub fn bucket_events_create(ds: &mut Datastore, bucket_id: String, events: Vec<Event>) -> (r: Result<Vec<Event>, Status>)
    requires
        old(ds).wf(),
    ensures
        final(ds).wf(),
        r is Err ==> *final(ds) == *old(ds),
        (exists|k: int| 0 <= k < events@.len() && (#[trigger] events@[k]).duration < 0)
            ==> r == Err::<Vec<Event>, Status>(Status::BadRequest),
        (forall|k: int| 0 <= k < events@.len() ==> (#[trigger] events@[k]).duration >= 0) ==> {
            &&& r == Err::<Vec<Event>, Status>(Status::NotFound) <==> !old(ds).has_bucket(bucket_id@)
            &&& r == Err::<Vec<Event>, Status>(Status::InternalServerError) <==> old(ds).has_bucket(bucket_id@)
                && !old(ds).ids_left(bucket_id@, events@.len() as int)
            &&& r matches Ok(out) ==> {
                &&& out@.len() == events@.len()
                &&& forall|k: int| 0 <= k < out@.len() ==> {
                    &&& (#[trigger] out@[k]).timestamp == events@[k].timestamp
                    &&& out@[k].duration == events@[k].duration
                    &&& out@[k].data == events@[k].data
                    &&& out@[k].id is Some
                }
                &&& numbered_from(out@, old(ds).next_id(bucket_id@))
                &&& extended(final(ds).events_of(bucket_id@), old(ds).events_of(bucket_id@), out@)
                &&& inserted(*old(ds), *final(ds), bucket_id@, events@, out@)
            }
            &&& old(ds).has_bucket(bucket_id@) && old(ds).ids_left(bucket_id@, events@.len() as int) ==> r is Ok
        },
        final(ds).has_bucket(bucket_id@) == old(ds).has_bucket(bucket_id@),
{
    let mut k: usize = 0;
    while k < events.len()
        invariant
            *ds == *old(ds),
            ds.wf(),
            k <= events@.len(),
            forall|j: int| 0 <= j < k ==> (#[trigger] events@[j]).duration >= 0,
        decreases events@.len() - k,
    {
        if events[k].duration < 0 {
            return Err(Status::BadRequest);
        }
        k += 1;
    }
    match ds.insert_events(&bucket_id, &events) {
        Ok(out) => Ok(out),
        Err(e) => Err(to_status(e)),
    }
}

/// Coalesces `heartbeat` into bucket `bucket_id` with merge window
/// `pulsetime` nanoseconds. `BadRequest` when its duration is negative.
pub fn bucket_events_heartbeat(ds: &mut Datastore, bucket_id: String, heartbeat: Event, pulsetime: i64) -> (r: Result<Event, Status>)
    requires
        old(ds).wf(),
    ensures
        final(ds).wf(),
        r is Err ==> *final(ds) == *old(ds),
        heartbeat.duration < 0 ==> r == Err::<Event, Status>(Status::BadRequest),
        heartbeat.duration >= 0 ==> {
            &&& r == Err::<Event, Status>(Status::NotFound) <==> !old(ds).has_bucket(bucket_id@)
            &&& old(ds).has_bucket(bucket_id@) && old(ds).events_of(bucket_id@).len() > 0
                && merges(old(ds).events_of(bucket_id@)[0], heartbeat, pulsetime)
                && heartbeat.end() - old(ds).events_of(bucket_id@)[0].timestamp <= i64::MAX ==> {
                &&& r == Ok::<Event, Status>(merged(old(ds).events_of(bucket_id@)[0], heartbeat))
                &&& final(ds).events_of(bucket_id@) == old(ds).events_of(bucket_id@).update(
                    0,
                    merged(old(ds).events_of(bucket_id@)[0], heartbeat),
                )
            }
            &&& old(ds).has_bucket(bucket_id@) && !(old(ds).events_of(bucket_id@).len() > 0
                && merges(old(ds).events_of(bucket_id@)[0], heartbeat, pulsetime))
                && old(ds).ids_left(bucket_id@, 1) ==> (r matches Ok(x) && {
                &&& x.timestamp == heartbeat.timestamp
                &&& x.duration == heartbeat.duration
                &&& x.data == heartbeat.data
                &&& x.id == Some(old(ds).next_id(bucket_id@) as i64)
                &&& extended(final(ds).events_of(bucket_id@), old(ds).events_of(bucket_id@), seq![x])
            })
            &&& r matches Ok(x) ==> beat(*old(ds), *final(ds), bucket_id@, heartbeat, pulsetime, x)
        },
        final(ds).has_bucket(bucket_id@) == old(ds).has_bucket(bucket_id@),
{
    if heartbeat.duration < 0 {
        return Err(Status::BadRequest);
    }
    match ds.heartbeat(&bucket_id, &heartbeat, pulsetime) {
        Ok(e) => Ok(e),
        Err(e) => Err(to_status(e)),
    }
}

/// How many events bucket `bucket_id` holds.
pub fn bucket_event_count(ds: &Datastore, bucket_id: String) -> (r: Result<u64, Status>)
    requires
        ds.wf(),
    ensures
        r is Err <==> !ds.has_bucket(bucket_id@),
        r matches Err(s) ==> s == Status::NotFound,
        r matches Ok(n) ==> n == ds.events_of(bucket_id@).len(),
{
    match ds.get_event_count(&bucket_id, None, None) {
        Ok(n) => {
            proof {
                lemma_unbounded_range(ds.events_of(bucket_id@));
            }
            Ok(n)
        },
        Err(e) => Err(to_status(e)),
    }
}

/// Removes event `event_id` from bucket `bucket_id`, if it is there.
pub fn bucket_events_delete_by_id(ds: &mut Datastore, bucket_id: String, event_id: i64) -> (r: Result<(), Status>)
    requires
        old(ds).wf(),
    ensures
        final(ds).wf(),
        r is Err <==> !old(ds).has_bucket(bucket_id@),
        r matches Err(s) ==> s == Status::NotFound,
        r is Err ==> *final(ds) == *old(ds),
        r is Ok ==> final(ds).events_of(bucket_id@) == without_ids(old(ds).events_of(bucket_id@), seq![event_id])
            && final(ds).next_id(bucket_id@) == old(ds).next_id(bucket_id@)
            && final(ds).others_kept(*old(ds), bucket_id@),
        final(ds).has_bucket(bucket_id@) == old(ds).has_bucket(bucket_id@),
{
    let ids = vec![event_id];
    proof {
        assert(ids@ =~= seq![event_id]);
    }
    match ds.delete_events_by_id(&bucket_id, &ids) {
        Ok(()) => Ok(()),
        Err(e) => Err(to_status(e)),
    }
}

/// Bucket `bucket_id` with all of its events.
pub fn bucket_export(ds: &Datastore, bucket_id: String) -> (r: Result<BucketsExport, Status>)
    requires
        ds.wf(),
    ensures
        r is Err <==> !ds.has_bucket(bucket_id@),
        r matches Err(s) ==> s == Status::NotFound,
        r matches Ok(x) ==> x.buckets@.len() == 1 && x.buckets@[0].bucket == ds.bucket_of(bucket_id@)
            && x.buckets@[0].events@ == ds.events_of(bucket_id@),
{
    let bucket = match ds.get_bucket(&bucket_id) {
        Ok(b) => b,
        Err(e) => return Err(to_status(e)),
    };
    let events = match ds.get_events(&bucket_id, None, None, None) {
        Ok(es) => es,
        Err(e) => return Err(to_status(e)),
    };
    proof {
        lemma_unbounded_range(ds.events_of(bucket_id@));
    }
    let mut buckets: Vec<BucketExport> = Vec::new();
    buckets.push(BucketExport { bucket, events });
    Ok(BucketsExport { buckets })
}

/// Removes bucket `bucket_id` and its events; `NotFound` when there is none.
pub fn bucket_delete(ds: &mut Datastore, bucket_id: String) -> (r: Result<(), Status>)
    requires
        old(ds).wf(),
    ensures
        final(ds).wf(),
        r is Err <==> !old(ds).has_bucket(bucket_id@),
        r matches Err(s) ==> s == Status::NotFound,
        !final(ds).has_bucket(bucket_id@),
        final(ds).others_kept(*old(ds), bucket_id@),
{
    match ds.delete_bucket(&bucket_id) {
        Ok(()) => Ok(()),
        Err(e) => Err(to_status(e)),
    }
}

/// Every bucket with all of its events.
pub fn buckets_export(ds: &Datastore) -> (r: Result<BucketsExport, Status>)
    requires
        ds.wf(),
    ensures
        r matches Ok(x) && {
            &&& forall|i: int| 0 <= i < x.buckets@.len() ==> {
                let b = (#[trigger] x.buckets@[i]).bucket;
                &&& ds.has_bucket(b.id@)
                &&& b == ds.bucket_of(b.id@)
                &&& x.buckets@[i].events@ == ds.events_of(b.id@)
            }
            &&& forall|id: Seq<char>| #[trigger] ds.has_bucket(id)
                ==> exists|i: int| 0 <= i < x.buckets@.len() && (#[trigger] x.buckets@[i]).bucket.id@ == id
        },
{
    let all = ds.get_buckets();
    let mut buckets: Vec<BucketExport> = Vec::new();
    let mut i: usize = 0;
    while i < all.len()
        invariant
            ds.wf(),
            i <= all@.len(),
            buckets@.len() == i,
            forall|k: int| 0 <= k < all@.len() ==> ds.has_bucket((#[trigger] all@[k]).id@)
                && all@[k] == ds.bucket_of(all@[k].id@),
            forall|k: int| 0 <= k < i ==> (#[trigger] buckets@[k]).bucket == all@[k]
                && buckets@[k].events@ == ds.events_of(all@[k].id@),
        decreases all@.len() - i,
    {
        let b = all[i].copied();
        let events = match ds.get_events(&b.id, None, None, None) {
            Ok(es) => es,
            Err(e) => return Err(to_status(e)),
        };
        proof {
            lemma_unbounded_range(ds.events_of(b.id@));
        }
        buckets.push(BucketExport { bucket: b, events });
        i += 1;
    }
    proof {
        assert forall|id: Seq<char>| #[trigger] ds.has_bucket(id)
            implies exists|k: int| 0 <= k < buckets@.len() && (#[trigger] buckets@[k]).bucket.id@ == id by {
            let k = choose|k: int| 0 <= k < all@.len() && (#[trigger] all@[k]).id@ == id;
            assert(buckets@[k].bucket.id@ == id);
        }
    }
    Ok(BucketsExport { buckets })
}

/// The lines joined by `'\n'`.
pub open spec fn joined(lines: Seq<String>) -> Seq<char>
    decreases lines.len(),
{
    if lines.len() == 0 {
        Seq::<char>::empty()
    } else if lines.len() == 1 {
        lines[0]@
    } else {
        joined(lines.drop_last()) + "\n"@ + lines.last()@
    }
}

/// Joins the lines of a script with `'\n'`.
pub fn join_lines(lines: &Vec<String>) -> (r: String)
    ensures
        r@ == joined(lines@),
{
    let mut out = String::new();
    let mut i: usize = 0;
    while i < lines.len()
        invariant
            i <= lines@.len(),
            out@ == joined(lines@.take(i as int)),
        decreases lines@.len() - i,
    {
        proof {
            assert(lines@.take(i + 1).drop_last() =~= lines@.take(i as int));
            assert(lines@.take(i + 1).last() == lines@[i as int]);
        }
        if i > 0 {
            out.append("\n");
        }
        out.append(lines[i].as_str());
        proof {
            if i == 0 {
                assert(out@ =~= lines@[0]@);
            }
        }
        i += 1;
    }
    proof {
        assert(lines@.take(lines@.len() as int) =~= lines@);
    }
    out
}

/// Runs the script of `query_req` (its lines joined by `'\n'`) once per
/// time period, in order. The first period whose evaluation fails fails
/// the whole request with that error.
pub fn query(query_req: &Query, ds: &Datastore) -> (r: Result<Vec<DataType>, QueryError>)
    requires
        ds.wf(),
    ensures
        r matches Ok(vs) ==> vs@.len() == query_req.timeperiods@.len() && forall|i: int|
            0 <= i < vs@.len() ==> script_result(
                joined(query_req.query@),
                query_req.timeperiods@[i],
                *ds,
                Ok(#[trigger] vs@[i]),
            ),
        r matches Err(e) ==> exists|i: int|
            0 <= i < query_req.timeperiods@.len() && #[trigger] script_result(
                joined(query_req.query@),
                query_req.timeperiods@[i],
                *ds,
                Err(e),
            ),
{
    let code = join_lines(&query_req.query);
    let mut results: Vec<DataType> = Vec::new();
    let mut i: usize = 0;
    while i < query_req.timeperiods.len()
        invariant
            ds.wf(),
            code@ == joined(query_req.query@),
            i <= query_req.timeperiods@.len(),
            results@.len() == i,
            forall|k: int| 0 <= k < i ==> script_result(
                joined(query_req.query@),
                query_req.timeperiods@[k],
                *ds,
                Ok(#[trigger] results@[k]),
            ),
        decreases query_req.timeperiods@.len() - i,
    {
        match run_query(code.as_str(), &query_req.timeperiods[i], ds) {
            Ok(v) => results.push(v),
            Err(e) => {
                proof {
                    assert(script_result(joined(query_req.query@), query_req.timeperiods@[i as int], *ds, Err(e)));
                }
                return Err(e);
            },
        }
        i += 1;
    }
    Ok(results)
}

} // verus!
