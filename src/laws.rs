//! Properties that relate several operations of the store and of the query
//! engine. Each operation's contract names its effect (`created`,
//! `inserted`, `beat`, `bucket_deleted`, `evals`); the laws chain them.
use vstd::prelude::*;

use crate::datastore::{
    beat, bucket_deleted, created, extended, in_range, inserted, lemma_unbounded_range, limited, merged, merges, newer,
    newest_first, Datastore,
};
use crate::datatype::{DataType, QueryError};
use crate::models::{Bucket, Event, TimeInterval};
use crate::parser::Expr;
use crate::query::{evals, events_value, lookup, Binding};

verus! {

/// After `create_bucket(b)` succeeds, `get_bucket(b.id)` (whose contract
/// returns `bucket_of`) answers with a bucket equal to `b` in every field
/// the caller supplied plus a store key, and a second `create_bucket(b)`
/// fails with `BucketAlreadyExists` (its contract fails so exactly when
/// `has_bucket(b.id)`).
pub proof fn law_create_then_get(before: Datastore, after: Datastore, b: Bucket)
    requires
        created(before, after, b),
    ensures
        after.has_bucket(b.id@),
        after.bucket_of(b.id@).same_fields(b),
        after.bucket_of(b.id@).bid is Some,
        in_range(after.events_of(b.id@), None, None).len() == 0,
{
    lemma_unbounded_range(after.events_of(b.id@));
}

/// The events that `insert_events(id, E)` returns have strictly increasing
/// ids, one per event of `E` in order, each above every id the bucket
/// assigned before; the bucket still exists, and its unbounded count grows
/// by `len(E)` (so equals `len(E)` on a fresh bucket).
pub proof fn law_insert_then_count(before: Datastore, after: Datastore, id: Seq<char>, es: Seq<Event>, out: Seq<Event>)
    requires
        before.wf(),
        after.wf(),
        inserted(before, after, id, es, out),
    ensures
        after.has_bucket(id),
        out.len() == es.len(),
        forall|a: int, b: int| 0 <= a < b < out.len() ==> (#[trigger] out[a]).id->0 < (#[trigger] out[b]).id->0,
        forall|a: int| 0 <= a < out.len() ==> (#[trigger] out[a]).id->0 >= before.next_id(id),
        in_range(after.events_of(id), None, None).len() == in_range(before.events_of(id), None, None).len() + es.len(),
{
    lemma_unbounded_range(after.events_of(id));
    lemma_unbounded_range(before.events_of(id));
    before.lemma_events_wf(id);
    after.lemma_events_wf(id);
    assert forall|a: int| 0 <= a < out.len() implies (#[trigger] out[a]).id->0 == before.next_id(id) + a by {
        assert(out[a].id == Some((before.next_id(id) + a) as i64));
    }
}

proof fn lemma_single(s: Seq<Event>, x: Event)
    requires
        extended(s, Seq::<Event>::empty(), seq![x]),
    ensures
        s == seq![x],
{
    assert(seq![x][0] == x);
    assert(seq![x].contains(x));
    assert(s.contains(s[0]));
    assert(s[0] == x);
    assert(s =~= seq![x]);
}

/// Two heartbeats into an empty bucket, the second with the same data and
/// starting where the first ends (gap 0, `pulsetime >= 0`), leave exactly
/// one stored event: the first one's id and timestamp, ending where the
/// second heartbeat ends.
pub proof fn law_heartbeat_zero_gap(
    s0: Datastore,
    s1: Datastore,
    s2: Datastore,
    id: Seq<char>,
    e: Event,
    e2: Event,
    pulsetime: i64,
    r1: Event,
    r2: Event,
)
    requires
        s0.events_of(id).len() == 0,
        e.duration >= 0,
        e2.duration >= 0,
        e2.data@ == e.data@,
        e2.timestamp == e.end(),
        pulsetime >= 0,
        e2.end() - e.timestamp <= i64::MAX,
        beat(s0, s1, id, e, pulsetime, r1),
        beat(s1, s2, id, e2, pulsetime, r2),
    ensures
        s2.events_of(id) == seq![r2],
        r2.id == r1.id,
        r2.timestamp == e.timestamp,
        r2.end() == e2.end(),
{
    assert(s0.events_of(id) =~= Seq::<Event>::empty());
    lemma_single(s1.events_of(id), r1);
    assert(s1.events_of(id)[0] == r1);
    assert(merges(r1, e2, pulsetime));
    assert(s2.events_of(id) =~= seq![r2]);
}

/// Two heartbeats into an empty bucket with different data leave two
/// distinct stored events, the first unchanged.
pub proof fn law_heartbeat_other_data(
    s0: Datastore,
    s1: Datastore,
    s2: Datastore,
    id: Seq<char>,
    e: Event,
    e2: Event,
    pulsetime: i64,
    r1: Event,
    r2: Event,
)
    requires
        s0.wf(),
        s1.wf(),
        s0.events_of(id).len() == 0,
        e2.data@ != e.data@,
        beat(s0, s1, id, e, pulsetime, r1),
        beat(s1, s2, id, e2, pulsetime, r2),
    ensures
        s2.events_of(id).len() == 2,
        s2.events_of(id).contains(r1),
        s2.events_of(id).contains(r2),
        r1.id != r2.id,
        r2.timestamp == e2.timestamp && r2.duration == e2.duration && r2.data == e2.data,
{
    assert(s0.events_of(id) =~= Seq::<Event>::empty());
    lemma_single(s1.events_of(id), r1);
    assert(s1.events_of(id)[0] == r1);
    assert(!merges(r1, e2, pulsetime));
    s0.lemma_events_wf(id);
    s1.lemma_events_wf(id);
    assert(s1.events_of(id).contains(r1));
    assert(seq![r2][0] == r2);
    assert(seq![r2].contains(r2));
}

/// With equal data, a heartbeat whose gap to the newest event is exactly
/// `pulsetime` is merged into it (no event added, same id); one whose gap is
/// larger is stored as a new event under the next id.
pub proof fn law_heartbeat_threshold(before: Datastore, after: Datastore, id: Seq<char>, e: Event, pulsetime: i64, r: Event)
    requires
        before.events_of(id).len() > 0,
        before.events_of(id)[0].data@ == e.data@,
        pulsetime >= 0,
        beat(before, after, id, e, pulsetime, r),
    ensures
        e.timestamp - before.events_of(id)[0].end() == pulsetime ==> {
            &&& after.events_of(id).len() == before.events_of(id).len()
            &&& r.id == before.events_of(id)[0].id
        },
        e.timestamp - before.events_of(id)[0].end() > pulsetime ==> {
            &&& after.events_of(id).len() == before.events_of(id).len() + 1
            &&& r.id == Some(before.next_id(id) as i64)
        },
{
}

/// The events in a range are exactly the stored events that meet it, and
/// they stay newest-first.
pub proof fn law_range_exact(s: Seq<Event>, start: Option<i64>, end: Option<i64>)
    requires
        newest_first(s),
    ensures
        newest_first(in_range(s, start, end)),
        forall|x: Event| #[trigger] in_range(s, start, end).contains(x) <==> s.contains(x) && x.meets(start, end),
    decreases s.len(),
{
    let pred = |x: Event| x.meets(start, end);
    let r = in_range(s, start, end);
    assert forall|x: Event| #[trigger] r.contains(x) <==> s.contains(x) && x.meets(start, end) by {
        if s.contains(x) && pred(x) {
            let k = choose|k: int| 0 <= k < s.len() && s[k] == x;
            s.lemma_filter_contains(pred, k);
        }
        if r.contains(x) {
            let k = choose|k: int| 0 <= k < r.len() && r[k] == x;
            s.lemma_filter_pred(pred, k);
            s.lemma_filter_contains_rev(pred, x);
        }
    }
    if s.len() > 0 {
        let init = s.drop_last();
        assert forall|a: int, b: int| 0 <= a < b < init.len() implies newer(#[trigger] init[a], #[trigger] init[b]) by {
            assert(init[a] == s[a] && init[b] == s[b]);
        }
        law_range_exact(init, start, end);
        assert(init.push(s.last()) =~= s);
        init.lemma_filter_push(s.last(), pred);
        let ri = in_range(init, start, end);
        if pred(s.last()) {
            assert forall|a: int, b: int| 0 <= a < b < r.len() implies newer(#[trigger] r[a], #[trigger] r[b]) by {
                if b == r.len() - 1 {
                    assert(ri.contains(ri[a]));
                    init.lemma_filter_contains_rev(pred, ri[a]);
                    let k = choose|k: int| 0 <= k < init.len() && init[k] == ri[a];
                    assert(newer(s[k], s[s.len() - 1]));
                } else {
                    assert(r[a] == ri[a] && r[b] == ri[b]);
                }
            }
        }
    }
}

/// What `get_events(id, start, end)` returns without a limit is exactly the
/// stored events of bucket `id` whose half-open span meets `[start, end]`,
/// newest-first.
pub proof fn law_get_events_exact(ds: Datastore, id: Seq<char>, start: Option<i64>, end: Option<i64>)
    requires
        ds.wf(),
        ds.has_bucket(id),
    ensures
        newest_first(limited(in_range(ds.events_of(id), start, end), None)),
        forall|x: Event| #[trigger] limited(in_range(ds.events_of(id), start, end), None).contains(x)
            <==> ds.events_of(id).contains(x) && x.meets(start, end),
{
    ds.lemma_events_wf(id);
    law_range_exact(ds.events_of(id), start, end);
}

/// In a script, `query_bucket("b")` with `query_bucket` unbound evaluates,
/// over interval `i`, to the events that `get_events(b, i.start, i.end)`
/// returns, as script values; on a missing bucket it fails with
/// `BucketQueryError`.
pub proof fn law_query_bucket_in_script(
    e: Expr,
    name: String,
    args: Vec<Expr>,
    b: String,
    env: Seq<Binding>,
    i: TimeInterval,
    ds: Datastore,
    r: Result<DataType, QueryError>,
)
    requires
        e == Expr::Call(name, args),
        name@ == "query_bucket"@,
        args@ == seq![Expr::Str(b)],
        lookup(env, name@) is None,
        evals(e, env, i, ds, r),
    ensures
        ds.has_bucket(b@) ==> (r matches Ok(v) && events_value(v, limited(in_range(ds.events_of(b@), Some(i.start), Some(i.end)), None))),
        !ds.has_bucket(b@) ==> r matches Err(QueryError::BucketQueryError(_)),
{
    reveal_strlit("print");
    reveal_strlit("query_bucket");
    assert(args@[0] == Expr::Str(b));
    assert("print"@.len() == 5);
    assert("query_bucket"@.len() == 12);
    assert(name@ != "print"@);
    assert(crate::query::builtin_named(name@) == Some(crate::query::Builtin::QueryBucket));
    assert(crate::query::callee(env, name@) == Some(crate::query::Builtin::QueryBucket));
    if r is Err && crate::query::evals_all(args@, env, i, ds, Err(r->Err_0)) {
        let (k, vs) = choose|k: int, vs: Seq<DataType>|
            #![trigger args@[k], crate::query::steps(vs)]
            crate::query::steps(vs) && 0 <= k < args@.len() && vs.len() == k && (forall|j: int|
                0 <= j < k ==> evals(#[trigger] args@[j], env, i, ds, Ok(vs[j])))
                && evals(args@[k], env, i, ds, Err(r->Err_0));
        assert(k == 0);
        assert(false);
    } else {
        let vs = choose|vs: Seq<DataType>| #[trigger] crate::query::steps(vs)
            && crate::query::evals_all(args@, env, i, ds, Ok(vs))
            && crate::query::call_result(crate::query::Builtin::QueryBucket, vs, i, ds, r);
        assert(evals(args@[0], env, i, ds, Ok(vs[0])));
        assert(vs[0] matches DataType::String(t) && t@ == b@);
    }
}

/// After `delete_bucket(id)` succeeds the bucket is gone (`get_bucket`,
/// `get_events` and every other operation on it fail with `NoSuchBucket`,
/// and `get_buckets` lists no bucket with that id), and every other bucket
/// is as it was.
pub proof fn law_deleted_bucket_is_gone(before: Datastore, after: Datastore, id: Seq<char>, listed: Seq<Bucket>)
    requires
        bucket_deleted(before, after, id),
        forall|k: int| 0 <= k < listed.len() ==> after.has_bucket((#[trigger] listed[k]).id@),
    ensures
        !after.has_bucket(id),
        forall|k: int| 0 <= k < listed.len() ==> (#[trigger] listed[k]).id@ != id,
        forall|k: Seq<char>| k != id ==> (#[trigger] after.has_bucket(k)) == before.has_bucket(k),
{
}

} // verus!
