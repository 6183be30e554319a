use aw_server::datastore::{Datastore, DatastoreError};
use aw_server::datatype::{DataType, QueryError};
use aw_server::endpoints::{self, Status};
use aw_server::models::{Bucket, Event, Query, TimeInterval};
use aw_server::query;

const SECOND: i64 = 1_000_000_000;

fn bucket(id: &str) -> Bucket {
    Bucket {
        bid: None,
        id: id.to_string(),
        _type: "currentwindow".to_string(),
        client: "testclient".to_string(),
        hostname: "testhost".to_string(),
        created: Some(5),
    }
}

fn event(ts: i64, dur: i64, data: &str) -> Event {
    Event { id: None, timestamp: ts, duration: dur, data: data.to_string() }
}

fn store_with(id: &str) -> Datastore {
    let mut ds = Datastore::new();
    ds.create_bucket(&bucket(id)).unwrap();
    ds
}

#[test]
fn create_then_get_returns_the_bucket() {
    let mut ds = Datastore::new();
    let b = bucket("b1");
    ds.create_bucket(&b).unwrap();
    let got = ds.get_bucket(&"b1".to_string()).unwrap();
    assert_eq!(got.id, b.id);
    assert_eq!(got._type, b._type);
    assert_eq!(got.client, b.client);
    assert_eq!(got.hostname, b.hostname);
    assert_eq!(got.created, b.created);
    assert!(got.bid.is_some());
    assert_eq!(ds.create_bucket(&b), Err(DatastoreError::BucketAlreadyExists));
}

#[test]
fn bucket_keys_are_not_reused() {
    let mut ds = Datastore::new();
    ds.create_bucket(&bucket("a")).unwrap();
    let first = ds.get_bucket(&"a".to_string()).unwrap().bid;
    ds.delete_bucket(&"a".to_string()).unwrap();
    ds.create_bucket(&bucket("a")).unwrap();
    let second = ds.get_bucket(&"a".to_string()).unwrap().bid;
    assert_ne!(first, second);
}

#[test]
fn missing_bucket_errors() {
    let mut ds = Datastore::new();
    let id = "nope".to_string();
    assert_eq!(ds.get_bucket(&id).unwrap_err(), DatastoreError::NoSuchBucket);
    assert_eq!(ds.delete_bucket(&id), Err(DatastoreError::NoSuchBucket));
    assert_eq!(ds.insert_events(&id, &vec![event(0, 0, "{}")]).unwrap_err(), DatastoreError::NoSuchBucket);
    assert_eq!(ds.get_events(&id, None, None, None).unwrap_err(), DatastoreError::NoSuchBucket);
    assert_eq!(ds.get_event_count(&id, None, None), Err(DatastoreError::NoSuchBucket));
    assert_eq!(ds.delete_events_by_id(&id, &vec![1]), Err(DatastoreError::NoSuchBucket));
    assert_eq!(ds.heartbeat(&id, &event(0, 0, "{}"), 10).unwrap_err(), DatastoreError::NoSuchBucket);
}

#[test]
fn inserted_events_get_increasing_ids() {
    let mut ds = store_with("b");
    let id = "b".to_string();
    let evs = vec![event(30, 1, "{\"a\":1}"), event(10, 2, "{\"a\":2}"), event(20, 3, "{\"a\":3}")];
    let out = ds.insert_events(&id, &evs).unwrap();
    assert_eq!(out.len(), 3);
    for k in 0..3 {
        assert_eq!(out[k].timestamp, evs[k].timestamp);
        assert_eq!(out[k].duration, evs[k].duration);
        assert_eq!(out[k].data, evs[k].data);
    }
    assert!(out[0].id.unwrap() < out[1].id.unwrap());
    assert!(out[1].id.unwrap() < out[2].id.unwrap());
    assert_eq!(ds.get_event_count(&id, None, None), Ok(3));
}

#[test]
fn events_come_newest_first_with_ties_by_id() {
    let mut ds = store_with("b");
    let id = "b".to_string();
    ds.insert_events(&id, &vec![event(10, 0, "1"), event(30, 0, "2"), event(10, 0, "3")]).unwrap();
    let all = ds.get_events(&id, None, None, None).unwrap();
    let data: Vec<&str> = all.iter().map(|e| e.data.as_str()).collect();
    assert_eq!(data, vec!["2", "3", "1"]);
    let two = ds.get_events(&id, None, None, Some(2)).unwrap();
    assert_eq!(two.len(), 2);
    assert_eq!(two[0].data, "2");
}

#[test]
fn range_query_returns_exactly_the_meeting_events() {
    let mut ds = store_with("b");
    let id = "b".to_string();
    ds.insert_events(&id, &vec![event(0, 5, "a"), event(10, 5, "b"), event(20, 5, "c"), event(30, 0, "d")])
        .unwrap();
    // [0,5) ends where the range starts, so it does not meet [5, 20].
    let got = ds.get_events(&id, Some(5), Some(20), None).unwrap();
    let data: Vec<&str> = got.iter().map(|e| e.data.as_str()).collect();
    assert_eq!(data, vec!["c", "b"]);
    let got = ds.get_events(&id, Some(4), Some(20), None).unwrap();
    let data: Vec<&str> = got.iter().map(|e| e.data.as_str()).collect();
    assert_eq!(data, vec!["c", "b", "a"]);
    let got = ds.get_events(&id, Some(6), Some(19), None).unwrap();
    let data: Vec<&str> = got.iter().map(|e| e.data.as_str()).collect();
    assert_eq!(data, vec!["b"]);
    assert_eq!(ds.get_event_count(&id, Some(26), None), Ok(1));
    assert_eq!(ds.get_event_count(&id, None, Some(-1)), Ok(0));
}

#[test]
fn ids_are_not_reused_after_deletion() {
    let mut ds = store_with("b");
    let id = "b".to_string();
    let first = ds.insert_events(&id, &vec![event(1, 0, "a"), event(2, 0, "b")]).unwrap();
    ds.delete_events_by_id(&id, &vec![first[1].id.unwrap()]).unwrap();
    let again = ds.insert_events(&id, &vec![event(3, 0, "c")]).unwrap();
    assert!(again[0].id.unwrap() > first[1].id.unwrap());
}

#[test]
fn delete_events_by_id_ignores_unknown_ids() {
    let mut ds = store_with("b");
    let id = "b".to_string();
    let out = ds.insert_events(&id, &vec![event(1, 0, "a"), event(2, 0, "b")]).unwrap();
    ds.delete_events_by_id(&id, &vec![out[0].id.unwrap(), 999]).unwrap();
    let left = ds.get_events(&id, None, None, None).unwrap();
    assert_eq!(left.len(), 1);
    assert_eq!(left[0].data, "b");
}

#[test]
fn heartbeat_into_empty_bucket_inserts() {
    let mut ds = store_with("hb");
    let id = "hb".to_string();
    let e = ds.heartbeat(&id, &event(100, 5, "{\"app\":\"x\"}"), 10).unwrap();
    assert!(e.id.is_some());
    assert_eq!(e.timestamp, 100);
    assert_eq!(ds.get_event_count(&id, None, None), Ok(1));
}

#[test]
fn heartbeat_with_gap_zero_merges() {
    let mut ds = store_with("hb");
    let id = "hb".to_string();
    let first = ds.heartbeat(&id, &event(100, 5, "{\"app\":\"x\"}"), 0).unwrap();
    let second = ds.heartbeat(&id, &event(105, 7, "{\"app\":\"x\"}"), 0).unwrap();
    assert_eq!(second.id, first.id);
    assert_eq!(second.timestamp, 100);
    assert_eq!(second.duration, 12);
    let all = ds.get_events(&id, None, None, None).unwrap();
    assert_eq!(all.len(), 1);
    assert_eq!(all[0].duration, 12);
}

#[test]
fn heartbeat_with_other_data_does_not_merge() {
    let mut ds = store_with("hb");
    let id = "hb".to_string();
    let first = ds.heartbeat(&id, &event(100, 5, "{\"app\":\"x\"}"), 10).unwrap();
    let second = ds.heartbeat(&id, &event(105, 7, "{\"app\":\"y\"}"), 10).unwrap();
    assert_ne!(second.id, first.id);
    assert_eq!(ds.get_event_count(&id, None, None), Ok(2));
}

#[test]
fn heartbeat_threshold_boundary() {
    let mut ds = store_with("hb");
    let id = "hb".to_string();
    ds.heartbeat(&id, &event(0, 10, "d"), 5).unwrap();
    let merged = ds.heartbeat(&id, &event(15, 0, "d"), 5).unwrap();
    assert_eq!(merged.duration, 15);
    assert_eq!(ds.get_event_count(&id, None, None), Ok(1));
    ds.heartbeat(&id, &event(21, 0, "d"), 5).unwrap();
    assert_eq!(ds.get_event_count(&id, None, None), Ok(2));
}

#[test]
fn heartbeat_out_of_order_does_not_merge() {
    let mut ds = store_with("hb");
    let id = "hb".to_string();
    ds.heartbeat(&id, &event(100, 10, "d"), 50).unwrap();
    ds.heartbeat(&id, &event(105, 1, "d"), 50).unwrap();
    assert_eq!(ds.get_event_count(&id, None, None), Ok(2));
}

#[test]
fn merged_heartbeat_keeps_longer_duration() {
    let mut ds = store_with("hb");
    let id = "hb".to_string();
    ds.heartbeat(&id, &event(0, 100, "d"), 5).unwrap();
    let m = ds.heartbeat(&id, &event(100, 0, "d"), 5).unwrap();
    assert_eq!(m.duration, 100);
}

#[test]
fn delete_bucket_removes_it() {
    let mut ds = store_with("gone");
    ds.create_bucket(&bucket("kept")).unwrap();
    let id = "gone".to_string();
    ds.insert_events(&id, &vec![event(0, 1, "x")]).unwrap();
    ds.delete_bucket(&id).unwrap();
    let ids: Vec<String> = ds.get_buckets().into_iter().map(|b| b.id).collect();
    assert_eq!(ids, vec!["kept".to_string()]);
    assert_eq!(ds.get_events(&id, None, None, None).unwrap_err(), DatastoreError::NoSuchBucket);
}

#[test]
fn query_bucket_matches_get_events() {
    let mut ds = store_with("w");
    let id = "w".to_string();
    ds.insert_events(
        &id,
        &vec![event(0, SECOND, "{\"n\":1}"), event(10 * SECOND, 2 * SECOND, "{\"n\":2}"), event(100 * SECOND, 0, "{\"n\":3}")],
    )
    .unwrap();
    let ti = TimeInterval::new(SECOND / 2, 50 * SECOND).unwrap();
    let direct = ds.get_events(&id, Some(ti.start), Some(ti.end), None).unwrap();
    assert_eq!(direct.len(), 2);
    match query::query("query_bucket(\"w\");", &ti, &ds).unwrap() {
        DataType::List(items) => {
            assert_eq!(items.len(), direct.len());
            for (item, e) in items.iter().zip(direct.iter()) {
                match item {
                    DataType::Dict(keys, vals) => {
                        assert_eq!(keys, &vec!["id", "timestamp", "duration", "data"]);
                        match (&vals[1], &vals[2], &vals[3]) {
                            (DataType::Number(t), DataType::Number(d), DataType::String(s)) => {
                                assert_eq!(t.num, e.timestamp);
                                assert_eq!(t.den, SECOND);
                                assert_eq!(d.num, e.duration);
                                assert_eq!(s, &e.data);
                            },
                            other => panic!("unexpected fields {:?}", other),
                        }
                    },
                    other => panic!("expected a dict, got {:?}", other),
                }
            }
        },
        other => panic!("expected a list, got {:?}", other),
    }
}

#[test]
fn endpoint_statuses() {
    let mut ds = Datastore::new();
    assert_eq!(endpoints::bucket_new(&mut ds, "x".to_string(), bucket("other")), Ok(()));
    assert_eq!(ds.get_bucket(&"x".to_string()).unwrap().id, "x");
    assert_eq!(endpoints::bucket_new(&mut ds, "x".to_string(), bucket("x")), Err(Status::NotModified));
    assert_eq!(endpoints::bucket_get(&ds, "y".to_string()).unwrap_err(), Status::NotFound);
    assert_eq!(
        endpoints::bucket_events_get(&ds, "x".to_string(), Some("not a date".to_string()), None, None).unwrap_err(),
        Status::BadRequest
    );
    assert_eq!(
        endpoints::bucket_events_create(&mut ds, "x".to_string(), vec![event(0, -1, "d")]).unwrap_err(),
        Status::BadRequest
    );
    endpoints::bucket_events_create(&mut ds, "x".to_string(), vec![event(SECOND, 0, "d")]).unwrap();
    let got = endpoints::bucket_events_get(
        &ds,
        "x".to_string(),
        Some("1970-01-01T00:00:00Z".to_string()),
        Some("1970-01-01T00:00:02Z".to_string()),
        None,
    )
    .unwrap();
    assert_eq!(got.len(), 1);
    assert_eq!(endpoints::bucket_event_count(&ds, "x".to_string()), Ok(1));
    let hb = endpoints::bucket_events_heartbeat(&mut ds, "x".to_string(), event(SECOND, SECOND, "d"), 0).unwrap();
    assert_eq!(hb.duration, SECOND);
    let export = endpoints::bucket_export(&ds, "x".to_string()).unwrap();
    assert_eq!(export.buckets.len(), 1);
    assert_eq!(export.buckets[0].events.len(), 1);
    endpoints::bucket_events_delete_by_id(&mut ds, "x".to_string(), hb.id.unwrap()).unwrap();
    assert_eq!(endpoints::bucket_event_count(&ds, "x".to_string()), Ok(0));
    assert_eq!(endpoints::buckets_export(&ds).unwrap().buckets.len(), 1);
    assert_eq!(endpoints::buckets_get(&ds).unwrap().len(), 1);
    endpoints::bucket_delete(&mut ds, "x".to_string()).unwrap();
    assert_eq!(endpoints::bucket_delete(&mut ds, "x".to_string()), Err(Status::NotFound));
}

#[test]
fn query_endpoint_runs_once_per_period() {
    let ds = Datastore::new();
    let q = Query {
        timeperiods: vec![TimeInterval::new(0, 1).unwrap(), TimeInterval::new(2, 3).unwrap()],
        query: vec!["a = 2;".to_string(), "a * 3;".to_string()],
    };
    let out = endpoints::query(&q, &ds).unwrap();
    assert_eq!(out.len(), 2);
    for v in out {
        match v {
            DataType::Number(n) => assert_eq!(n.num / n.den, 6),
            other => panic!("expected a number, got {:?}", other),
        }
    }
    let bad = Query { timeperiods: vec![TimeInterval::new(0, 1).unwrap()], query: vec!["1/0;".to_string()] };
    assert!(matches!(endpoints::query(&bad, &ds), Err(QueryError::MathError(_))));
    assert_eq!(endpoints::join_lines(&vec!["a".to_string(), "b".to_string(), "c".to_string()]), "a\nb\nc");
}
