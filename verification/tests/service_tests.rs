use rtt_tdigest::codec::{deserialize_sketch, serialize_sketch};
use rtt_tdigest::query::{get_quantiles, QueryError};
use rtt_tdigest::record::{make_key, record_to_item, TDigestRecord};
use rtt_tdigest::service::Service;
use rtt_tdigest::store::DigestStore;
use rtt_tdigest::summary::Summary;

fn summary_of(values: &[u32]) -> Summary {
    let mut s = Summary::new();
    for v in values {
        s.add_rtt(*v);
    }
    s
}

fn epoch(rfc3339: &str) -> i64 {
    chrono::DateTime::parse_from_rfc3339(rfc3339).unwrap().timestamp()
}

#[test]
fn codec_round_trips_exactly() {
    let values: Vec<u32> = (1..=2500u32).map(|i| i * 37 % 90_001).collect();
    let s = summary_of(&values);
    let sk = s.digest();
    let blob = serialize_sketch(&sk);
    let back = deserialize_sketch(blob.as_str()).expect("blob must deserialize");
    assert_eq!(back.total_weight(), sk.total_weight());
    for q in [0u32, 250, 500, 750, 900, 990, 1000] {
        assert_eq!(back.estimate_quantile(q), sk.estimate_quantile(q));
    }
}

#[test]
fn codec_rejects_malformed_blobs() {
    assert!(deserialize_sketch("").is_none());
    assert!(deserialize_sketch("zz").is_none());
    // Too short for the two header fields.
    assert!(deserialize_sketch("0000000000000064").is_none());
    // Count field disagrees with the length (claims one centroid, has none).
    assert!(deserialize_sketch("00000000000000640000000000000001").is_none());
    // A non-hexadecimal character in a field.
    assert!(deserialize_sketch("000000000000006g0000000000000000").is_none());
    // Zero compression factor.
    assert!(deserialize_sketch("00000000000000000000000000000000").is_none());
    // An empty sketch round-trips.
    assert!(deserialize_sketch("00000000000000640000000000000000").is_some());
    // Centroids out of mean order: (5, 1) then (3, 1).
    let unsorted = "000000000000006400000000000000020000000000000005000000000000000100000000000000030000000000000001";
    assert!(deserialize_sketch(unsorted).is_none());
    // The same two centroids in order deserialize.
    let sorted = "000000000000006400000000000000020000000000000003000000000000000100000000000000050000000000000001";
    assert!(deserialize_sketch(sorted).is_some());
    // A zero-weight centroid is refused.
    let weightless = "0000000000000064000000000000000100000000000000030000000000000000";
    assert!(deserialize_sketch(weightless).is_none());
}

#[test]
fn record_key_joins_identity() {
    assert_eq!(make_key("sample-app", "1m", "local"), "sample-app:1m:local");
    let svc = Service::new("sample-app".to_string(), "local".to_string());
    assert_eq!(svc.record_key("1m"), "sample-app:1m:local");
}

#[test]
fn flush_floors_to_the_minute() {
    let svc = Service::new("sample-app".to_string(), "local".to_string());
    let mut store = DigestStore::new();
    let s = summary_of(&[1500, 2500]);
    let sk = s.digest();
    svc.store_tdigest_at(&mut store, "1m", &sk, epoch("2023-05-01T12:01:45Z"));
    assert_eq!(store.records.len(), 1);
    let rec = &store.records[0];
    assert_eq!(rec.created_at, epoch("2023-05-01T12:01:00Z"));
    assert_eq!(rec.key, "sample-app:1m:local");
    assert_eq!(rec.app, "sample-app");
    assert_eq!(rec.agg_level, "1m");
    assert_eq!(rec.node_id, "local");
}

#[test]
fn flush_overwrites_the_same_key() {
    let svc = Service::new("sample-app".to_string(), "local".to_string());
    let mut store = DigestStore::new();
    let first = summary_of(&[1000]);
    svc.store_tdigest_at(&mut store, "1m", &first.digest(), epoch("2023-05-01T12:00:10Z"));
    let second = summary_of(&[1000, 2000]);
    svc.store_tdigest_at(&mut store, "1m", &second.digest(), epoch("2023-05-01T12:01:10Z"));
    assert_eq!(store.records.len(), 1);
    assert_eq!(store.records[0].created_at, epoch("2023-05-01T12:01:00Z"));
    let sk = deserialize_sketch(store.records[0].tdigest.as_str()).unwrap();
    assert_eq!(sk.total_weight(), 2);
}

#[test]
fn record_item_renders_rfc3339() {
    let svc = Service::new("sample-app".to_string(), "local".to_string());
    let sk = summary_of(&[1000]).digest();
    let rec = svc.build_record("1m", &sk, epoch("2023-05-01T12:01:45Z"));
    let item = record_to_item(&rec).unwrap();
    assert_eq!(item.len(), 6);
    assert_eq!(item[0].0, "key");
    assert_eq!(item[3].0, "created_at");
    let expected = chrono::DateTime::from_timestamp(rec.created_at, 0)
        .unwrap()
        .to_rfc3339();
    assert_eq!(item[3].1, expected);
    assert!(item[3].1.starts_with("2023-05-01T12:01:00"));
    assert_eq!(item[5].0, "tdigest");
    assert_eq!(item[5].1, rec.tdigest);
}

#[test]
fn empty_range_gives_zero_result() {
    let svc = Service::new("sample-app".to_string(), "local".to_string());
    let store = DigestStore::new();
    let res = get_quantiles(
        &svc,
        &store,
        "1m",
        epoch("2023-05-01T00:00:00Z"),
        epoch("2023-05-02T00:00:00Z"),
    )
    .unwrap();
    assert_eq!(res.sample_count, 0);
    assert!(res.quantiles.is_empty());
    assert_eq!(res.agg_level, "1m");
}

#[test]
fn merged_query_over_two_nodes() {
    // Two records from disjoint 50-sample sets; the merged query sees the
    // combined 100-sample distribution.
    let svc1 = Service::new("sample-app".to_string(), "node-1".to_string());
    let svc2 = Service::new("sample-app".to_string(), "node-2".to_string());
    let mut store = DigestStore::new();
    let low: Vec<u32> = (1..=50u32).map(|i| i * 1000).collect();
    let high: Vec<u32> = (51..=100u32).map(|i| i * 1000).collect();
    let t = epoch("2023-05-01T12:00:30Z");
    svc1.store_tdigest_at(&mut store, "1m", &summary_of(&low).digest(), t);
    svc2.store_tdigest_at(&mut store, "1m", &summary_of(&high).digest(), t);
    assert_eq!(store.records.len(), 2);
    let reader = Service::new("sample-app".to_string(), "reader".to_string());
    let res = get_quantiles(
        &reader,
        &store,
        "1m",
        epoch("2023-05-01T12:00:00Z"),
        epoch("2023-05-01T12:01:00Z"),
    )
    .unwrap();
    assert_eq!(res.sample_count, 100);
    assert_eq!(res.quantiles.len(), 5);
    let p50 = res
        .quantiles
        .iter()
        .find(|(k, _)| k == "p50")
        .map(|(_, v)| v.clone())
        .unwrap();
    let p50_ms: f64 = p50.parse().unwrap();
    assert!(
        (p50_ms - 50.5).abs() <= 1.5,
        "merged p50 {} ms too far from 50.5",
        p50_ms
    );
}

#[test]
fn queries_respect_identity_and_range() {
    let svc = Service::new("sample-app".to_string(), "local".to_string());
    let other = Service::new("other-app".to_string(), "local".to_string());
    let mut store = DigestStore::new();
    let t = epoch("2023-05-01T12:00:30Z");
    svc.store_tdigest_at(&mut store, "1m", &summary_of(&[1000]).digest(), t);
    other.store_tdigest_at(&mut store, "1m", &summary_of(&[2000, 3000]).digest(), t);
    // A different app sees nothing.
    let res = get_quantiles(
        &other,
        &store,
        "1m",
        epoch("2023-05-01T12:00:00Z"),
        epoch("2023-05-01T12:01:00Z"),
    )
    .unwrap();
    assert_eq!(res.sample_count, 2);
    // A range before the flush sees nothing.
    let res = get_quantiles(
        &svc,
        &store,
        "1m",
        epoch("2023-05-01T11:00:00Z"),
        epoch("2023-05-01T11:59:00Z"),
    )
    .unwrap();
    assert_eq!(res.sample_count, 0);
    // The covering range sees the one record.
    let res = get_quantiles(
        &svc,
        &store,
        "1m",
        epoch("2023-05-01T12:00:00Z"),
        epoch("2023-05-01T12:01:00Z"),
    )
    .unwrap();
    assert_eq!(res.sample_count, 1);
}

#[test]
fn one_bad_record_poisons_the_range() {
    let svc = Service::new("sample-app".to_string(), "local".to_string());
    let mut store = DigestStore::new();
    let t = epoch("2023-05-01T12:00:30Z");
    svc.store_tdigest_at(&mut store, "1m", &summary_of(&[1000]).digest(), t);
    store.put(TDigestRecord {
        key: "sample-app:1m:corrupt".to_string(),
        app: "sample-app".to_string(),
        agg_level: "1m".to_string(),
        created_at: t,
        node_id: "corrupt".to_string(),
        tdigest: "not hex at all".to_string(),
    });
    let r = get_quantiles(
        &svc,
        &store,
        "1m",
        epoch("2023-05-01T12:00:00Z"),
        epoch("2023-05-01T12:01:00Z"),
    );
    assert!(matches!(r, Err(QueryError::BadRecord)));
    assert!(svc
        .query_digests(
            &store,
            "1m",
            epoch("2023-05-01T12:00:00Z"),
            epoch("2023-05-01T12:01:00Z"),
        )
        .is_err());
}

#[test]
fn persisted_and_reloaded_estimates_agree() {
    let svc = Service::new("sample-app".to_string(), "local".to_string());
    let mut store = DigestStore::new();
    let values: Vec<u32> = (1..=500u32).map(|i| i * 131 % 60_000).collect();
    let s = summary_of(&values);
    let sk = s.digest();
    let t = epoch("2023-05-01T12:00:30Z");
    svc.store_tdigest_at(&mut store, "1m", &sk, t);
    let loaded = svc
        .query_digests(
            &store,
            "1m",
            epoch("2023-05-01T12:00:00Z"),
            epoch("2023-05-01T12:01:00Z"),
        )
        .unwrap();
    assert_eq!(loaded.len(), 1);
    for q in [100u32, 500, 900, 990] {
        assert_eq!(loaded[0].estimate_quantile(q), sk.estimate_quantile(q));
    }
    assert_eq!(loaded[0].total_weight(), sk.total_weight());
}
