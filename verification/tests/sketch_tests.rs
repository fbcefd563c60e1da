use rtt_tdigest::event::{decode_event, ingest_record, u32_to_ip};
use rtt_tdigest::query::format_millis;
use rtt_tdigest::sketch::{merge_digests, Sketch};
use rtt_tdigest::summary::Summary;

#[test]
fn count_tracks_every_sample() {
    let mut s = Summary::new();
    for i in 0..1000u32 {
        s.add_rtt(1000 + i);
    }
    assert_eq!(s.count(), 1000);
}

#[test]
fn end_to_end_hundred_samples() {
    // 1000, 2000, ..., 100000 microseconds: the median of the ladder is
    // 50.5 milliseconds.
    let mut s = Summary::new();
    for i in 1..=100u32 {
        s.add_rtt(i * 1000);
    }
    assert_eq!(s.count(), 100);
    let p50 = s.p50().unwrap();
    assert!(
        49_500 <= p50 && p50 <= 51_500,
        "p50 {} out of range around 50500 micros",
        p50
    );
}

#[test]
fn uniform_distribution_median() {
    // 10,000 samples uniform over [1, 10000]: p50 within 1% of the range.
    let mut s = Summary::new();
    for i in 1..=10_000u32 {
        s.add_rtt(i);
    }
    assert_eq!(s.count(), 10_000);
    let p50 = s.p50().unwrap() as i64;
    assert!(
        (p50 - 5000).abs() <= 100,
        "p50 {} deviates more than 1% from 5000",
        p50
    );
    let p99 = s.p99().unwrap() as i64;
    assert!((p99 - 9900).abs() <= 100, "p99 {} far from 9900", p99);
}

#[test]
fn centroid_count_stays_bounded() {
    let mut s = Summary::new();
    for i in 1..=10_000u32 {
        s.add_rtt(i % 977);
    }
    let sk = s.digest();
    assert!(sk.centroids.len() <= 600, "{} centroids", sk.centroids.len());
    assert_eq!(sk.total, 10_000);
}

#[test]
fn empty_sketch_has_no_quantiles() {
    let s = Summary::new();
    assert_eq!(s.count(), 0);
    assert!(s.p50().is_none());
    assert!(s.p99().is_none());
    let sk = Sketch::new(100);
    assert!(sk.estimate_quantile(500).is_none());
}

fn sketch_of(values: &[u32]) -> Sketch {
    let mut s = Summary::new();
    for v in values {
        s.add_rtt(*v);
    }
    s.digest()
}

#[test]
fn merge_is_commutative() {
    let a: Vec<u32> = (1..=50u32).map(|i| i * 1000).collect();
    let b: Vec<u32> = (51..=100u32).map(|i| i * 1000).collect();
    let sa = sketch_of(&a);
    let sb = sketch_of(&b);
    let m1 = merge_digests(vec![sa.duplicate(), sb.duplicate()]);
    let m2 = merge_digests(vec![sb.duplicate(), sa.duplicate()]);
    for q in [0u32, 100, 250, 500, 750, 900, 950, 990, 1000] {
        assert_eq!(
            m1.estimate_quantile(q),
            m2.estimate_quantile(q),
            "estimates differ at q={}",
            q
        );
    }
    assert_eq!(m1.total_weight(), m2.total_weight());
}

#[test]
fn merge_is_weight_additive() {
    let a: Vec<u32> = (1..=321u32).collect();
    let b: Vec<u32> = (1..=123u32).map(|i| i * 7).collect();
    let sa = sketch_of(&a);
    let sb = sketch_of(&b);
    let m = merge_digests(vec![sa.duplicate(), sb.duplicate()]);
    assert_eq!(m.total_weight(), sa.total_weight() + sb.total_weight());
}

#[test]
fn merge_of_nothing_is_empty() {
    let m = merge_digests(Vec::new());
    assert_eq!(m.total_weight(), 0);
    assert!(m.estimate_quantile(500).is_none());
}

#[test]
fn decode_event_reads_little_endian_fields() {
    let bytes: Vec<u8> = vec![
        0x04, 0x03, 0x02, 0x01, // srtt_us = 0x01020304
        0x01, 0x00, 0x00, 0x7f, // src_addr = 0x7f000001
        0x08, 0x08, 0x08, 0x08, // dst_addr = 0x08080808
    ];
    let e = decode_event(&bytes).unwrap();
    assert_eq!(e.srtt_us, 0x0102_0304);
    assert_eq!(e.src_addr, 0x7f00_0001);
    assert_eq!(e.dst_addr, 0x0808_0808);
}

#[test]
fn decode_event_rejects_wrong_length() {
    assert!(decode_event(&[]).is_none());
    assert!(decode_event(&[0u8; 11]).is_none());
    assert!(decode_event(&[0u8; 13]).is_none());
}

#[test]
fn ingest_feeds_the_aggregator() {
    let mut s = Summary::new();
    let bytes: Vec<u8> = vec![0xe8, 0x03, 0, 0, 0, 0, 0, 0, 0, 0, 0, 0];
    let e = ingest_record(&mut s, &bytes).unwrap();
    assert_eq!(e.srtt_us, 1000);
    assert_eq!(s.count(), 1);
    assert!(ingest_record(&mut s, &[0u8; 3]).is_none());
    assert_eq!(s.count(), 1);
}

#[test]
fn ip_rendering_is_dotted_quad() {
    assert_eq!(u32_to_ip(0x7f00_0001), "127.0.0.1");
    assert_eq!(u32_to_ip(0), "0.0.0.0");
    assert_eq!(u32_to_ip(0xffff_ffff), "255.255.255.255");
    assert_eq!(u32_to_ip(0x0a01_02ff), "10.1.2.255");
}

#[test]
fn millis_formatting_has_three_decimals() {
    assert_eq!(format_millis(50_500), "50.500");
    assert_eq!(format_millis(7), "0.007");
    assert_eq!(format_millis(1000), "1.000");
    assert_eq!(format_millis(0), "0.000");
    assert_eq!(format_millis(123_456_789), "123456.789");
}

#[test]
fn single_sample_is_every_quantile() {
    let mut s = Summary::new();
    s.add_rtt(42_000);
    assert_eq!(s.p50(), Some(42_000));
    assert_eq!(s.p99(), Some(42_000));
    assert_eq!(s.p75(), Some(42_000));
}
