use approach_viz::discovery::newest_grib_keys;
use approach_viz::keys::cycle_anchor_timestamp;
use approach_viz::listing::{listing_continuation, parse_xml_tag_value, parse_xml_tag_values};
use approach_viz::discovery::find_latest_timestamp_at_or_before;
use approach_viz::config::{trim_base_url, Config};
use approach_viz::keys::{
    build_aux_key, build_level_key, extract_timestamp_from_key, is_mrms_grib2_key, scan_time_ms_or,
    timestamp_age_seconds,
};
use approach_viz::scheduler::{compare_text, SchedulerState, MAX_PENDING_ATTEMPTS};
use approach_viz::util::{clamp_i64, clamp_usize};

#[test]
fn level_key_layout() {
    let key = build_level_key("MergedReflectivityQC", "00.50", "20260101", "20260101-001200");
    assert_eq!(
        key,
        "CONUS/MergedReflectivityQC_00.50/20260101/MRMS_MergedReflectivityQC_00.50_20260101-001200.grib2.gz"
    );
}

#[test]
fn aux_key_layout() {
    let key = build_aux_key("PrecipFlag_00.00", "20260101", "20260101-001200");
    assert_eq!(key, "CONUS/PrecipFlag_00.00/20260101/MRMS_PrecipFlag_00.00_20260101-001200.grib2.gz");
}

#[test]
fn timestamp_extraction_from_keys() {
    let key = "CONUS/MergedReflectivityQC_00.50/20260101/MRMS_MergedReflectivityQC_00.50_20260101-001200.grib2.gz";
    assert_eq!(extract_timestamp_from_key(key), Some("20260101-001200".to_string()));
    assert!(is_mrms_grib2_key(key));
    assert_eq!(extract_timestamp_from_key("MRMS_X_20260101-0012.grib2.gz"), None);
    assert_eq!(extract_timestamp_from_key("MRMS_X_20260101-001200.grib2"), None);
    assert!(!is_mrms_grib2_key("MRMS_X_20260101-001200.grib2"));
    assert_eq!(extract_timestamp_from_key("MRMS_X-20260101-001200.grib2.gz"), None);
}

#[test]
fn timestamp_ages_and_scan_times() {
    assert_eq!(timestamp_age_seconds("20260101-001400", "20260101-001200"), Some(120));
    assert_eq!(timestamp_age_seconds("20260101-001200", "20260101-001400"), Some(0));
    assert_eq!(timestamp_age_seconds("garbage", "20260101-001400"), None);
    assert_eq!(scan_time_ms_or("19700101-000001", -5), 1000);
    assert_eq!(scan_time_ms_or("not a time", -5), -5);
}

#[test]
fn enqueue_dedupe_against_latest_and_pending() {
    let mut state = SchedulerState::new(Some("20260101-001200".to_string()));
    state.enqueue_timestamp("20260101-001200", 10);
    assert_eq!(state.pending.len(), 0);
    state.enqueue_timestamp("20260101-001400", 10);
    state.enqueue_timestamp("20260101-001400", 20);
    assert_eq!(state.pending.len(), 1);
    assert_eq!(state.pending[0].ingest.attempts, 0);
    assert_eq!(state.pending[0].ingest.next_attempt_at_ms, 20);
}

#[test]
fn scheduler_picks_greatest_due_and_retries() {
    let mut state = SchedulerState::new(None);
    state.enqueue_timestamp("20260101-001000", 5);
    state.enqueue_timestamp("20260101-001400", 5);
    state.enqueue_timestamp("20260101-001200", 50);
    let taken = state.take_due(10).expect("due entry");
    assert_eq!(taken.timestamp, "20260101-001400");
    assert_eq!(state.pending.len(), 2);
    state.record_failure(taken, 10, 30);
    assert_eq!(state.pending.len(), 3);
    let retried = state.pending.iter().find(|e| e.timestamp == "20260101-001400").unwrap();
    assert_eq!(retried.ingest.attempts, 1);
    assert_eq!(retried.ingest.next_attempt_at_ms, 40);
    let next = state.take_due(10).expect("due entry");
    assert_eq!(next.timestamp, "20260101-001000");
    assert!(state.take_due(10).is_none());
}

#[test]
fn scheduler_drops_after_attempt_cap() {
    let mut state = SchedulerState::new(None);
    state.enqueue_timestamp("20260101-001400", 0);
    let mut entry = state.take_due(0).unwrap();
    entry.ingest.attempts = MAX_PENDING_ATTEMPTS - 1;
    state.record_failure(entry, 0, 30);
    assert_eq!(state.pending.len(), 0);
}

#[test]
fn scheduler_success_publishes_and_prunes() {
    let mut state = SchedulerState::new(None);
    state.enqueue_timestamp("20260101-001000", 0);
    state.enqueue_timestamp("20260101-001200", 0);
    state.enqueue_timestamp("20260101-001600", 0);
    state.record_success("20260101-001200");
    assert_eq!(state.latest.as_deref(), Some("20260101-001200"));
    assert_eq!(state.pending.len(), 1);
    assert_eq!(state.pending[0].timestamp, "20260101-001600");
    state.enqueue_timestamp("20260101-001100", 0);
    assert_eq!(state.pending.len(), 1);
    state.record_success("20260101-000800");
    assert_eq!(state.latest.as_deref(), Some("20260101-001200"));
    assert!(state.is_recent("20260101-000800"));
}

#[test]
fn text_comparison_is_lexicographic() {
    assert_eq!(compare_text("20260101-001200", "20260101-001400"), -1);
    assert_eq!(compare_text("b", "abc"), 1);
    assert_eq!(compare_text("ab", "ab"), 0);
    assert_eq!(compare_text("ab", "abc"), -1);
}

#[test]
fn config_dirs_and_traffic_urls() {
    let cfg = Config {
        listen_addr: "127.0.0.1:9191".to_string(),
        storage_dir: "/var/lib/av".to_string(),
        retention_bytes: 1,
        request_timeout_secs: 10,
        bootstrap_interval_secs: 300,
        sqs_poll_delay_secs: 3,
        pending_retry_secs: 30,
        aws_region: "us-east-1".to_string(),
        sqs_queue_url: None,
        tile_size: 64,
        adsbx_primary_base_url: "https://a.example".to_string(),
        adsbx_fallback_base_urls: vec![
            "https://b.example".to_string(),
            "".to_string(),
            "https://a.example".to_string(),
            "https://c.example".to_string(),
        ],
    };
    assert_eq!(cfg.scans_dir(), "/var/lib/av/scans");
    assert_eq!(
        cfg.traffic_base_urls(),
        vec!["https://a.example".to_string(), "https://b.example".to_string(), "https://c.example".to_string()]
    );
    assert_eq!(trim_base_url("  https://x.example// "), "https://x.example");
}

#[test]
fn clamps() {
    assert_eq!(clamp_i64(-5, 0, 10), 0);
    assert_eq!(clamp_i64(15, 0, 10), 10);
    assert_eq!(clamp_i64(7, 0, 10), 7);
    assert_eq!(clamp_usize(-3, 1, 800), 1);
    assert_eq!(clamp_usize(5000, 1, 800), 800);
    assert_eq!(clamp_usize(250, 1, 800), 250);
}

#[test]
fn latest_timestamp_at_or_before_target() {
    let keys: Vec<String> = vec![
        "CONUS/PrecipFlag_00.00/20260101/MRMS_PrecipFlag_00.00_20260101-001000.grib2.gz",
        "CONUS/PrecipFlag_00.00/20260101/MRMS_PrecipFlag_00.00_20260101-001400.grib2.gz",
        "CONUS/PrecipFlag_00.00/20260101/MRMS_PrecipFlag_00.00_20260101-001200.grib2.gz",
        "CONUS/PrecipFlag_00.00/20260101/readme.txt",
    ]
    .into_iter()
    .map(String::from)
    .collect();
    assert_eq!(find_latest_timestamp_at_or_before(&keys, "20260101-001300"), Some("20260101-001200".to_string()));
    assert_eq!(find_latest_timestamp_at_or_before(&keys, "20260101-001400"), Some("20260101-001400".to_string()));
    assert_eq!(find_latest_timestamp_at_or_before(&keys, "20260101-000900"), None);
    assert_eq!(find_latest_timestamp_at_or_before(&keys, "latest"), None);
}

#[test]
fn listing_keys_and_continuation() {
    let xml = "<ListBucketResult><IsTruncated>true</IsTruncated><Contents><Key>CONUS/a_20260101-001200.grib2.gz</Key></Contents><Contents><Key></Key><Key>b</Key><Key>bad<x</Key></Contents><NextContinuationToken>tok+1</NextContinuationToken></ListBucketResult>";
    assert_eq!(
        parse_xml_tag_values(xml, "Key"),
        vec!["CONUS/a_20260101-001200.grib2.gz".to_string(), "b".to_string()]
    );
    assert_eq!(parse_xml_tag_value(xml, "IsTruncated"), Some("true".to_string()));
    assert_eq!(listing_continuation(xml), Some("tok+1".to_string()));
    let done = "<IsTruncated>false</IsTruncated><NextContinuationToken>t</NextContinuationToken>";
    assert_eq!(listing_continuation(done), None);
    assert_eq!(parse_xml_tag_value("<Key>é</Key>", "Key"), Some("é".to_string()));
}

#[test]
fn cycle_anchor_floors_to_step() {
    assert_eq!(cycle_anchor_timestamp("20260101-001234", 120), Some("20260101-001200".to_string()));
    assert_eq!(cycle_anchor_timestamp("20260101-001234", 0), Some("20260101-001234".to_string()));
    assert_eq!(cycle_anchor_timestamp("20260101-001234", 3600), Some("20260101-000000".to_string()));
    assert_eq!(cycle_anchor_timestamp("soon", 60), None);
}

#[test]
fn newest_grib_keys_descending_and_limited() {
    let keys: Vec<String> = vec!["p/x_20260101-001000.grib2.gz", "p/readme", "p/x_20260101-001400.grib2.gz", "p/x_20260101-001200.grib2.gz"]
        .into_iter()
        .map(String::from)
        .collect();
    assert_eq!(
        newest_grib_keys(keys.clone(), 2),
        vec!["p/x_20260101-001400.grib2.gz".to_string(), "p/x_20260101-001200.grib2.gz".to_string()]
    );
    assert_eq!(newest_grib_keys(keys, 10).len(), 3);
}
