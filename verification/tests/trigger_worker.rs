use ljm_daq::timestamp::parse_rfc3339;
use ljm_daq::trigger::{
    initial_channel_state, process_batch, trigger_event_id, Sample, TriggerSettings, TriggerType,
};
use ljm_daq::worker::{
    apply_compaction_outcome, earliest_pending_ms, ingest_record, new_trigger_record,
    ready_for_compaction, retention_cutoff_ms, select_cameras, should_delete, TriggerRecordStatus,
};

/// The order-preserving integer key of a finite reading, as the
/// acquisition boundary encodes measurements for the library.
fn key(x: f64) -> i64 {
    let b = x.to_bits() as i64;
    b ^ ((b >> 63) & 0x7fff_ffff_ffff_ffff)
}

fn samples_of(xs: &[f64]) -> Vec<Sample> {
    xs.iter().map(|x| Sample { raw: key(*x), calibrated: key(*x) }).collect()
}

const BATCH_END_MS: i64 = 1770998400000;

fn rising_settings() -> TriggerSettings {
    TriggerSettings {
        enabled: true,
        trigger_type: TriggerType::Rising,
        threshold: key(1.5),
        holdoff_ms: 500,
    }
}

#[test]
fn rising_trigger_fires_once_with_back_calculated_time() {
    let mut st = initial_channel_state();
    let samples = samples_of(&[1.0, 1.2, 1.4, 1.6, 1.55, 0.5]);
    // 1000 Hz: one millisecond per scan
    let events = process_batch(
        &mut st,
        &rising_settings(),
        1,
        4,
        "identity",
        BATCH_END_MS,
        1_000_000,
        &samples,
    );
    assert_eq!(events.len(), 1);
    let e = &events[0];
    assert_eq!(e.asset, 1);
    assert_eq!(e.channel, 4);
    assert_eq!(e.raw_value, key(1.6));
    assert_eq!(e.calibrated_value, key(1.6));
    assert_eq!(e.threshold, key(1.5));
    assert_eq!(e.trigger_type, TriggerType::Rising);
    assert_eq!(e.holdoff_ms, 500);
    assert_eq!(e.calibration_id, "identity");
    assert_eq!(e.trigger_time_unix_ms, BATCH_END_MS - 2);
    assert_eq!(parse_rfc3339(&e.trigger_time), Some(BATCH_END_MS - 2));
}

#[test]
fn holdoff_suppresses_repeat_crossings() {
    let mut st = initial_channel_state();
    // upward crossings 400 ms apart; the second falls inside the
    // holdoff and is suppressed, the third has cleared it and fires
    let samples = samples_of(&[1.0, 2.0, 1.0, 2.0, 1.0, 2.0]);
    let events = process_batch(
        &mut st,
        &rising_settings(),
        1,
        4,
        "identity",
        BATCH_END_MS,
        200_000_000,
        &samples,
    );
    assert_eq!(events.len(), 2);
    let dt = events[1].trigger_time_unix_ms - events[0].trigger_time_unix_ms;
    assert!(dt >= 500);
    assert_eq!(dt, 800);
}

#[test]
fn falling_trigger_is_the_dual() {
    let mut st = initial_channel_state();
    let settings = TriggerSettings {
        enabled: true,
        trigger_type: TriggerType::Falling,
        threshold: key(1.5),
        holdoff_ms: 500,
    };
    let samples = samples_of(&[2.0, 1.8, 1.4, 1.6, 2.0, 2.2]);
    let events =
        process_batch(&mut st, &settings, 1, 4, "identity", BATCH_END_MS, 1_000_000, &samples);
    assert_eq!(events.len(), 1);
    assert_eq!(events[0].calibrated_value, key(1.4));
}

#[test]
fn disabled_channel_never_fires() {
    let mut st = initial_channel_state();
    let mut settings = rising_settings();
    settings.enabled = false;
    let samples = samples_of(&[1.0, 2.0, 1.0, 2.0]);
    let events =
        process_batch(&mut st, &settings, 1, 4, "identity", BATCH_END_MS, 1_000_000, &samples);
    assert!(events.is_empty());
}

#[test]
fn holdoff_carries_across_batches() {
    let mut st = initial_channel_state();
    let settings = rising_settings();
    let first = samples_of(&[1.0, 2.0]);
    let events =
        process_batch(&mut st, &settings, 1, 4, "identity", BATCH_END_MS, 1_000_000, &first);
    assert_eq!(events.len(), 1);
    // the next batch ends one millisecond later: still inside the holdoff
    let second = samples_of(&[1.0, 2.0]);
    let events2 = process_batch(
        &mut st,
        &settings,
        1,
        4,
        "identity",
        BATCH_END_MS + 1,
        1_000_000,
        &second,
    );
    assert!(events2.is_empty());
}

#[test]
fn event_ids_are_stable_and_distinct() {
    let mut st = initial_channel_state();
    let samples = samples_of(&[1.0, 2.0]);
    let events = process_batch(
        &mut st,
        &rising_settings(),
        1,
        4,
        "identity",
        BATCH_END_MS,
        1_000_000,
        &samples,
    );
    let e = &events[0];
    let id = trigger_event_id(e);
    assert_eq!(id, format!("1_4_{}_r", e.trigger_time_unix_ms));
    assert_eq!(trigger_event_id(e), id);
}

#[test]
fn ingest_writes_only_new_records() {
    let mut st = initial_channel_state();
    let samples = samples_of(&[1.0, 2.0]);
    let mut events = process_batch(
        &mut st,
        &rising_settings(),
        1,
        4,
        "identity",
        BATCH_END_MS,
        1_000_000,
        &samples,
    );
    let e = events.remove(0);
    let now = BATCH_END_MS + 1000;
    assert!(ingest_record(true, e, now).is_none());
    let mut st2 = initial_channel_state();
    let mut events2 = process_batch(
        &mut st2,
        &rising_settings(),
        1,
        4,
        "identity",
        BATCH_END_MS,
        1_000_000,
        &samples_of(&[1.0, 2.0]),
    );
    let e2 = events2.remove(0);
    let rec = ingest_record(false, e2, now).expect("new record");
    assert!(matches!(rec.status, TriggerRecordStatus::Pending));
    assert_eq!(rec.attempts, 0);
    assert!(rec.clip_keys.is_empty());
    assert!(rec.last_error.is_none());
    assert_eq!(rec.id, format!("1_4_{}_r", BATCH_END_MS - 0));
    assert_eq!(parse_rfc3339(&rec.updated_at), Some(now));
}

fn pending_record(trigger_ms: i64, now: i64) -> ljm_daq::worker::TriggerRecord {
    let mut st = initial_channel_state();
    let mut events = process_batch(
        &mut st,
        &rising_settings(),
        1,
        4,
        "identity",
        trigger_ms,
        1_000_000,
        &samples_of(&[1.0, 2.0]),
    );
    new_trigger_record(events.remove(0), now)
}

#[test]
fn compaction_waits_for_the_processing_lag() {
    let now = BATCH_END_MS + 20_000;
    let rec = pending_record(BATCH_END_MS, now);
    assert!(ready_for_compaction(&rec, now, 15));
    assert!(!ready_for_compaction(&rec, now, 30));
}

#[test]
fn compaction_success_completes_the_record() {
    let now = BATCH_END_MS + 20_000;
    let mut rec = pending_record(BATCH_END_MS, now);
    apply_compaction_outcome(&mut rec, Ok(vec!["clips/asset1/camera_a/x.mp4".to_string()]), now);
    assert!(matches!(rec.status, TriggerRecordStatus::Processed));
    assert_eq!(rec.attempts, 1);
    assert_eq!(rec.clip_keys, vec!["clips/asset1/camera_a/x.mp4".to_string()]);
    assert!(rec.last_error.is_none());
}

#[test]
fn compaction_failure_keeps_the_record_pending() {
    let now = BATCH_END_MS + 20_000;
    let mut rec = pending_record(BATCH_END_MS, now);
    apply_compaction_outcome(&mut rec, Err("camera a: no source object".to_string()), now);
    assert!(matches!(rec.status, TriggerRecordStatus::Pending));
    assert_eq!(rec.attempts, 1);
    assert_eq!(rec.last_error.as_deref(), Some("camera a: no source object"));
}

#[test]
fn processed_records_are_terminal() {
    let now = BATCH_END_MS + 20_000;
    let mut rec = pending_record(BATCH_END_MS, now);
    apply_compaction_outcome(&mut rec, Ok(vec!["k1".to_string()]), now);
    let keys_before = rec.clip_keys.clone();
    apply_compaction_outcome(&mut rec, Err("late failure".to_string()), now + 1000);
    assert!(matches!(rec.status, TriggerRecordStatus::Processed));
    assert_eq!(rec.clip_keys, keys_before);
    assert!(rec.last_error.is_none());
    assert_eq!(rec.attempts, 1);
}

#[test]
fn camera_selection_dedupes_and_respects_allowlist() {
    let cams = vec!["b".to_string(), "a".to_string(), "b".to_string(), "c".to_string()];
    let none: Vec<String> = Vec::new();
    let all = select_cameras(&cams, &none);
    assert_eq!(all, vec!["b".to_string(), "a".to_string(), "c".to_string()]);
    let allow = vec!["a".to_string(), "c".to_string(), "z".to_string()];
    let picked = select_cameras(&cams, &allow);
    assert_eq!(picked, vec!["a".to_string(), "c".to_string()]);
    let other = vec!["z".to_string()];
    assert!(select_cameras(&cams, &other).is_empty());
}

#[test]
fn earliest_pending_finds_the_oldest() {
    let now = BATCH_END_MS + 20_000;
    let r1 = pending_record(BATCH_END_MS, now);
    let mut r2 = pending_record(BATCH_END_MS - 5_000, now);
    let r3 = pending_record(BATCH_END_MS - 10_000, now);
    apply_compaction_outcome(&mut r2, Ok(Vec::new()), now);
    let records = vec![r1, r2, r3];
    assert_eq!(earliest_pending_ms(&records), Some(BATCH_END_MS - 10_000));
    let empty: Vec<ljm_daq::worker::TriggerRecord> = Vec::new();
    assert_eq!(earliest_pending_ms(&empty), None);
}

#[test]
fn retention_cutoff_protects_pending_footage() {
    let now = BATCH_END_MS;
    // an hour of retention; a pending trigger five minutes ago
    let cutoff = retention_cutoff_ms(now, 3600, Some(now - 300_000), 5_000);
    assert_eq!(cutoff, now - 3_600_000);
    // a pending trigger older than the retention horizon pulls it earlier
    let cutoff2 = retention_cutoff_ms(now, 3600, Some(now - 7_200_000), 5_000);
    assert_eq!(cutoff2, now - 7_205_000);
    let cutoff3 = retention_cutoff_ms(now, 3600, None, 5_000);
    assert_eq!(cutoff3, now - 3_600_000);
}

#[test]
fn retention_deletes_only_old_raw_segments() {
    let now = BATCH_END_MS;
    let cutoff = retention_cutoff_ms(now, 3600, Some(now - 300_000), 5_000);
    // ended 400 s ago: inside the horizon, retained
    assert!(!should_delete("asset1/camera_a/V_x.mp4", now - 400_000, cutoff));
    // ended over an hour ago: deleted
    assert!(should_delete("asset1/camera_a/V_x.mp4", now - 3_700_000, cutoff));
    // generated clips are never deleted, however old
    assert!(!should_delete("clips/asset1/camera_a/C_x.mp4", now - 3_700_000, cutoff));
    assert!(!should_delete("C_plain.mp4", now - 3_700_000, cutoff));
    assert!(should_delete("V_plain.mp4", now - 3_700_000, cutoff));
}
