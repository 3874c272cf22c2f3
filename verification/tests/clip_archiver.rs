use ljm_daq::archiver::{
    archiver_step, new_channel_archiver, ArchiveRow, ArchiverEvent, RowBuffer,
};
use ljm_daq::calibration::{
    encode_calibration, parse_calibration, CalibrationFormula, CalibrationSpec,
};
use ljm_daq::civil::CivilDate;
use ljm_daq::clip_plan::{
    clip_window, part_window, resolve_clip_sources, single_trim_params, ClipPlan, ClipPlanError,
    SourceObject,
};
use ljm_daq::config::{canonical_channels, embed_config, project_config, same_sample_config,
    RawConfig, RawSensorSettings};
use ljm_daq::frame::{decode_frame, encode_frame, transpose_batch};

const T14: i64 = 1770991200000; // 2026-02-13T14:00:00Z

fn obj(name: &str, start_s: i64, end_s: i64) -> SourceObject {
    SourceObject {
        name: name.to_string(),
        start_ms: T14 + start_s * 1000,
        end_ms: T14 + end_s * 1000,
    }
}

#[test]
fn clip_single_source_with_trim_parameters() {
    // one object covering 14:00 to 14:10; trigger at 14:05, five
    // seconds either side
    let objects = vec![obj("a", 0, 600)];
    let (cs, ce) = clip_window(T14 + 300_000, 5_000, 5_000);
    match resolve_clip_sources(&objects, cs, ce) {
        Ok(ClipPlan::Single(i)) => {
            assert_eq!(i, 0);
            let (offset, duration) = single_trim_params(objects[0].start_ms, cs, ce);
            assert_eq!(offset, 295_000);
            assert_eq!(duration, 10_000);
        },
        _ => panic!("expected a single-source plan"),
    }
}

#[test]
fn clip_stitched_across_two_objects() {
    // contiguous objects 14:00-14:10 and 14:10-14:20; a window that
    // overruns the first object's end beyond the grace
    let objects = vec![obj("a", 0, 600), obj("b", 600, 1200)];
    let (cs, ce) = clip_window(T14 + 597_000, 5_000, 5_000);
    match resolve_clip_sources(&objects, cs, ce) {
        Ok(ClipPlan::Multi(chain)) => {
            assert_eq!(chain, vec![0, 1]);
            let (p1s, p1e) = part_window(objects[0].start_ms, objects[0].end_ms, cs, ce);
            let (p2s, p2e) = part_window(objects[1].start_ms, objects[1].end_ms, cs, ce);
            assert_eq!(p1e - p1s, 8_000);
            assert_eq!(p2e - p2s, 2_000);
            assert_eq!((p1e - p1s) + (p2e - p2s), ce - cs);
            let (off1, _) = single_trim_params(objects[0].start_ms, p1s, p1e);
            assert_eq!(off1, 592_000);
        },
        _ => panic!("expected a stitched plan"),
    }
}

#[test]
fn clip_plan_prefers_a_covering_single() {
    // the window end sits exactly on the boundary: the first object
    // still covers it within the grace
    let objects = vec![obj("a", 0, 600), obj("b", 600, 1200)];
    let (cs, ce) = clip_window(T14 + 595_000, 5_000, 5_000);
    assert!(matches!(resolve_clip_sources(&objects, cs, ce), Ok(ClipPlan::Single(0))));
}

#[test]
fn clip_chain_breaks_ties_by_name() {
    // two identical intervals under different names: the chain starts
    // from the lexicographically first of them
    let objects = vec![obj("z", 0, 600), obj("a", 0, 600), obj("c", 600, 1200)];
    let (cs, ce) = clip_window(T14 + 597_000, 5_000, 5_000);
    match resolve_clip_sources(&objects, cs, ce) {
        Ok(ClipPlan::Multi(chain)) => assert_eq!(chain, vec![1, 2]),
        _ => panic!("expected a stitched plan"),
    }
}

#[test]
fn clip_plan_errors_are_distinct() {
    let objects = vec![obj("a", 0, 600), obj("b", 900, 1500)];
    // nothing covers a start long before the first object
    let (cs1, ce1) = clip_window(T14 - 100_000, 5_000, 5_000);
    assert!(matches!(
        resolve_clip_sources(&objects, cs1, ce1),
        Err(ClipPlanError::NoCoverageAtStart)
    ));
    // both ends are covered but a five-minute hole separates them
    let (cs2, ce2) = clip_window(T14 + 599_000, 5_000, 302_000);
    match resolve_clip_sources(&objects, cs2, ce2) {
        Err(ClipPlanError::Gap { gap_ms }) => assert_eq!(gap_ms, 300_000),
        _ => panic!("expected a gap"),
    }
    // nothing covers the end at all
    let (cs3, ce3) = clip_window(T14 + 599_000, 5_000, 1_000_000);
    assert!(matches!(
        resolve_clip_sources(&objects, cs3, ce3),
        Err(ClipPlanError::NoCoverageAtEnd)
    ));
}

#[test]
fn clip_plan_with_no_objects_reports_missing_start() {
    let objects: Vec<SourceObject> = Vec::new();
    let (cs, ce) = clip_window(T14, 5_000, 5_000);
    assert!(matches!(
        resolve_clip_sources(&objects, cs, ce),
        Err(ClipPlanError::NoCoverageAtStart)
    ));
}

#[test]
fn clip_plan_error_messages_name_the_gap() {
    assert_eq!(
        ClipPlanError::NoCoverageAtStart.message(),
        "no source object covers the clip window start"
    );
    assert_eq!(
        ClipPlanError::Gap { gap_ms: 300_000 }.message(),
        "clip window spans a 300000 ms gap between video objects"
    );
    assert_eq!(
        ClipPlanError::NoCoverageAtEnd.message(),
        "no chain of video objects reaches the clip window end"
    );
}

#[test]
fn concat_list_quotes_shell_safely() {
    let parts = vec!["/tmp/work/part-0.mp4".to_string(), "/tmp/it's here.mp4".to_string()];
    let content = ljm_daq::clip_plan::concat_list_content(&parts);
    assert_eq!(
        content,
        "file '/tmp/work/part-0.mp4'\nfile '/tmp/it'\\''s here.mp4'\n"
    );
}

#[test]
fn archiver_seeds_from_existing_parts() {
    let names = vec![
        "part-0001.parquet".to_string(),
        "part-0003.parquet".to_string(),
        "notes.txt".to_string(),
    ];
    let st = new_channel_archiver(&names);
    assert_eq!(st.seed_index, 4);
    let empty: Vec<String> = Vec::new();
    assert_eq!(new_channel_archiver(&empty).seed_index, 1);
}

#[test]
fn calibration_change_rotates_the_file() {
    let day = CivilDate { year: 2026, month: 2, day: 13 };
    let names = vec![
        "part-0001.parquet".to_string(),
        "part-0002.parquet".to_string(),
    ];
    let mut st = new_channel_archiver(&names);
    // the first message opens the seeded index
    let a1 = archiver_step(&mut st, &ArchiverEvent::Message { today: day });
    assert!(!a1.close_current);
    assert_eq!(a1.open.expect("opens").file_index, 3);
    // a calibration change closes the open file and advances the index
    let a2 = archiver_step(&mut st, &ArchiverEvent::Calibration { today: day });
    assert!(a2.close_current);
    assert_eq!(a2.open.expect("opens").file_index, 4);
    // the next message lands in the new file: nothing opens or closes
    let a3 = archiver_step(&mut st, &ArchiverEvent::Message { today: day });
    assert!(!a3.close_current);
    assert!(a3.open.is_none());
}

#[test]
fn archiver_rolls_over_at_midnight_and_rotates_on_tick() {
    let day1 = CivilDate { year: 2026, month: 2, day: 13 };
    let day2 = CivilDate { year: 2026, month: 2, day: 14 };
    let empty: Vec<String> = Vec::new();
    let mut st = new_channel_archiver(&empty);
    let a1 = archiver_step(&mut st, &ArchiverEvent::Message { today: day1 });
    assert_eq!(a1.open.expect("opens").file_index, 1);
    let a2 = archiver_step(&mut st, &ArchiverEvent::Rotate { today: day1 });
    assert!(a2.close_current);
    assert_eq!(a2.open.expect("opens").file_index, 2);
    let a3 = archiver_step(&mut st, &ArchiverEvent::Message { today: day2 });
    assert!(a3.close_current);
    let opened = a3.open.expect("opens");
    assert_eq!(opened.file_index, 1);
    assert_eq!(opened.date, day2);
}

#[test]
fn row_buffer_flushes_in_groups_of_one_thousand() {
    let mut buf = RowBuffer::new();
    for i in 0..999u64 {
        let flushed = buf.push_row(ArchiveRow {
            timestamp: "t".to_string(),
            value_bits: i,
        });
        assert!(flushed.is_none());
    }
    let batch = buf
        .push_row(ArchiveRow { timestamp: "t".to_string(), value_bits: 999 })
        .expect("the thousandth row flushes");
    assert_eq!(batch.len(), 1000);
    assert_eq!(batch[999].value_bits, 999);
    let rest = buf.drain();
    assert!(rest.is_empty());
}

#[test]
fn calibration_json_round_trips() {
    let identity = CalibrationSpec { id: None, formula: CalibrationFormula::Identity };
    let s = encode_calibration(&identity);
    assert_eq!(s, "{\"id\":null,\"type\":\"identity\"}");
    let back = parse_calibration(&s).expect("parses");
    assert!(back.id.is_none());
    assert!(matches!(back.formula, CalibrationFormula::Identity));

    let linear = CalibrationSpec {
        id: Some("bench-7".to_string()),
        formula: CalibrationFormula::Linear { a: "1.5".to_string(), b: "-0.25".to_string() },
    };
    let s2 = encode_calibration(&linear);
    assert_eq!(s2, "{\"id\":\"bench-7\",\"type\":\"linear\",\"a\":1.5,\"b\":-0.25}");
    let back2 = parse_calibration(&s2).expect("parses");
    assert_eq!(back2.id.as_deref(), Some("bench-7"));
    match back2.formula {
        CalibrationFormula::Linear { a, b } => {
            assert_eq!(a, "1.5");
            assert_eq!(b, "-0.25");
        },
        _ => panic!("expected linear"),
    }

    let poly = CalibrationSpec {
        id: None,
        formula: CalibrationFormula::Polynomial {
            coeffs: vec!["0.5".to_string(), "2e-3".to_string(), "1".to_string()],
        },
    };
    let s3 = encode_calibration(&poly);
    assert_eq!(s3, "{\"id\":null,\"type\":\"polynomial\",\"coeffs\":[0.5,2e-3,1]}");
    let back3 = parse_calibration(&s3).expect("parses");
    match back3.formula {
        CalibrationFormula::Polynomial { coeffs } => {
            assert_eq!(coeffs, vec!["0.5".to_string(), "2e-3".to_string(), "1".to_string()]);
        },
        _ => panic!("expected polynomial"),
    }
}

#[test]
fn calibration_json_is_what_serde_produces_for_numbers() {
    // the coefficient texts come from the serialization boundary;
    // serde_json prints 1.5 exactly this way, so the embedded JSON is
    // a faithful document
    let t = serde_json::to_string(&1.5f64).expect("serializes");
    assert_eq!(t, "1.5");
    let spec = CalibrationSpec {
        id: None,
        formula: CalibrationFormula::Linear { a: t.clone(), b: t },
    };
    let s = encode_calibration(&spec);
    let v: serde_json::Value = serde_json::from_str(&s).expect("well-formed JSON");
    assert_eq!(v["type"], serde_json::Value::String("linear".to_string()));
    assert_eq!(v["a"].as_f64(), Some(1.5));
}

#[test]
fn calibration_parse_rejects_malformed_documents() {
    assert!(parse_calibration("").is_none());
    assert!(parse_calibration("{\"id\":null}").is_none());
    assert!(parse_calibration("{\"id\":null,\"type\":\"cubic\"}").is_none());
    assert!(parse_calibration("{\"id\":null,\"type\":\"linear\",\"a\":,\"b\":1}").is_none());
}

#[test]
fn identity_fallback_for_unnamed_calibrations() {
    let d = CalibrationSpec::default();
    assert!(d.id.is_none());
    assert!(matches!(d.formula, CalibrationFormula::Identity));
    let c = CalibrationSpec { id: None, formula: CalibrationFormula::Identity };
    assert_eq!(c.id_or_default(), "identity");
    let named = CalibrationSpec {
        id: Some("cal-2".to_string()),
        formula: CalibrationFormula::Identity,
    };
    assert_eq!(named.id_or_default(), "cal-2");
}

fn raw_config() -> RawConfig {
    RawConfig {
        asset_number: 7,
        nats_subject: "labjack".to_string(),
        nats_stream: "labjack_data".to_string(),
        rotate_secs: 600,
        sensor_settings: RawSensorSettings {
            scan_rate: 1000,
            sampling_rate_bits: 4652007308841189376, // the bit pattern of a 1 kHz rate
            channels_enabled: vec![4, 1, 4, 0],
            calibrations: vec![
                (
                    "4".to_string(),
                    CalibrationSpec { id: None, formula: CalibrationFormula::Identity },
                ),
                (
                    "bad".to_string(),
                    CalibrationSpec { id: None, formula: CalibrationFormula::Identity },
                ),
            ],
            trigger_settings: Vec::new(),
        },
    }
}

#[test]
fn projection_sorts_dedupes_and_drops_bad_keys() {
    let cfg = project_config(raw_config(), "labjack_triggers");
    assert_eq!(cfg.channels, vec![0, 1, 4]);
    assert_eq!(cfg.scans_per_read, 1000);
    assert_eq!(cfg.trigger_stream, "labjack_triggers");
    assert_eq!(cfg.calibrations.len(), 1);
    assert_eq!(cfg.calibrations[0].0, 4);
    assert_eq!(cfg.asset_number, 7);
    assert_eq!(cfg.rotate_secs, 600);
}

#[test]
fn projection_is_idempotent() {
    let once = project_config(raw_config(), "labjack_triggers");
    let channels_once = once.channels.clone();
    let cal_keys_once: Vec<u8> = once.calibrations.iter().map(|p| p.0).collect();
    let again = project_config(embed_config(once), "labjack_triggers");
    assert_eq!(again.channels, channels_once);
    let cal_keys_again: Vec<u8> = again.calibrations.iter().map(|p| p.0).collect();
    assert_eq!(cal_keys_again, cal_keys_once);
    assert_eq!(again.asset_number, 7);
    assert_eq!(again.scans_per_read, 1000);
}

#[test]
fn config_equality_spots_a_real_change() {
    let a = project_config(raw_config(), "labjack_triggers");
    let b = project_config(raw_config(), "labjack_triggers");
    assert!(same_sample_config(&a, &b));
    let mut changed = raw_config();
    changed.sensor_settings.channels_enabled.push(9);
    let c = project_config(changed, "labjack_triggers");
    assert!(!same_sample_config(&a, &c));
    let mut recal = raw_config();
    recal.sensor_settings.calibrations[0].1 = CalibrationSpec {
        id: Some("cal-2".to_string()),
        formula: CalibrationFormula::Linear { a: "2".to_string(), b: "0".to_string() },
    };
    let d = project_config(recal, "labjack_triggers");
    assert!(!same_sample_config(&a, &d));
}

#[test]
fn canonical_channels_are_sorted_and_unique() {
    assert_eq!(canonical_channels(&vec![9, 3, 9, 255, 0]), vec![0, 3, 9, 255]);
    assert_eq!(canonical_channels(&Vec::new()), Vec::<u8>::new());
}

#[test]
fn frame_codec_round_trips() {
    let values = vec![0u64, 1, u64::MAX, 0x0102030405060708];
    let bytes = encode_frame("2026-02-13T14:00:00.000Z", &values);
    let (ts, vals) = decode_frame(&bytes).expect("decodes");
    assert_eq!(ts, "2026-02-13T14:00:00.000Z");
    assert_eq!(vals, values);
    // the layout is fixed little-endian with length prefixes
    assert_eq!(&bytes[0..4], &[24, 0, 0, 0]);
    assert_eq!(bytes.len(), 4 + 24 + 4 + 8 * 4);
}

#[test]
fn frame_decode_rejects_truncated_input() {
    let values = vec![7u64];
    let mut bytes = encode_frame("t", &values);
    bytes.pop();
    assert!(decode_frame(&bytes).is_none());
    assert!(decode_frame(&vec![1, 2, 3]).is_none());
}

#[test]
fn transpose_fans_out_per_channel() {
    // two scans of three channels, interleaved per scan
    let batch = vec![10u64, 20, 30, 11, 21, 31];
    let cols = transpose_batch(&batch, 3);
    assert_eq!(cols.len(), 3);
    assert_eq!(cols[0], vec![10, 11]);
    assert_eq!(cols[1], vec![20, 21]);
    assert_eq!(cols[2], vec![30, 31]);
}
