use ljm_daq::civil::{civil_to_secs, days_in_month_x, secs_to_civil, CivilDateTime};
use ljm_daq::keys::{
    archive_dir, archive_path, clip_object_key, format_video_key, parse_part_index,
    parse_segment_name, part_file_name, parse_video_key,
};
use ljm_daq::timestamp::{
    format_date, format_rfc3339_ms, format_rfc3339_ms_at_offset, parse_rfc3339, parse_video_ts,
};
use ljm_daq::localtime::{parse_video_key_utc, segment_object_key};

fn cdt(year: u32, month: u8, day: u8, hour: u8, minute: u8, second: u8) -> CivilDateTime {
    CivilDateTime { year, month, day, hour, minute, second }
}

#[test]
fn civil_epoch_known_values() {
    assert_eq!(civil_to_secs(&cdt(1970, 1, 1, 0, 0, 0)), 0);
    assert_eq!(civil_to_secs(&cdt(1970, 1, 2, 0, 0, 0)), 86400);
    assert_eq!(civil_to_secs(&cdt(2026, 2, 13, 14, 0, 0)), 1770991200);
    assert_eq!(civil_to_secs(&cdt(2024, 2, 29, 23, 59, 59)), 1709251199);
    assert_eq!(civil_to_secs(&cdt(9999, 12, 31, 23, 59, 59)), 253402300799);
}

#[test]
fn civil_epoch_round_trips() {
    for secs in [0i64, 86400, 1709251199, 1770991200, 253402300799] {
        let c = secs_to_civil(secs);
        assert_eq!(civil_to_secs(&c), secs);
    }
    assert_eq!(secs_to_civil(1709251199), cdt(2024, 2, 29, 23, 59, 59));
}

#[test]
fn leap_year_days() {
    assert_eq!(days_in_month_x(2024, 2), 29);
    assert_eq!(days_in_month_x(2026, 2), 28);
    assert_eq!(days_in_month_x(2000, 2), 29);
    assert_eq!(days_in_month_x(1900, 2), 28);
}

#[test]
fn rfc3339_formats_and_parses_back() {
    let s = format_rfc3339_ms(1770991200000);
    assert_eq!(s, "2026-02-13T14:00:00.000Z");
    assert_eq!(parse_rfc3339(&s), Some(1770991200000));
    let t = format_rfc3339_ms(1770991199998);
    assert_eq!(t, "2026-02-13T13:59:59.998Z");
    assert_eq!(parse_rfc3339(&t), Some(1770991199998));
}

#[test]
fn rfc3339_offset_form_shows_the_local_clock() {
    let s = format_rfc3339_ms_at_offset(1770991200000, -5 * 3600);
    assert_eq!(s, "2026-02-13T09:00:00.000-05:00");
    assert_eq!(parse_rfc3339(&s), Some(1770991200000));
    let t = format_rfc3339_ms_at_offset(1770991200000, 5 * 3600 + 30 * 60);
    assert_eq!(t, "2026-02-13T19:30:00.000+05:30");
    assert_eq!(parse_rfc3339(&t), Some(1770991200000));
    let u = format_rfc3339_ms_at_offset(1770991200000, 0);
    assert_eq!(u, "2026-02-13T14:00:00.000+00:00");
    assert_eq!(parse_rfc3339(&u), Some(1770991200000));
}

#[test]
fn rfc3339_accepts_offsets_and_short_fractions() {
    assert_eq!(parse_rfc3339("2026-02-13T14:00:00Z"), Some(1770991200000));
    assert_eq!(parse_rfc3339("2026-02-13T14:00:00.5Z"), Some(1770991200500));
    assert_eq!(parse_rfc3339("2026-02-13T14:00:00+05:30"), Some(1770971400000));
    assert_eq!(parse_rfc3339("2026-02-13T14:00:00-01:00"), Some(1770994800000));
}

#[test]
fn rfc3339_covers_the_whole_supported_range() {
    assert_eq!(parse_rfc3339("1970-01-01T00:00:00Z"), Some(0));
    assert_eq!(parse_rfc3339("9999-12-31T23:59:59.999Z"), Some(253402300799999));
    assert_eq!(format_rfc3339_ms(253402300799999), "9999-12-31T23:59:59.999Z");
    // a year the model does not reach
    assert_eq!(parse_rfc3339("1969-12-31T23:59:59Z"), None);
}

#[test]
fn rfc3339_rejects_malformed_text() {
    assert_eq!(parse_rfc3339(""), None);
    assert_eq!(parse_rfc3339("2026-02-13 14:00:00Z"), None);
    assert_eq!(parse_rfc3339("2026-13-13T14:00:00Z"), None);
    assert_eq!(parse_rfc3339("2026-02-30T14:00:00Z"), None);
    assert_eq!(parse_rfc3339("2026-02-13T14:00:00"), None);
    assert_eq!(parse_rfc3339("2026-02-13T14:00:00.Z"), None);
}

#[test]
fn video_ts_parses_exactly() {
    let c = parse_video_ts("2026_02_13_140000").expect("valid timestamp");
    assert_eq!(c, cdt(2026, 2, 13, 14, 0, 0));
    assert_eq!(parse_video_ts("2026_02_13_146000"), None);
    assert_eq!(parse_video_ts("2026_02_30_140000"), None);
    assert_eq!(parse_video_ts("2026-02-13_140000"), None);
}

#[test]
fn video_key_round_trips() {
    let s = cdt(2026, 2, 13, 14, 0, 0);
    let e = cdt(2026, 2, 13, 14, 10, 0);
    let key = format_video_key(1001, "default", &s, &e);
    assert_eq!(key, "asset1001/camera_default/V_2026_02_13_140000_2026_02_13_141000.mp4");
    let k = parse_video_key(&key).expect("key parses");
    assert_eq!(k.asset, 1001);
    assert_eq!(k.camera_id, "default");
    assert_eq!(k.start, s);
    assert_eq!(k.end, e);
}

#[test]
fn video_key_accepts_legacy_two_part_names() {
    let k = parse_video_key("asset7/V_2026_02_13_140000_2026_02_13_141000.mp4").expect("legacy");
    assert_eq!(k.asset, 7);
    assert_eq!(k.camera_id, "default");
    let k2 = parse_video_key("asset7/rig_a/V_2026_02_13_140000_2026_02_13_141000.mp4")
        .expect("unprefixed camera part");
    assert_eq!(k2.camera_id, "rig_a");
}

#[test]
fn video_key_rejects_bad_names() {
    assert_eq!(parse_video_key("clips/asset7/camera_a/C_x.mp4").is_none(), true);
    assert_eq!(parse_video_key("asset7/camera_a/V_bad.mp4").is_none(), true);
    // the end must be after the start
    assert!(parse_video_key("asset7/camera_a/V_2026_02_13_141000_2026_02_13_140000.mp4")
        .is_none());
    assert!(parse_video_key("noslash").is_none());
    assert!(parse_video_key("a/b/c/d").is_none());
}

#[test]
fn segment_names_parse() {
    assert_eq!(parse_segment_name("segment_20260213_140000.mp4"), Some(cdt(2026, 2, 13, 14, 0, 0)));
    assert_eq!(parse_segment_name("segment_20260213_146000.mp4"), None);
    assert_eq!(parse_segment_name("part_20260213_140000.mp4"), None);
    assert_eq!(parse_segment_name("segment_20260213_140000.mkv"), None);
}

#[test]
fn clip_keys_follow_the_grammar() {
    let key = clip_object_key("clips", 7, "cam1", &cdt(2026, 2, 13, 14, 5, 0), 4, true);
    assert_eq!(key, "clips/asset7/camera_cam1/C_20260213T140500_ch04_rising.mp4");
    let key2 = clip_object_key("clips", 7, "cam1", &cdt(2026, 2, 13, 14, 5, 0), 4, false);
    assert_eq!(key2, "clips/asset7/camera_cam1/C_20260213T140500_ch04_falling.mp4");
}

#[test]
fn part_names_round_trip() {
    assert_eq!(part_file_name(3), "part-0003.parquet");
    assert_eq!(parse_part_index("part-0003.parquet"), Some(3));
    assert_eq!(parse_part_index("part-12345.parquet"), Some(12345));
    assert_eq!(parse_part_index("part-.parquet"), None);
    assert_eq!(parse_part_index("part-12.csv"), None);
    assert_eq!(parse_part_index("other-0001.parquet"), None);
}

#[test]
fn archive_paths_follow_the_partitioning() {
    let d = cdt(2026, 2, 13, 0, 0, 0);
    assert_eq!(format_date(&d), "2026-02-13");
    assert_eq!(archive_dir(7, &d, 4), "parquet/asset007/2026-02-13/ch04");
    assert_eq!(archive_path(7, &d, 4, 12), "parquet/asset007/2026-02-13/ch04/part-0012.parquet");
}

#[test]
fn video_key_resolves_to_utc_in_the_utc_zone() {
    let tz: chrono_tz::Tz = "UTC".parse().expect("zone");
    let o = parse_video_key_utc("asset7/camera_a/V_2026_02_13_140000_2026_02_13_141000.mp4", &tz)
        .expect("resolves");
    assert_eq!(o.asset, 7);
    assert_eq!(o.camera_id, "a");
    assert_eq!(o.start_ms, 1770991200000);
    assert_eq!(o.end_ms, 1770991800000);
}

#[test]
fn video_key_resolves_with_a_real_zone() {
    let tz: chrono_tz::Tz = "America/New_York".parse().expect("zone");
    let o = parse_video_key_utc("asset7/camera_a/V_2026_02_13_090000_2026_02_13_091000.mp4", &tz)
        .expect("resolves");
    // 09:00 Eastern Standard Time is 14:00 UTC
    assert_eq!(o.start_ms, 1770991200000);
}

#[test]
fn zone_resolution_rejects_foreign_names() {
    let tz: chrono_tz::Tz = "UTC".parse().expect("zone");
    assert!(parse_video_key_utc("clips/asset7/camera_a/C_x.mp4", &tz).is_none());
    assert!(parse_video_key_utc("not-a-key", &tz).is_none());
    assert!(segment_object_key("not-a-segment.mp4", &tz, 7, "cam1", 600).is_none());
}

#[test]
fn segment_upload_key_matches_the_parser() {
    let tz: chrono_tz::Tz = "UTC".parse().expect("zone");
    let key = segment_object_key("segment_20260213_140000.mp4", &tz, 7, "cam1", 600)
        .expect("key built");
    assert_eq!(key, "asset7/camera_cam1/V_2026_02_13_140000_2026_02_13_141000.mp4");
    let back = parse_video_key(&key).expect("parses back");
    assert_eq!(back.asset, 7);
    assert_eq!(back.camera_id, "cam1");
}
