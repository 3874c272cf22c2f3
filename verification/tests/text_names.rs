use ljm_daq::names::{
    channel_subject, extract_channel_token, pad_asset, pad_channel, sanitize_camera_id,
    stream_subject_wildcard, trigger_record_key, trigger_subject, trigger_subject_wildcard,
};

#[test]
fn pad_asset_pads_to_three_digits() {
    assert_eq!(pad_asset(7), "007");
    assert_eq!(pad_asset(42), "042");
    assert_eq!(pad_asset(123), "123");
    assert_eq!(pad_asset(4321), "4321");
    assert_eq!(pad_asset(0), "000");
}

#[test]
fn pad_channel_pads_to_two_digits() {
    assert_eq!(pad_channel(0), "ch00");
    assert_eq!(pad_channel(4), "ch04");
    assert_eq!(pad_channel(13), "ch13");
    assert_eq!(pad_channel(255), "ch255");
}

#[test]
fn subjects_follow_the_grammar() {
    assert_eq!(channel_subject("labjack", 1, 4), "labjack.001.data.ch04");
    assert_eq!(stream_subject_wildcard("labjack", 1), "labjack.001.data.*");
    assert_eq!(trigger_subject("avenabox", 12, 7), "avenabox.012.trigger.ch07");
    assert_eq!(trigger_subject_wildcard("avenabox"), "avenabox.*.trigger.*");
}

#[test]
fn pad_asset_handles_the_largest_asset() {
    assert_eq!(pad_asset(u32::MAX), "4294967295");
}

#[test]
fn record_key_prefixes_event() {
    assert_eq!(trigger_record_key("1_4_1770998399998_r"), "event.1_4_1770998399998_r");
}

#[test]
fn channel_token_is_last_dot_part() {
    assert_eq!(extract_channel_token("labjack.001.data.ch04"), Some("ch04".to_string()));
    assert_eq!(extract_channel_token("nodots"), Some("nodots".to_string()));
    assert_eq!(extract_channel_token("trailing."), Some("".to_string()));
}

#[test]
fn sanitize_keeps_camera_chars_only() {
    assert_eq!(sanitize_camera_id("cam-01_a"), "cam-01_a");
    assert_eq!(sanitize_camera_id("cam 01/../x"), "cam01x");
    assert_eq!(sanitize_camera_id("!!!"), "default");
    assert_eq!(sanitize_camera_id(""), "default");
}
