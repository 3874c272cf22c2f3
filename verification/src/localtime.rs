//! The time-zone boundary: converting the local civil times that
//! appear in file and object names to and from UTC epoch time, and
//! the key-handling built on top of it.
//!
//! The zone database lives in `chrono-tz`; its answers are taken on
//! trust and everything around them is verified for every answer.

use vstd::prelude::*;
use crate::civil::{valid_civil, valid_epoch_ms, CivilDateTime};
use crate::keys::{parse_segment_name, parse_video_key, spec_parse_segment_name, VideoKey};
use chrono::{Datelike, TimeZone, Timelike};

verus! {

#[verifier::external_type_specification]
#[verifier::external_body]
pub struct ExTz(chrono_tz::Tz);

/// What the zone maps a local wall-clock time to, in epoch
/// milliseconds UTC: `None` for a local time the clock skipped, the
/// earliest reading when the clock repeated it. The zone tables are
/// compiled into `chrono-tz`, so this is a function of the zone and
/// the civil time alone.
pub uninterp spec fn local_utc_of(tz: chrono_tz::Tz, c: CivilDateTime) -> Option<i64>;

/// The zone's local wall-clock reading of a UTC instant; a function
/// of the zone and the instant alone, for the same reason.
pub uninterp spec fn local_civil_of(tz: chrono_tz::Tz, ms: i64) -> CivilDateTime;

/// Relies on `chrono_tz::Tz::from_local_datetime`: the zone's mapping
/// of a local wall-clock time to UTC. An ambiguous local time (a
/// clock set back) resolves to its earliest reading; a local time the
/// clock skipped yields nothing.
#[verifier::external_body]
pub fn local_civil_to_utc_ms(tz: &chrono_tz::Tz, c: &CivilDateTime) -> (r: Option<i64>)
    requires
        valid_civil(*c),
    ensures
        r == local_utc_of(*tz, *c),
{
    let naive = chrono::NaiveDate::from_ymd_opt(c.year as i32, c.month as u32, c.day as u32)?
        .and_hms_opt(c.hour as u32, c.minute as u32, c.second as u32)?;
    match tz.from_local_datetime(&naive) {
        chrono::LocalResult::Single(dt) => Some(dt.timestamp_millis()),
        chrono::LocalResult::Ambiguous(first, _) => Some(first.timestamp_millis()),
        chrono::LocalResult::None => None,
    }
}

/// Relies on `chrono::TimeZone::from_utc_datetime` for `chrono_tz::Tz`:
/// the zone's local wall-clock reading of a UTC instant, which is a
/// calendar-valid date and time; a day of slack at both ends of the
/// supported range absorbs any zone offset.
#[verifier::external_body]
pub fn utc_ms_to_local_civil(tz: &chrono_tz::Tz, ms: i64) -> (c: CivilDateTime)
    requires
        valid_epoch_ms(ms as int),
        86400000 <= ms,
        valid_epoch_ms(ms + 86400000),
    ensures
        c == local_civil_of(*tz, ms),
        valid_civil(c),
{
    let utc = chrono::DateTime::from_timestamp_millis(ms).unwrap_or_default().naive_utc();
    let local = tz.from_utc_datetime(&utc);
    CivilDateTime {
        year: local.year() as u32,
        month: local.month() as u8,
        day: local.day() as u8,
        hour: local.hour() as u8,
        minute: local.minute() as u8,
        second: local.second() as u8,
    }
}

/// A raw video object with its interval resolved to UTC.
pub struct VideoObjectUtc {
    pub asset: u32,
    pub camera_id: String,
    pub start_ms: i64,
    pub end_ms: i64,
}

/// Parses a raw video object key and resolves its local-time interval
/// against the given zone: it succeeds exactly when the name parses
/// under the key grammar and the zone maps both bounds to instants
/// with `0 <= start < end` inside the supported range; everything
/// else is dropped, as a listing must tolerate foreign names in the
/// bucket.
pub fn parse_video_key_utc(name: &str, tz: &chrono_tz::Tz) -> (r: Option<VideoObjectUtc>)
    ensures
        ({
            match crate::keys::spec_parse_video_key(name@) {
                Some(k) => {
                    match (local_utc_of(*tz, k.2), local_utc_of(*tz, k.3)) {
                        (Some(sms), Some(ems)) => {
                            if 0 <= sms < ems && valid_epoch_ms(ems as int) {
                                r matches Some(o) && o.asset == k.0 && o.camera_id@ == k.1
                                    && o.start_ms == sms && o.end_ms == ems
                            } else {
                                r is None
                            }
                        },
                        _ => r is None,
                    }
                },
                None => r is None,
            }
        }),
        r matches Some(o) ==> 0 <= o.start_ms < o.end_ms && valid_epoch_ms(o.start_ms as int)
            && valid_epoch_ms(o.end_ms as int),
{
    let k: VideoKey = match parse_video_key(name) {
        Some(k) => k,
        None => {
            return None;
        },
    };
    let start_ms = match local_civil_to_utc_ms(tz, &k.start) {
        Some(v) => v,
        None => {
            return None;
        },
    };
    let end_ms = match local_civil_to_utc_ms(tz, &k.end) {
        Some(v) => v,
        None => {
            return None;
        },
    };
    if !(0 <= start_ms && start_ms < end_ms) {
        return None;
    }
    let max = crate::civil::max_epoch_ms_x();
    if !(end_ms < max) {
        return None;
    }
    Some(VideoObjectUtc { asset: k.asset, camera_id: k.camera_id, start_ms, end_ms })
}

/// How old a spool segment must be before it is considered
/// finalized: the configured settle time, but never less than one
/// second past the segment length.
pub fn settle_threshold_sec(upload_settle_sec: u64, segment_sec: u64) -> (r: u64)
    ensures
        r == if upload_settle_sec >= segment_sec + 1 {
            upload_settle_sec as int
        } else if segment_sec == u64::MAX {
            u64::MAX as int
        } else {
            segment_sec + 1
        },
{
    let floor = if segment_sec == u64::MAX {
        u64::MAX
    } else {
        segment_sec + 1
    };
    if upload_settle_sec >= floor {
        upload_settle_sec
    } else {
        floor
    }
}

/// How old an invalid segment may grow before it is discarded rather
/// than retried: six segment lengths.
pub fn stale_discard_age_sec(segment_sec: u64) -> (r: u64)
    ensures
        segment_sec <= 1000000 ==> r == 6 * segment_sec,
{
    if segment_sec <= 1000000 {
        6 * segment_sec
    } else {
        u64::MAX
    }
}

/// Builds the object key a finished spool segment uploads to.
///
/// The segment file name gives the local start; the end is the start
/// plus the segment length, re-read in the zone. It succeeds exactly
/// when the name parses, the zone puts the start a day inside the
/// supported range, and the end's local reading is after the start's;
/// degenerate readings around zone transitions yield nothing and the
/// segment is retried later.
pub fn segment_object_key(
    name: &str,
    tz: &chrono_tz::Tz,
    asset: u32,
    camera_id: &str,
    segment_sec: u64,
) -> (r: Option<String>)
    requires
        crate::names::camera_id_ok(camera_id@),
        segment_sec <= 86400,
    ensures
        ({
            match spec_parse_segment_name(name@) {
                Some(c0) => {
                    match local_utc_of(*tz, c0) {
                        Some(sms) => {
                            if 86400000 <= sms && sms < crate::civil::max_epoch_secs() * 1000
                                - 172800000 {
                                let endc = local_civil_of(
                                    *tz,
                                    (sms + segment_sec * 1000) as i64,
                                );
                                if crate::civil::epoch_secs(endc) > crate::civil::epoch_secs(c0) {
                                    r matches Some(key) && key@ == crate::keys::video_key_chars(
                                        asset as nat,
                                        camera_id@,
                                        c0,
                                        endc,
                                    )
                                } else {
                                    r is None
                                }
                            } else {
                                r is None
                            }
                        },
                        None => r is None,
                    }
                },
                None => r is None,
            }
        }),
        r matches Some(key) ==> crate::keys::spec_parse_video_key(key@) matches Some(k) && k.0
            == asset && k.1 == camera_id@ && k.2 == spec_parse_segment_name(name@).unwrap(),
{
    let start_local = match parse_segment_name(name) {
        Some(c) => c,
        None => {
            return None;
        },
    };
    let start_ms = match local_civil_to_utc_ms(tz, &start_local) {
        Some(v) => v,
        None => {
            return None;
        },
    };
    let max = crate::civil::max_epoch_ms_x();
    proof {
        crate::civil::lemma_max_epoch_ms_bound();
    }
    if !(86400000 <= start_ms && start_ms < max - 2 * 86400000) {
        return None;
    }
    let end_ms = start_ms + (segment_sec as i64) * 1000;
    let end_local = utc_ms_to_local_civil(tz, end_ms);
    let start_secs = crate::civil::civil_to_secs(&start_local);
    let end_secs = crate::civil::civil_to_secs(&end_local);
    if !(end_secs > start_secs) {
        return None;
    }
    Some(crate::keys::format_video_key(asset, camera_id, &start_local, &end_local))
}

} // verus!
