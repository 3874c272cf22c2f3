//! The clip worker's decisions: trigger-record lifecycle, camera
//! selection, and the raw-retention garbage collection rule.

use vstd::prelude::*;
use crate::civil::valid_epoch_ms;
use crate::names::rfind_char;
use crate::timestamp::{format_rfc3339_ms, spec_parse_rfc3339};
use crate::trigger::{event_id_chars, trigger_event_id, TriggerEvent};

verus! {

#[derive(Clone, Copy, PartialEq, Eq, Structural, Debug)]
pub enum TriggerRecordStatus {
    Pending,
    Processed,
}

/// The durable state of one trigger event, keyed `event.{id}`.
pub struct TriggerRecord {
    pub id: String,
    pub event: TriggerEvent,
    pub status: TriggerRecordStatus,
    pub attempts: u32,
    pub clip_keys: Vec<String>,
    pub last_error: Option<String>,
    pub updated_at: String,
}

/// A record is coherent when its id matches its event and the event's
/// textual time matches its epoch time.
pub open spec fn wf_record(r: TriggerRecord) -> bool {
    &&& r.event.trigger_time_unix_ms >= 0
    &&& r.id@ == event_id_chars(
        r.event.asset as nat,
        r.event.channel as nat,
        r.event.trigger_time_unix_ms as nat,
        r.event.trigger_type,
    )
    &&& spec_parse_rfc3339(r.event.trigger_time@) == Some(r.event.trigger_time_unix_ms)
}

/// The record a newly observed trigger event gets: pending, no
/// attempts, no clips.
pub fn new_trigger_record(event: TriggerEvent, now_ms: i64) -> (r: TriggerRecord)
    requires
        event.trigger_time_unix_ms >= 0,
        valid_epoch_ms(now_ms as int),
        spec_parse_rfc3339(event.trigger_time@) == Some(event.trigger_time_unix_ms),
    ensures
        wf_record(r),
        r.event == event,
        r.status is Pending,
        r.attempts == 0,
        r.clip_keys@.len() == 0,
        r.last_error is None,
        spec_parse_rfc3339(r.updated_at@) == Some(now_ms),
{
    let id = trigger_event_id(&event);
    TriggerRecord {
        id,
        event,
        status: TriggerRecordStatus::Pending,
        attempts: 0,
        clip_keys: Vec::new(),
        last_error: None,
        updated_at: format_rfc3339_ms(now_ms),
    }
}

/// Whether ingest writes a record for a freshly pulled event: only
/// when no record with its id exists yet; re-delivery is harmless.
pub fn ingest_record(already_exists: bool, event: TriggerEvent, now_ms: i64) -> (r: Option<
    TriggerRecord,
>)
    requires
        event.trigger_time_unix_ms >= 0,
        valid_epoch_ms(now_ms as int),
        spec_parse_rfc3339(event.trigger_time@) == Some(event.trigger_time_unix_ms),
    ensures
        already_exists <==> r is None,
        r matches Some(rec) ==> rec.event == event && rec.status is Pending && rec.attempts == 0
            && rec.clip_keys@.len() == 0 && rec.last_error is None && spec_parse_rfc3339(
            rec.updated_at@,
        ) == Some(now_ms) && wf_record(rec),
{
    if already_exists {
        None
    } else {
        Some(new_trigger_record(event, now_ms))
    }
}

/// Whether compaction may process a record now: it is pending and its
/// trigger time is at least the processing lag behind `now`.
pub fn ready_for_compaction(rec: &TriggerRecord, now_ms: i64, process_lag_sec: u64) -> (r: bool)
    requires
        valid_epoch_ms(now_ms as int),
        process_lag_sec <= 1000000000000,
    ensures
        r == (rec.status is Pending && rec.event.trigger_time_unix_ms <= now_ms - process_lag_sec
            * 1000),
{
    proof {
        crate::civil::lemma_max_epoch_ms_bound();
    }
    let lag_ms: i64 = (process_lag_sec as i64) * 1000;
    match rec.status {
        TriggerRecordStatus::Pending => rec.event.trigger_time_unix_ms <= now_ms - lag_ms,
        TriggerRecordStatus::Processed => false,
    }
}

/// Applies one compaction outcome to a record.
///
/// A processed record is terminal: it is returned unchanged whatever
/// the outcome, so a record is never downgraded. A pending record
/// either completes, with its clip keys set and its error cleared, or
/// stays pending with the failure recorded; either way the attempt is
/// counted.
pub fn apply_compaction_outcome(
    rec: &mut TriggerRecord,
    outcome: Result<Vec<String>, String>,
    now_ms: i64,
)
    requires
        valid_epoch_ms(now_ms as int),
    ensures
        old(rec).status is Processed ==> *final(rec) == *old(rec),
        old(rec).status is Pending ==> {
            &&& final(rec).id == old(rec).id
            &&& final(rec).event == old(rec).event
            &&& final(rec).attempts == if old(rec).attempts == u32::MAX {
                u32::MAX
            } else {
                (old(rec).attempts + 1) as u32
            }
            &&& spec_parse_rfc3339(final(rec).updated_at@) == Some(now_ms)
            &&& match outcome {
                Ok(keys) => final(rec).status is Processed && final(rec).clip_keys == keys
                    && final(rec).last_error is None,
                Err(e) => final(rec).status is Pending && final(rec).last_error == Some(e)
                    && final(rec).clip_keys == old(rec).clip_keys,
            }
        },
        wf_record(*old(rec)) ==> wf_record(*final(rec)),
{
    match rec.status {
        TriggerRecordStatus::Processed => {},
        TriggerRecordStatus::Pending => {
            rec.attempts = if rec.attempts == u32::MAX {
                u32::MAX
            } else {
                rec.attempts + 1
            };
            rec.updated_at = format_rfc3339_ms(now_ms);
            match outcome {
                Ok(keys) => {
                    rec.status = TriggerRecordStatus::Processed;
                    rec.clip_keys = keys;
                    rec.last_error = None;
                },
                Err(e) => {
                    rec.last_error = Some(e);
                },
            }
        },
    }
}

/// Whether some element of `v` reads the same as `s`.
fn contains_str(v: &Vec<String>, s: &String) -> (r: bool)
    ensures
        r == exists|i: int| 0 <= i < v@.len() && (#[trigger] v@[i])@ == s@,
{
    let n = v.len();
    let mut i: usize = 0;
    while i < n
        invariant
            i <= n == v@.len(),
            forall|j: int| 0 <= j < i ==> (#[trigger] v@[j])@ != s@,
        decreases n - i,
    {
        if v[i].eq(s) {
            return true;
        }
        i += 1;
    }
    false
}

/// Every element of `out` reads like some element of `src`.
pub open spec fn all_drawn_from(out: Seq<String>, src: Seq<String>) -> bool {
    forall|a: int|
        0 <= a < out.len() ==> exists|k: int|
            0 <= k < src.len() && (#[trigger] src[k])@ == (#[trigger] out[a])@
}

/// No two elements of `out` read the same.
pub open spec fn no_repeats(out: Seq<String>) -> bool {
    forall|a: int, b: int|
        0 <= a < b < out.len() ==> (#[trigger] out[a])@ != (#[trigger] out[b])@
}

/// `src[k]` is admitted by the allowlist: the list is empty or names
/// it.
pub open spec fn admitted(allowlist: Seq<String>, c: Seq<char>) -> bool {
    allowlist.len() == 0 || exists|a: int|
        0 <= a < allowlist.len() && (#[trigger] allowlist[a])@ == c
}

/// The cameras to emit clips for: the distinct camera ids seen for
/// the asset, restricted to the allowlist when one is given; first
/// occurrence order.
pub fn select_cameras(camera_ids: &Vec<String>, allowlist: &Vec<String>) -> (r: Vec<String>)
    ensures
        no_repeats(r@),
        all_drawn_from(r@, camera_ids@),
        allowlist@.len() > 0 ==> all_drawn_from(r@, allowlist@),
        forall|k: int|
            0 <= k < camera_ids@.len() && admitted(allowlist@, (#[trigger] camera_ids@[k])@)
                ==> exists|j: int| 0 <= j < r@.len() && (#[trigger] r@[j])@ == camera_ids@[k]@,
{
    let n = camera_ids.len();
    let mut out: Vec<String> = Vec::new();
    let mut i: usize = 0;
    while i < n
        invariant
            i <= n == camera_ids@.len(),
            no_repeats(out@),
            all_drawn_from(out@, camera_ids@),
            allowlist@.len() > 0 ==> all_drawn_from(out@, allowlist@),
            forall|k: int|
                0 <= k < i && admitted(allowlist@, (#[trigger] camera_ids@[k])@) ==> exists|j: int|
                    0 <= j < out@.len() && (#[trigger] out@[j])@ == camera_ids@[k]@,
        decreases n - i,
    {
        let c = &camera_ids[i];
        let allowed = allowlist.len() == 0 || contains_str(allowlist, c);
        let dup = contains_str(&out, c);
        let ghost old_out = out@;
        if allowed && !dup {
            out.push(c.clone());
            proof {
                assert(out@.last()@ == camera_ids@[i as int]@);
                assert(forall|a: int| 0 <= a < old_out.len() ==> out@[a] == old_out[a]);
            }
        }
        i += 1;
        proof {
            assert forall|a: int| 0 <= a < out@.len() implies exists|k: int|
                0 <= k < camera_ids@.len() && (#[trigger] camera_ids@[k])@ == (
            #[trigger] out@[a])@ by {
                if a < old_out.len() {
                    assert(old_out[a]@ == out@[a]@);
                    let k = choose|k: int|
                        0 <= k < camera_ids@.len() && (#[trigger] camera_ids@[k])@ == old_out[a]@;
                    assert(camera_ids@[k]@ == out@[a]@);
                } else {
                    assert(out@[a]@ == camera_ids@[i - 1]@);
                }
            }
            assert(all_drawn_from(out@, camera_ids@));
            if allowlist@.len() > 0 {
                assert forall|a: int| 0 <= a < out@.len() implies exists|k: int|
                    0 <= k < allowlist@.len() && (#[trigger] allowlist@[k])@ == (
                #[trigger] out@[a])@ by {
                    if a < old_out.len() {
                        assert(old_out[a]@ == out@[a]@);
                        let k = choose|k: int|
                            0 <= k < allowlist@.len() && (#[trigger] allowlist@[k])@
                                == old_out[a]@;
                        assert(allowlist@[k]@ == out@[a]@);
                    } else {
                        assert(allowed);
                        let k = choose|k: int|
                            0 <= k < allowlist@.len() && (#[trigger] allowlist@[k])@
                                == camera_ids@[i - 1]@;
                        assert(allowlist@[k]@ == out@[a]@);
                    }
                }
                assert(all_drawn_from(out@, allowlist@));
            }
            assert forall|k: int|
                0 <= k < i && admitted(allowlist@, (#[trigger] camera_ids@[k])@) implies exists|
                j: int,
            | 0 <= j < out@.len() && (#[trigger] out@[j])@ == camera_ids@[k]@ by {
                if k < i - 1 {
                    let j = choose|j: int|
                        0 <= j < old_out.len() && (#[trigger] old_out[j])@ == camera_ids@[k]@;
                    assert(out@[j]@ == camera_ids@[k]@);
                } else {
                    if allowed {
                        if dup {
                            let j = choose|j: int|
                                0 <= j < old_out.len() && (#[trigger] old_out[j])@
                                    == camera_ids@[k]@;
                            assert(out@[j]@ == camera_ids@[k]@);
                        } else {
                            assert(out@[out@.len() - 1]@ == camera_ids@[k]@);
                        }
                    }
                }
            }
        }
    }
    out
}

/// The earliest trigger time among pending records, if any.
pub fn earliest_pending_ms(records: &Vec<TriggerRecord>) -> (r: Option<i64>)
    ensures
        match r {
            Some(m) => (exists|i: int|
                0 <= i < records@.len() && (#[trigger] records@[i]).status is Pending && records@[i].event.trigger_time_unix_ms == m) && forall|i: int|
                0 <= i < records@.len() && (#[trigger] records@[i]).status is Pending ==> records@[i].event.trigger_time_unix_ms >= m,
            None => forall|i: int| 0 <= i < records@.len() ==> !((
            #[trigger] records@[i]).status is Pending),
        },
{
    let n = records.len();
    let mut best: Option<i64> = None;
    let mut i: usize = 0;
    while i < n
        invariant
            i <= n == records@.len(),
            match best {
                Some(m) => (exists|j: int|
                    0 <= j < i && (#[trigger] records@[j]).status is Pending && records@[j].event.trigger_time_unix_ms == m) && forall|j: int|
                    0 <= j < i && (#[trigger] records@[j]).status is Pending ==> records@[j].event.trigger_time_unix_ms >= m,
                None => forall|j: int| 0 <= j < i ==> !((#[trigger] records@[j]).status is Pending),
            },
        decreases n - i,
    {
        let rec = &records[i];
        match rec.status {
            TriggerRecordStatus::Pending => {
                let t = rec.event.trigger_time_unix_ms;
                best = match best {
                    Some(m) => {
                        if t < m {
                            Some(t)
                        } else {
                            Some(m)
                        }
                    },
                    None => Some(t),
                };
            },
            TriggerRecordStatus::Processed => {},
        }
        i += 1;
    }
    best
}

/// The deletion cutoff: everything that ended before it may go. It is
/// the retention horizon, pulled earlier when a pending trigger still
/// needs footage from before its own time.
pub fn retention_cutoff_ms(
    now_ms: i64,
    raw_retention_sec: u64,
    earliest_pending: Option<i64>,
    clip_pre_ms: i64,
) -> (r: i64)
    requires
        valid_epoch_ms(now_ms as int),
        raw_retention_sec <= 1000000000000,
        0 <= clip_pre_ms <= 1000000000000,
        earliest_pending matches Some(p) ==> valid_epoch_ms(p as int),
    ensures
        ({
            let horizon = now_ms - raw_retention_sec * 1000;
            match earliest_pending {
                Some(p) => r == if p - clip_pre_ms < horizon {
                    p - clip_pre_ms
                } else {
                    horizon
                },
                None => r == horizon,
            }
        }),
{
    proof {
        crate::civil::lemma_max_epoch_ms_bound();
    }
    let horizon: i64 = now_ms - (raw_retention_sec as i64) * 1000;
    match earliest_pending {
        Some(p) => {
            let pending_cutoff = p - clip_pre_ms;
            if pending_cutoff < horizon {
                pending_cutoff
            } else {
                horizon
            }
        },
        None => horizon,
    }
}

/// The file portion of an object key: what follows the last `/`.
pub open spec fn file_part_of(cs: Seq<char>) -> Seq<char> {
    match rfind_char(cs, '/') {
        Some(i) => cs.subrange(i + 1, cs.len() as int),
        None => cs,
    }
}

/// Whether the file portion names a raw segment: it begins `V_`.
pub open spec fn is_raw_segment_name(cs: Seq<char>) -> bool {
    file_part_of(cs).len() >= 2 && file_part_of(cs)[0] == 'V' && file_part_of(cs)[1] == '_'
}

/// Whether retention deletes an object: only one that ended before
/// the cutoff, and only when its file portion begins `V_`; generated
/// clips never qualify.
pub fn should_delete(name: &str, end_ms: i64, cutoff_ms: i64) -> (r: bool)
    ensures
        r == (end_ms < cutoff_ms && is_raw_segment_name(name@)),
        !is_raw_segment_name(name@) ==> !r,
{
    if end_ms >= cutoff_ms {
        return false;
    }
    let n = name.unicode_len();
    proof {
        assert(name@.take(n as int) =~= name@);
    }
    let start = match crate::names::rfind_char_before(name, '/', n) {
        Some(i) => i + 1,
        None => 0,
    };
    proof {
        match rfind_char(name@, '/') {
            Some(i) => {
                assert(file_part_of(name@) == name@.subrange(i + 1, name@.len() as int));
            },
            None => {
                assert(file_part_of(name@) == name@);
            },
        }
    }
    if n - start >= 2 {
        let c0 = name.get_char(start);
        let c1 = name.get_char(start + 1);
        proof {
            assert(file_part_of(name@)[0] == name@[start as int]);
            assert(file_part_of(name@)[1] == name@[start as int + 1]);
        }
        c0 == 'V' && c1 == '_'
    } else {
        proof {
            assert(file_part_of(name@).len() == n - start);
        }
        false
    }
}

} // verus!
