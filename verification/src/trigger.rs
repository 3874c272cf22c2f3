//! Threshold-crossing detection with holdoff, and trigger event
//! identity.
//!
//! Measurements enter as `i64` keys: an order-preserving integer
//! encoding of the device's readings (the caller maps each reading to
//! its key and back). Detection only compares values, so every
//! decision below is exact for the readings themselves.

use vstd::prelude::*;
use crate::civil::valid_epoch_ms;
use crate::text::{dec_chars, lemma_dec_chars_digits, lemma_dec_chars_inj, lemma_sep_concat_inj};
use crate::text::{ascii_chars, ascii_to_string, chars_of, lemma_seq_assoc, push_dec};
use crate::names::push_chars;
use crate::timestamp::{format_rfc3339_ms, spec_parse_rfc3339};

verus! {

#[derive(Clone, Copy, PartialEq, Eq, Structural, Debug)]
pub enum TriggerType {
    Rising,
    Falling,
}

/// Per-channel trigger configuration. The threshold is an encoded
/// measurement key.
#[derive(Clone, Copy, PartialEq, Eq, Structural, Debug)]
pub struct TriggerSettings {
    pub enabled: bool,
    pub trigger_type: TriggerType,
    pub threshold: i64,
    pub holdoff_ms: u64,
}

/// Holdoffs long enough to overflow the clock are meaningless; a
/// settings value is usable when the holdoff stays well inside `i64`.
pub open spec fn wf_settings(s: TriggerSettings) -> bool {
    s.holdoff_ms <= 1000000000000000
}

/// One sample: the raw reading and its calibrated value, both as
/// order-preserving keys.
#[derive(Clone, Copy, PartialEq, Eq, Structural, Debug)]
pub struct Sample {
    pub raw: i64,
    pub calibrated: i64,
}

/// Detection state carried across batches of one channel.
#[derive(Clone, Copy, Debug)]
pub struct ChannelTriggerState {
    pub last_calibrated: Option<i64>,
    pub next_eligible_at_ms: i64,
}

/// The state before any sample was seen.
pub fn initial_channel_state() -> (st: ChannelTriggerState)
    ensures
        st.last_calibrated is None,
        st.next_eligible_at_ms == i64::MIN,
{
    ChannelTriggerState { last_calibrated: None, next_eligible_at_ms: i64::MIN }
}

/// A detected threshold crossing, ready to publish.
pub struct TriggerEvent {
    pub asset: u32,
    pub channel: u8,
    pub trigger_time: String,
    pub trigger_time_unix_ms: i64,
    pub raw_value: i64,
    pub calibrated_value: i64,
    pub threshold: i64,
    pub trigger_type: TriggerType,
    pub holdoff_ms: u64,
    pub calibration_id: String,
}

/// The crossing test: rising fires when the previous value was at or
/// below the threshold and the new one is above it; falling is the
/// dual.
pub open spec fn crosses(t: TriggerType, prev: i64, cal: i64, thr: i64) -> bool {
    match t {
        TriggerType::Rising => prev <= thr && cal > thr,
        TriggerType::Falling => prev >= thr && cal < thr,
    }
}

/// Whether one sample fires, given the state before it.
pub open spec fn step_fires(
    st: ChannelTriggerState,
    s: TriggerSettings,
    t_ms: i64,
    cal: i64,
) -> bool {
    &&& s.enabled
    &&& t_ms >= st.next_eligible_at_ms
    &&& st.last_calibrated matches Some(prev) && crosses(s.trigger_type, prev, cal, s.threshold)
}

/// The state after one sample: the last calibrated value always
/// advances; the holdoff clock advances only on a fire.
pub open spec fn step_state(
    st: ChannelTriggerState,
    s: TriggerSettings,
    t_ms: i64,
    cal: i64,
) -> ChannelTriggerState {
    ChannelTriggerState {
        last_calibrated: Some(cal),
        next_eligible_at_ms: if step_fires(st, s, t_ms, cal) {
            (t_ms + s.holdoff_ms) as i64
        } else {
            st.next_eligible_at_ms
        },
    }
}

/// The back-calculated wall-clock time of sample `i` in a batch that
/// ends at `batch_end_ms` and was sampled every `period_ns`
/// nanoseconds.
pub open spec fn sample_time(batch_end_ms: i64, scans: int, period_ns: i64, i: int) -> i64 {
    (batch_end_ms - ((scans - 1 - i) * period_ns) / 1000000) as i64
}

/// Detection over the first `n` samples of a batch: the state after
/// them and the fired samples, each with its time.
pub open spec fn detect_fold(
    st: ChannelTriggerState,
    s: TriggerSettings,
    batch_end_ms: i64,
    scans: int,
    period_ns: i64,
    samples: Seq<Sample>,
    n: int,
) -> (ChannelTriggerState, Seq<(i64, Sample)>)
    decreases n,
{
    if n <= 0 {
        (st, Seq::empty())
    } else {
        let (st1, fires1) = detect_fold(st, s, batch_end_ms, scans, period_ns, samples, n - 1);
        let t = sample_time(batch_end_ms, scans, period_ns, n - 1);
        let smp = samples[n - 1];
        if step_fires(st1, s, t, smp.calibrated) {
            (step_state(st1, s, t, smp.calibrated), fires1.push((t, smp)))
        } else {
            (step_state(st1, s, t, smp.calibrated), fires1)
        }
    }
}

/// `{asset}_{channel}_{unix_ms}_{r|f}`: a trigger event's identity.
pub open spec fn event_id_chars(asset: nat, channel: nat, unix_ms: nat, t: TriggerType) -> Seq<
    char,
> {
    dec_chars(asset) + seq!['_'] + (dec_chars(channel) + seq!['_'] + (dec_chars(unix_ms) + seq![
        '_',
    ] + (if t is Rising {
        seq!['r']
    } else {
        seq!['f']
    })))
}

/// Prints a trigger event's identity.
pub fn trigger_event_id(e: &TriggerEvent) -> (r: String)
    requires
        e.trigger_time_unix_ms >= 0,
    ensures
        r@ == event_id_chars(
            e.asset as nat,
            e.channel as nat,
            e.trigger_time_unix_ms as nat,
            e.trigger_type,
        ),
{
    let mut out: Vec<u8> = Vec::new();
    proof {
        reveal_strlit("_");
        reveal_strlit("r");
        reveal_strlit("f");
    }
    push_dec(&mut out, e.asset as u64);
    push_chars(&mut out, "_");
    push_dec(&mut out, e.channel as u64);
    push_chars(&mut out, "_");
    push_dec(&mut out, e.trigger_time_unix_ms as u64);
    push_chars(&mut out, "_");
    match e.trigger_type {
        TriggerType::Rising => push_chars(&mut out, "r"),
        TriggerType::Falling => push_chars(&mut out, "f"),
    }
    proof {
        assert("_"@ =~= seq!['_']);
        assert("r"@ =~= seq!['r']);
        assert("f"@ =~= seq!['f']);
        crate::text::lemma_dec_bytes_chars(e.asset as nat);
        crate::text::lemma_dec_bytes_chars(e.channel as nat);
        crate::text::lemma_dec_bytes_chars(e.trigger_time_unix_ms as nat);
        assert(chars_of(out@) =~= event_id_chars(
            e.asset as nat,
            e.channel as nat,
            e.trigger_time_unix_ms as nat,
            e.trigger_type,
        ));
    }
    ascii_to_string(out)
}

/// A trigger event's identity is injective in asset, channel, time
/// and type: equal identities mean equal coordinates.
pub proof fn lemma_event_id_injective(
    a1: nat,
    c1: nat,
    m1: nat,
    t1: TriggerType,
    a2: nat,
    c2: nat,
    m2: nat,
    t2: TriggerType,
)
    requires
        event_id_chars(a1, c1, m1, t1) == event_id_chars(a2, c2, m2, t2),
    ensures
        a1 == a2,
        c1 == c2,
        m1 == m2,
        t1 == t2,
{
    lemma_dec_chars_digits(a1);
    lemma_dec_chars_digits(a2);
    lemma_dec_chars_digits(c1);
    lemma_dec_chars_digits(c2);
    lemma_dec_chars_digits(m1);
    lemma_dec_chars_digits(m2);
    assert(('_' as u32) == 95);
    assert forall|i: int| 0 <= i < dec_chars(a1).len() implies dec_chars(a1)[i] != '_' by {
        crate::text::lemma_digit_not_punct(dec_chars(a1)[i]);
    }
    assert forall|i: int| 0 <= i < dec_chars(a2).len() implies dec_chars(a2)[i] != '_' by {
        crate::text::lemma_digit_not_punct(dec_chars(a2)[i]);
    }
    let r1 = dec_chars(c1) + seq!['_'] + (dec_chars(m1) + seq!['_'] + (if t1 is Rising {
        seq!['r']
    } else {
        seq!['f']
    }));
    let r2 = dec_chars(c2) + seq!['_'] + (dec_chars(m2) + seq!['_'] + (if t2 is Rising {
        seq!['r']
    } else {
        seq!['f']
    }));
    lemma_sep_concat_inj(dec_chars(a1), dec_chars(a2), r1, r2, '_');
    lemma_dec_chars_inj(a1, a2);
    assert forall|i: int| 0 <= i < dec_chars(c1).len() implies dec_chars(c1)[i] != '_' by {
        crate::text::lemma_digit_not_punct(dec_chars(c1)[i]);
    }
    assert forall|i: int| 0 <= i < dec_chars(c2).len() implies dec_chars(c2)[i] != '_' by {
        crate::text::lemma_digit_not_punct(dec_chars(c2)[i]);
    }
    let q1 = dec_chars(m1) + seq!['_'] + (if t1 is Rising {
        seq!['r']
    } else {
        seq!['f']
    });
    let q2 = dec_chars(m2) + seq!['_'] + (if t2 is Rising {
        seq!['r']
    } else {
        seq!['f']
    });
    lemma_sep_concat_inj(dec_chars(c1), dec_chars(c2), q1, q2, '_');
    lemma_dec_chars_inj(c1, c2);
    assert forall|i: int| 0 <= i < dec_chars(m1).len() implies dec_chars(m1)[i] != '_' by {
        crate::text::lemma_digit_not_punct(dec_chars(m1)[i]);
    }
    assert forall|i: int| 0 <= i < dec_chars(m2).len() implies dec_chars(m2)[i] != '_' by {
        crate::text::lemma_digit_not_punct(dec_chars(m2)[i]);
    }
    let k1 = if t1 is Rising {
        seq!['r']
    } else {
        seq!['f']
    };
    let k2 = if t2 is Rising {
        seq!['r']
    } else {
        seq!['f']
    };
    lemma_sep_concat_inj(dec_chars(m1), dec_chars(m2), k1, k2, '_');
    lemma_dec_chars_inj(m1, m2);
    assert(k1 == k2);
    if t1 != t2 {
        assert(k1[0] != k2[0]);
        assert(false);
    }
}

/// Runs detection over one batch of a channel's samples.
///
/// Fires are exactly the samples `detect_fold` selects; each produced
/// event carries the batch's coordinates and a trigger time that
/// parses back to the fire's epoch millisecond.
pub fn process_batch(
    state: &mut ChannelTriggerState,
    settings: &TriggerSettings,
    asset: u32,
    channel: u8,
    calibration_id: &str,
    batch_end_ms: i64,
    period_ns: i64,
    samples: &Vec<Sample>,
) -> (events: Vec<TriggerEvent>)
    requires
        wf_settings(*settings),
        0 < period_ns <= 1000000000000,
        samples@.len() <= 1000000,
        valid_epoch_ms(batch_end_ms as int),
        samples@.len() > 0 ==> valid_epoch_ms(
            sample_time(batch_end_ms, samples@.len() as int, period_ns, 0) as int,
        ),
        ascii_chars(calibration_id@),
    ensures
        ({
            let (st, fires) = detect_fold(
                *old(state),
                *settings,
                batch_end_ms,
                samples@.len() as int,
                period_ns,
                samples@,
                samples@.len() as int,
            );
            &&& *final(state) == st
            &&& events@.len() == fires.len()
            &&& forall|k: int|
                0 <= k < fires.len() ==> {
                    let e = #[trigger] events@[k];
                    &&& e.asset == asset
                    &&& e.channel == channel
                    &&& e.trigger_time_unix_ms == fires[k].0
                    &&& e.raw_value == fires[k].1.raw
                    &&& e.calibrated_value == fires[k].1.calibrated
                    &&& e.threshold == settings.threshold
                    &&& e.trigger_type == settings.trigger_type
                    &&& e.holdoff_ms == settings.holdoff_ms
                    &&& e.calibration_id@ == calibration_id@
                    &&& spec_parse_rfc3339(e.trigger_time@) == Some(fires[k].0)
                }
        }),
{
    let ghost st0 = *state;
    let n = samples.len();
    let mut events: Vec<TriggerEvent> = Vec::new();
    let mut i: usize = 0;
    while i < n
        invariant
            i <= n == samples@.len() <= 1000000,
            wf_settings(*settings),
            0 < period_ns <= 1000000000000,
            valid_epoch_ms(batch_end_ms as int),
            n > 0 ==> valid_epoch_ms(sample_time(batch_end_ms, n as int, period_ns, 0) as int),
            ascii_chars(calibration_id@),
            ({
                let (st, fires) = detect_fold(
                    st0,
                    *settings,
                    batch_end_ms,
                    n as int,
                    period_ns,
                    samples@,
                    i as int,
                );
                &&& *state == st
                &&& events@.len() == fires.len()
                &&& forall|k: int|
                    0 <= k < fires.len() ==> {
                        let e = #[trigger] events@[k];
                        &&& e.asset == asset
                        &&& e.channel == channel
                        &&& e.trigger_time_unix_ms == fires[k].0
                        &&& e.raw_value == fires[k].1.raw
                        &&& e.calibrated_value == fires[k].1.calibrated
                        &&& e.threshold == settings.threshold
                        &&& e.trigger_type == settings.trigger_type
                        &&& e.holdoff_ms == settings.holdoff_ms
                        &&& e.calibration_id@ == calibration_id@
                        &&& spec_parse_rfc3339(e.trigger_time@) == Some(fires[k].0)
                    }
            }),
        decreases n - i,
    {
        let smp = samples[i];
        proof {
            lemma_sample_time_in_range(batch_end_ms, n as int, period_ns, i as int);
            crate::civil::lemma_max_epoch_ms_bound();
        }
        let offset_scans: i64 = (n - 1 - i) as i64;
        proof {
            assert(0 <= offset_scans * period_ns <= 1000000000000000000) by (nonlinear_arith)
                requires
                    0 <= offset_scans < 1000000,
                    0 < period_ns <= 1000000000000,
            ;
        }
        let t: i64 = batch_end_ms - (offset_scans * period_ns) / 1000000;
        proof {
            assert(t == sample_time(batch_end_ms, n as int, period_ns, i as int));
        }
        let fires = settings.enabled && t >= state.next_eligible_at_ms && match state
            .last_calibrated {
            Some(prev) => match settings.trigger_type {
                TriggerType::Rising => prev <= settings.threshold && smp.calibrated
                    > settings.threshold,
                TriggerType::Falling => prev >= settings.threshold && smp.calibrated
                    < settings.threshold,
            },
            None => false,
        };
        if fires {
            let trigger_time = format_rfc3339_ms(t);
            let e = TriggerEvent {
                asset,
                channel,
                trigger_time,
                trigger_time_unix_ms: t,
                raw_value: smp.raw,
                calibrated_value: smp.calibrated,
                threshold: settings.threshold,
                trigger_type: settings.trigger_type,
                holdoff_ms: settings.holdoff_ms,
                calibration_id: String::from_str(calibration_id),
            };
            events.push(e);
            state.next_eligible_at_ms = t + settings.holdoff_ms as i64;
        }
        state.last_calibrated = Some(smp.calibrated);
        i += 1;
    }
    events
}

/// Trigger holdoff: any two fires of one channel batch are at least
/// the holdoff apart, no fire precedes the eligibility the state
/// carried in, and the state out carries the last fire's holdoff
/// horizon, so the separation also holds across batches.
pub proof fn lemma_trigger_holdoff(
    st: ChannelTriggerState,
    s: TriggerSettings,
    batch_end_ms: i64,
    scans: int,
    period_ns: i64,
    samples: Seq<Sample>,
    n: int,
)
    requires
        wf_settings(s),
        n <= samples.len(),
        forall|i: int|
            0 <= i < n ==> valid_epoch_ms(
                sample_time(batch_end_ms, scans, period_ns, i) as int,
            ),
    ensures
        ({
            let (st1, fires) = detect_fold(st, s, batch_end_ms, scans, period_ns, samples, n);
            &&& forall|j: int, k: int|
                0 <= j < k < fires.len() ==> (#[trigger] fires[k]).0 - (#[trigger] fires[j]).0
                    >= s.holdoff_ms
            &&& fires.len() > 0 ==> fires[0].0 >= st.next_eligible_at_ms
            &&& fires.len() > 0 ==> st1.next_eligible_at_ms == fires.last().0 + s.holdoff_ms
            &&& fires.len() == 0 ==> st1.next_eligible_at_ms == st.next_eligible_at_ms
        }),
    decreases n,
{
    if n > 0 {
        lemma_trigger_holdoff(st, s, batch_end_ms, scans, period_ns, samples, n - 1);
        let (st1, fires1) = detect_fold(st, s, batch_end_ms, scans, period_ns, samples, n - 1);
        let (st2, fires2) = detect_fold(st, s, batch_end_ms, scans, period_ns, samples, n);
        let t = sample_time(batch_end_ms, scans, period_ns, n - 1);
        let smp = samples[n - 1];
        if step_fires(st1, s, t, smp.calibrated) {
            crate::civil::lemma_max_epoch_ms_bound();
            assert(valid_epoch_ms(t as int));
            assert(st2.next_eligible_at_ms == t + s.holdoff_ms);
            assert(fires2 == fires1.push((t, smp)));
            assert(t >= st1.next_eligible_at_ms);
            if fires1.len() > 0 {
                assert(st1.next_eligible_at_ms == fires1.last().0 + s.holdoff_ms);
                assert forall|j: int, k: int| 0 <= j < k < fires2.len() implies (
                #[trigger] fires2[k]).0 - (#[trigger] fires2[j]).0 >= s.holdoff_ms by {
                    if k < fires2.len() - 1 {
                        assert(fires2[k] == fires1[k] && fires2[j] == fires1[j]);
                    } else {
                        assert(fires2[k].0 == t);
                        assert(fires2[j] == fires1[j]);
                        let last = fires1.len() - 1;
                        if j < last {
                            assert(fires1[last].0 - fires1[j].0 >= s.holdoff_ms);
                        }
                        assert(t - fires1[last].0 >= s.holdoff_ms);
                    }
                }
            }
        }
    }
}

/// The calibrated value that precedes sample `i`: the carried state's
/// for the first sample, the previous sample's otherwise.
pub open spec fn prev_cal(st: ChannelTriggerState, samples: Seq<Sample>, i: int) -> i64
    recommends
        st.last_calibrated is Some,
{
    if i == 0 {
        st.last_calibrated.unwrap()
    } else {
        samples[i - 1].calibrated
    }
}

/// Before the crossing, detection only tracks the last value.
proof fn lemma_no_fire_prefix(
    st: ChannelTriggerState,
    s: TriggerSettings,
    batch_end_ms: i64,
    scans: int,
    period_ns: i64,
    samples: Seq<Sample>,
    n: int,
)
    requires
        st.last_calibrated is Some,
        0 <= n <= samples.len(),
        forall|i: int|
            0 <= i < n ==> !crosses(
                s.trigger_type,
                prev_cal(st, samples, i),
                (#[trigger] samples[i]).calibrated,
                s.threshold,
            ),
    ensures
        ({
            let (st1, fires) = detect_fold(st, s, batch_end_ms, scans, period_ns, samples, n);
            &&& fires == Seq::<(i64, Sample)>::empty()
            &&& st1.next_eligible_at_ms == st.next_eligible_at_ms
            &&& st1.last_calibrated == Some(prev_cal(st, samples, n))
        }),
    decreases n,
{
    if n > 0 {
        lemma_no_fire_prefix(st, s, batch_end_ms, scans, period_ns, samples, n - 1);
    }
}

/// After the one crossing fired, nothing else fires.
proof fn lemma_no_fire_suffix(
    st: ChannelTriggerState,
    s: TriggerSettings,
    batch_end_ms: i64,
    scans: int,
    period_ns: i64,
    samples: Seq<Sample>,
    k: int,
    n: int,
)
    requires
        st.last_calibrated is Some,
        0 <= k < n <= samples.len(),
        forall|i: int|
            k < i < n ==> !crosses(
                s.trigger_type,
                prev_cal(st, samples, i),
                (#[trigger] samples[i]).calibrated,
                s.threshold,
            ),
        ({
            let (stk, firesk) = detect_fold(st, s, batch_end_ms, scans, period_ns, samples, k + 1);
            firesk == seq![(sample_time(batch_end_ms, scans, period_ns, k), samples[k])]
                && stk.last_calibrated == Some(samples[k].calibrated)
        }),
    ensures
        ({
            let (st1, fires) = detect_fold(st, s, batch_end_ms, scans, period_ns, samples, n);
            &&& fires == seq![(sample_time(batch_end_ms, scans, period_ns, k), samples[k])]
            &&& st1.last_calibrated == Some(prev_cal(st, samples, n))
        }),
    decreases n,
{
    if n > k + 1 {
        lemma_no_fire_suffix(st, s, batch_end_ms, scans, period_ns, samples, k, n - 1);
    }
}

/// Edge detection: when exactly one adjacent pair of calibrated
/// values crosses the threshold, at sample `k`, and `k`'s time has
/// cleared the holdoff, exactly one event fires, carrying `k`'s
/// sample.
pub proof fn lemma_single_crossing_fires_once(
    st: ChannelTriggerState,
    s: TriggerSettings,
    batch_end_ms: i64,
    scans: int,
    period_ns: i64,
    samples: Seq<Sample>,
    k: int,
)
    requires
        s.enabled,
        st.last_calibrated is Some,
        0 <= k < samples.len(),
        crosses(s.trigger_type, prev_cal(st, samples, k), samples[k].calibrated, s.threshold),
        forall|i: int|
            0 <= i < samples.len() && i != k ==> !crosses(
                s.trigger_type,
                prev_cal(st, samples, i),
                (#[trigger] samples[i]).calibrated,
                s.threshold,
            ),
        sample_time(batch_end_ms, scans, period_ns, k) >= st.next_eligible_at_ms,
    ensures
        ({
            let (st1, fires) = detect_fold(
                st,
                s,
                batch_end_ms,
                scans,
                period_ns,
                samples,
                samples.len() as int,
            );
            fires == seq![(sample_time(batch_end_ms, scans, period_ns, k), samples[k])]
        }),
{
    lemma_no_fire_prefix(st, s, batch_end_ms, scans, period_ns, samples, k);
    let (stk, firesk) = detect_fold(st, s, batch_end_ms, scans, period_ns, samples, k);
    let t = sample_time(batch_end_ms, scans, period_ns, k);
    assert(step_fires(stk, s, t, samples[k].calibrated));
    let (stk1, firesk1) = detect_fold(st, s, batch_end_ms, scans, period_ns, samples, k + 1);
    assert(firesk1 =~= seq![(t, samples[k])]);
    if k + 1 < samples.len() {
        lemma_no_fire_suffix(
            st,
            s,
            batch_end_ms,
            scans,
            period_ns,
            samples,
            k,
            samples.len() as int,
        );
    }
}

/// Sample times within a batch are between the first sample's time and
/// the batch end.
proof fn lemma_sample_time_in_range(batch_end_ms: i64, scans: int, period_ns: i64, i: int)
    requires
        0 < period_ns <= 1000000000000,
        scans <= 1000000,
        0 <= i < scans,
        valid_epoch_ms(batch_end_ms as int),
        valid_epoch_ms(sample_time(batch_end_ms, scans, period_ns, 0) as int),
    ensures
        valid_epoch_ms(sample_time(batch_end_ms, scans, period_ns, i) as int),
        sample_time(batch_end_ms, scans, period_ns, i) <= batch_end_ms,
{
    crate::civil::lemma_max_epoch_ms_bound();
    let off0 = (scans - 1) * period_ns;
    let offi = (scans - 1 - i) * period_ns;
    assert(0 <= offi <= off0 <= 1000000000000000000) by (nonlinear_arith)
        requires
            0 < period_ns <= 1000000000000,
            0 <= i < scans <= 1000000,
            off0 == (scans - 1) * period_ns,
            offi == (scans - 1 - i) * period_ns,
    ;
    assert(0 <= offi / 1000000 <= off0 / 1000000 <= 1000000000000000000) by (nonlinear_arith)
        requires
            0 <= offi <= off0 <= 1000000000000000000,
    ;
    assert(batch_end_ms - off0 / 1000000 >= i64::MIN);
    assert(sample_time(batch_end_ms, scans, period_ns, 0) as int == batch_end_ms - off0 / 1000000);
    assert(sample_time(batch_end_ms, scans, period_ns, i) as int == batch_end_ms - offi / 1000000);
}

} // verus!
