//! Configuration: the nested document as delivered over the bus and
//! its projection into the runtime view the sampler and archiver use.

use vstd::prelude::*;
use crate::calibration::{calibration_view, CalibrationFormula, CalibrationSpec};
use crate::text::{dec_chars, lemma_dec_chars_digits, lemma_dec_val_of_dec_chars, spec_parse_dec};
use crate::trigger::TriggerSettings;

verus! {

/// The `sensor_settings` object of the nested document, with plain
/// values only; the sampling rate stays an opaque bit pattern here.
#[derive(Clone)]
pub struct RawSensorSettings {
    pub scan_rate: i32,
    pub sampling_rate_bits: u64,
    pub channels_enabled: Vec<u8>,
    pub calibrations: Vec<(String, CalibrationSpec)>,
    pub trigger_settings: Vec<(String, TriggerSettings)>,
}

/// The nested configuration document, as parsed at the boundary.
#[derive(Clone)]
pub struct RawConfig {
    pub asset_number: u32,
    pub nats_subject: String,
    pub nats_stream: String,
    pub rotate_secs: u64,
    pub sensor_settings: RawSensorSettings,
}

/// The runtime projection the services consume.
#[derive(Clone)]
pub struct SampleConfig {
    pub asset_number: u32,
    pub channels: Vec<u8>,
    pub scans_per_read: i32,
    pub suggested_scan_rate_bits: u64,
    pub nats_subject: String,
    pub nats_stream: String,
    pub trigger_stream: String,
    pub rotate_secs: u64,
    pub calibrations: Vec<(u8, CalibrationSpec)>,
    pub trigger_settings: Vec<(u8, TriggerSettings)>,
}

/// A channel key parses when it is a plain decimal that fits a `u8`.
pub open spec fn spec_parse_channel_key(cs: Seq<char>) -> Option<u8> {
    match spec_parse_dec(cs) {
        Some(v) => if v <= 255 {
            Some(v as u8)
        } else {
            None
        },
        None => None,
    }
}

/// The pairs of a keyed map, keys as character sequences.
pub open spec fn entry_views<V>(s: Seq<(String, V)>) -> Seq<(Seq<char>, V)> {
    Seq::new(s.len(), |i: int| (s[i].0@, s[i].1))
}

/// Projection of a keyed map: entries whose keys parse as channels,
/// in order; the rest are dropped.
pub open spec fn project_keyed<V>(s: Seq<(Seq<char>, V)>) -> Seq<(u8, V)>
    decreases s.len(),
{
    if s.len() == 0 {
        Seq::empty()
    } else {
        match spec_parse_channel_key(s[0].0) {
            Some(ch) => seq![(ch, s[0].1)] + project_keyed(s.skip(1)),
            None => project_keyed(s.skip(1)),
        }
    }
}

/// Embedding of a projected map back into text keys.
pub open spec fn embed_keyed<V>(s: Seq<(u8, V)>) -> Seq<(Seq<char>, V)> {
    Seq::new(s.len(), |i: int| (dec_chars(s[i].0 as nat), s[i].1))
}

/// Projection inverts embedding: projecting what a projected map
/// embeds to returns the projected map. With the channel-set law
/// below this makes the whole projection idempotent.
pub proof fn lemma_project_embed<V>(s: Seq<(u8, V)>)
    ensures
        project_keyed(embed_keyed(s)) == s,
    decreases s.len(),
{
    if s.len() > 0 {
        let e = embed_keyed(s);
        let k = s[0].0;
        lemma_dec_chars_digits(k as nat);
        lemma_dec_val_of_dec_chars(k as nat);
        crate::text::lemma_dec_val_bound(dec_chars(k as nat));
        assert(spec_parse_dec(dec_chars(k as nat)) == Some(k as u64));
        assert(spec_parse_channel_key(e[0].0) == Some(k));
        lemma_project_embed(s.skip(1));
        assert(e.skip(1) =~= embed_keyed(s.skip(1)));
        assert(seq![(k, s[0].1)] + s.skip(1) =~= s);
    }
}

/// The enabled channels in canonical form: each channel value at most
/// `bound - 1` that the raw list names, ascending, once each.
pub open spec fn sorted_channels_upto(s: Seq<u8>, bound: int) -> Seq<u8>
    decreases bound,
{
    if bound <= 0 {
        Seq::empty()
    } else {
        sorted_channels_upto(s, bound - 1) + (if s.contains((bound - 1) as u8) {
            seq![(bound - 1) as u8]
        } else {
            Seq::empty()
        })
    }
}

pub open spec fn sorted_channels(s: Seq<u8>) -> Seq<u8> {
    sorted_channels_upto(s, 256)
}

/// Canonicalized channels hold exactly the channels of the input.
pub proof fn lemma_sorted_channels_membership(s: Seq<u8>, bound: int, v: u8)
    requires
        0 <= bound <= 256,
    ensures
        sorted_channels_upto(s, bound).contains(v) <==> (s.contains(v) && (v as int) < bound),
    decreases bound,
{
    if bound > 0 {
        lemma_sorted_channels_membership(s, bound - 1, v);
        let pre = sorted_channels_upto(s, bound - 1);
        let whole = sorted_channels_upto(s, bound);
        if s.contains((bound - 1) as u8) {
            assert(whole == pre + seq![(bound - 1) as u8]);
            if v == (bound - 1) as u8 && s.contains(v) {
                assert(whole[whole.len() - 1] == v);
                assert(whole.contains(v));
            }
            assert forall|i: int| 0 <= i < whole.len() && whole[i] == v implies (s.contains(v) && (
            v as int) < bound) by {
                if i < pre.len() {
                    assert(pre.contains(v));
                }
            }
            if s.contains(v) && (v as int) < bound - 1 {
                let i = choose|i: int| 0 <= i < pre.len() && pre[i] == v;
                assert(whole[i] == v);
            }
        } else {
            assert(whole =~= pre);
            if v == (bound - 1) as u8 {
                assert(!s.contains(v));
            }
        }
    }
}

/// Canonicalizing a second time changes nothing.
pub proof fn lemma_sorted_channels_idempotent(s: Seq<u8>)
    ensures
        sorted_channels(sorted_channels(s)) == sorted_channels(s),
{
    lemma_sorted_idem_upto(s, 256);
}

proof fn lemma_sorted_idem_upto(s: Seq<u8>, bound: int)
    requires
        0 <= bound <= 256,
    ensures
        sorted_channels_upto(sorted_channels(s), bound) == sorted_channels_upto(s, bound),
    decreases bound,
{
    if bound > 0 {
        lemma_sorted_idem_upto(s, bound - 1);
        lemma_sorted_channels_membership(s, 256, (bound - 1) as u8);
        assert(sorted_channels(s).contains((bound - 1) as u8) <==> s.contains((bound - 1) as u8));
    }
}

/// The calibration entries of a projection, as mathematical values.
pub open spec fn calibration_entry_views(s: Seq<(u8, CalibrationSpec)>) -> Seq<
    (u8, crate::calibration::CalibrationView),
> {
    Seq::new(s.len(), |i: int| (s[i].0, calibration_view(s[i].1)))
}

/// Structural equality of two projections: every field the services
/// read is the same value.
pub open spec fn sample_config_eq(a: SampleConfig, b: SampleConfig) -> bool {
    &&& a.asset_number == b.asset_number
    &&& a.channels@ == b.channels@
    &&& a.scans_per_read == b.scans_per_read
    &&& a.suggested_scan_rate_bits == b.suggested_scan_rate_bits
    &&& a.nats_subject@ == b.nats_subject@
    &&& a.nats_stream@ == b.nats_stream@
    &&& a.trigger_stream@ == b.trigger_stream@
    &&& a.rotate_secs == b.rotate_secs
    &&& calibration_entry_views(a.calibrations@) == calibration_entry_views(b.calibrations@)
    &&& a.trigger_settings@ == b.trigger_settings@
}

/// Whether two text vectors read the same.
fn vec_str_eq(a: &Vec<String>, b: &Vec<String>) -> (r: bool)
    ensures
        r == (Seq::new(a@.len(), |i: int| a@[i]@) == Seq::new(b@.len(), |i: int| b@[i]@)),
{
    let ghost av = Seq::new(a@.len(), |i: int| a@[i]@);
    let ghost bv = Seq::new(b@.len(), |i: int| b@[i]@);
    if a.len() != b.len() {
        proof {
            assert(av.len() != bv.len());
        }
        return false;
    }
    let n = a.len();
    let mut i: usize = 0;
    while i < n
        invariant
            i <= n == a@.len() == b@.len(),
            av == Seq::new(a@.len(), |j: int| a@[j]@),
            bv == Seq::new(b@.len(), |j: int| b@[j]@),
            forall|j: int| 0 <= j < i ==> av[j] == bv[j],
        decreases n - i,
    {
        if !a[i].eq(&b[i]) {
            proof {
                assert(av[i as int] != bv[i as int]);
            }
            return false;
        }
        i += 1;
    }
    proof {
        assert(av =~= bv);
    }
    true
}

/// Whether two calibrations are the same value.
fn calibration_eq(a: &CalibrationSpec, b: &CalibrationSpec) -> (r: bool)
    ensures
        r == (calibration_view(*a) == calibration_view(*b)),
{
    let ids_equal = match (&a.id, &b.id) {
        (None, None) => true,
        (Some(x), Some(y)) => x.eq(y),
        _ => false,
    };
    if !ids_equal {
        proof {
            assert(calibration_view(*a).id != calibration_view(*b).id);
        }
        return false;
    }
    match (&a.formula, &b.formula) {
        (CalibrationFormula::Identity, CalibrationFormula::Identity) => true,
        (
            CalibrationFormula::Linear { a: xa, b: xb },
            CalibrationFormula::Linear { a: ya, b: yb },
        ) => {
            let same = xa.eq(ya) && xb.eq(yb);
            proof {
                if !same {
                    assert(calibration_view(*a).formula != calibration_view(*b).formula);
                }
            }
            same
        },
        (
            CalibrationFormula::Polynomial { coeffs: xc },
            CalibrationFormula::Polynomial { coeffs: yc },
        ) => {
            let same = vec_str_eq(xc, yc);
            proof {
                if !same {
                    assert(calibration_view(*a).formula != calibration_view(*b).formula);
                }
            }
            same
        },
        _ => {
            proof {
                assert(calibration_view(*a).formula != calibration_view(*b).formula);
            }
            false
        },
    }
}

/// Whether two projections are structurally equal: the test the
/// configuration watcher uses to decide that an update is a real
/// change.
pub fn same_sample_config(a: &SampleConfig, b: &SampleConfig) -> (r: bool)
    ensures
        r == sample_config_eq(*a, *b),
{
    if !(a.asset_number == b.asset_number && a.scans_per_read == b.scans_per_read
        && a.suggested_scan_rate_bits == b.suggested_scan_rate_bits && a.rotate_secs
        == b.rotate_secs) {
        return false;
    }
    if !(a.nats_subject.eq(&b.nats_subject) && a.nats_stream.eq(&b.nats_stream)
        && a.trigger_stream.eq(&b.trigger_stream)) {
        return false;
    }
    if !vec_u8_eq(&a.channels, &b.channels) {
        return false;
    }
    let ghost acal = calibration_entry_views(a.calibrations@);
    let ghost bcal = calibration_entry_views(b.calibrations@);
    if a.calibrations.len() != b.calibrations.len() {
        proof {
            assert(acal.len() != bcal.len());
        }
        return false;
    }
    let n = a.calibrations.len();
    let mut i: usize = 0;
    while i < n
        invariant
            i <= n == a.calibrations@.len() == b.calibrations@.len(),
            acal == calibration_entry_views(a.calibrations@),
            bcal == calibration_entry_views(b.calibrations@),
            forall|j: int| 0 <= j < i ==> acal[j] == bcal[j],
        decreases n - i,
    {
        let (ach, acal_i) = &a.calibrations[i];
        let (bch, bcal_i) = &b.calibrations[i];
        if !(*ach == *bch && calibration_eq(acal_i, bcal_i)) {
            proof {
                assert(acal[i as int] != bcal[i as int]);
            }
            return false;
        }
        i += 1;
    }
    proof {
        assert(acal =~= bcal);
    }
    if a.trigger_settings.len() != b.trigger_settings.len() {
        proof {
            assert(a.trigger_settings@.len() != b.trigger_settings@.len());
        }
        return false;
    }
    let m = a.trigger_settings.len();
    let mut k: usize = 0;
    while k < m
        invariant
            k <= m == a.trigger_settings@.len() == b.trigger_settings@.len(),
            forall|j: int| 0 <= j < k ==> a.trigger_settings@[j] == b.trigger_settings@[j],
        decreases m - k,
    {
        let (ach, at) = &a.trigger_settings[k];
        let (bch, bt) = &b.trigger_settings[k];
        if !(*ach == *bch && *at == *bt) {
            proof {
                assert(a.trigger_settings@[k as int] != b.trigger_settings@[k as int]);
            }
            return false;
        }
        k += 1;
    }
    proof {
        assert(a.trigger_settings@ =~= b.trigger_settings@);
    }
    true
}

/// Whether two byte vectors are equal.
fn vec_u8_eq(a: &Vec<u8>, b: &Vec<u8>) -> (r: bool)
    ensures
        r == (a@ == b@),
{
    if a.len() != b.len() {
        return false;
    }
    let n = a.len();
    let mut i: usize = 0;
    while i < n
        invariant
            i <= n == a@.len() == b@.len(),
            forall|j: int| 0 <= j < i ==> a@[j] == b@[j],
        decreases n - i,
    {
        if a[i] != b[i] {
            return false;
        }
        i += 1;
    }
    proof {
        assert(a@ =~= b@);
    }
    true
}

/// Projection is idempotent. A projected configuration, embedded back
/// into a nested document and projected again, is unchanged: the
/// channel canonicalization is a fixed point of itself, the keyed
/// maps return through their embedded text keys, and every other
/// field of the projection is copied verbatim by `project_config` and
/// `embed_config`.
pub proof fn lemma_projection_idempotent(
    channels: Seq<u8>,
    calibrations: Seq<(u8, CalibrationSpec)>,
    triggers: Seq<(u8, TriggerSettings)>,
)
    ensures
        sorted_channels(sorted_channels(channels)) == sorted_channels(channels),
        project_keyed(embed_keyed(calibrations)) == calibrations,
        project_keyed(embed_keyed(triggers)) == triggers,
{
    lemma_sorted_channels_idempotent(channels);
    lemma_project_embed(calibrations);
    lemma_project_embed(triggers);
}

/// Whether the byte list names `v`.
fn contains_u8(s: &Vec<u8>, v: u8) -> (r: bool)
    ensures
        r == s@.contains(v),
{
    let n = s.len();
    let mut i: usize = 0;
    while i < n
        invariant
            i <= n == s@.len(),
            forall|j: int| 0 <= j < i ==> s@[j] != v,
        decreases n - i,
    {
        if s[i] == v {
            proof {
                assert(s@[i as int] == v);
            }
            return true;
        }
        i += 1;
    }
    proof {
        if s@.contains(v) {
            let j = choose|j: int| 0 <= j < s@.len() && s@[j] == v;
            assert(false);
        }
    }
    false
}

/// Sorts and deduplicates the enabled channels.
pub fn canonical_channels(s: &Vec<u8>) -> (r: Vec<u8>)
    ensures
        r@ == sorted_channels(s@),
{
    let mut out: Vec<u8> = Vec::new();
    let mut b: u32 = 0;
    while b < 256
        invariant
            b <= 256,
            out@ == sorted_channels_upto(s@, b as int),
        decreases 256 - b,
    {
        if contains_u8(s, b as u8) {
            out.push(b as u8);
            proof {
                assert(out@ =~= sorted_channels_upto(s@, b as int) + seq![b as u8]);
            }
        }
        b += 1;
        proof {
            assert(out@ =~= sorted_channels_upto(s@, b as int));
        }
    }
    out
}

/// Projects a keyed map, dropping entries with unparseable keys.
fn project_entries<V>(entries: Vec<(String, V)>) -> (r: Vec<(u8, V)>)
    ensures
        r@ == project_keyed(entry_views(entries@)),
{
    let ghost orig = entry_views(entries@);
    let mut rest = entries;
    let mut out: Vec<(u8, V)> = Vec::new();
    while rest.len() > 0
        invariant
            project_keyed(orig) == out@ + project_keyed(entry_views(rest@)),
        decreases rest.len(),
    {
        let ghost prev = rest@;
        let ghost old_out = out@;
        let (k, v) = rest.remove(0);
        let ghost before = entry_views(prev);
        proof {
            assert(before[0] == (k@, v));
            assert(before.skip(1) =~= entry_views(rest@));
            assert(project_keyed(before) == match spec_parse_channel_key(k@) {
                Some(ch) => seq![(ch, v)] + project_keyed(before.skip(1)),
                None => project_keyed(before.skip(1)),
            });
        }
        let n = k.unicode_len();
        let parsed = crate::text::parse_dec_range(k.as_str(), 0, n);
        proof {
            assert(k@.subrange(0, n as int) =~= k@);
        }
        match parsed {
            Some(ch) => {
                if ch <= 255 {
                    out.push((ch as u8, v));
                    proof {
                        assert(spec_parse_channel_key(k@) == Some(ch as u8));
                        assert(out@ + project_keyed(entry_views(rest@)) =~= old_out + (seq![
                            ((ch as u8), v),
                        ] + project_keyed(entry_views(rest@))));
                    }
                } else {
                    proof {
                        assert(spec_parse_channel_key(k@) is None);
                    }
                }
            },
            None => {
                proof {
                    assert(spec_parse_channel_key(k@) is None);
                }
            },
        }
    }
    proof {
        assert(entry_views(rest@).len() == 0);
        assert(entry_views(rest@) =~= Seq::<(Seq<char>, V)>::empty());
        assert(project_keyed(entry_views(rest@)) =~= Seq::<(u8, V)>::empty());
        assert(out@ =~= out@ + project_keyed(entry_views(rest@)));
    }
    out
}

/// Embeds a projected map back into text keys.
fn embed_entries<V>(entries: Vec<(u8, V)>) -> (r: Vec<(String, V)>)
    ensures
        entry_views(r@) == embed_keyed(entries@),
{
    let ghost orig = entries@;
    let mut rest = entries;
    let mut out: Vec<(String, V)> = Vec::new();
    while rest.len() > 0
        invariant
            orig == orig.take(orig.len() - rest@.len()) + rest@,
            entry_views(out@) == embed_keyed(orig.take(orig.len() - rest@.len())),
        decreases rest.len(),
    {
        let ghost done = orig.len() - rest@.len();
        let (ch, v) = rest.remove(0);
        proof {
            assert(orig[done] == (ch, v));
        }
        let mut key_bytes: Vec<u8> = Vec::new();
        crate::text::push_dec(&mut key_bytes, ch as u64);
        proof {
            crate::text::lemma_dec_bytes_chars(ch as nat);
        }
        proof {
            assert(key_bytes@ =~= crate::text::dec_bytes(ch as nat));
        }
        let key = crate::text::ascii_to_string(key_bytes);
        proof {
            assert(key@ == dec_chars(ch as nat));
        }
        let ghost oout = out@;
        out.push((key, v));
        proof {
            assert(orig.take(done + 1) =~= orig.take(done).push((ch, v)));
            assert(entry_views(oout) == embed_keyed(orig.take(done)));
            assert(entry_views(oout).len() == oout.len());
            assert(embed_keyed(orig.take(done)).len() == done);
            assert(out@.len() == done + 1);
            assert forall|i: int| 0 <= i < out@.len() implies entry_views(out@)[i] == embed_keyed(
                orig.take(done + 1),
            )[i] by {
                if i < done {
                    assert(out@[i] == oout[i]);
                    assert(entry_views(oout)[i] == (oout[i].0@, oout[i].1));
                    assert(embed_keyed(orig.take(done))[i] == embed_keyed(orig.take(done + 1))[i]);
                } else {
                    assert(out@[i] == (key, v));
                    assert(orig.take(done + 1)[i] == (ch, v));
                }
            }
            assert(entry_views(out@) =~= embed_keyed(orig.take(done + 1)));
            assert(orig =~= orig.take(done + 1) + rest@);
        }
    }
    proof {
        assert(orig.take(orig.len() as int) =~= orig);
    }
    out
}

/// Projects the nested document into the runtime view.
///
/// Channels are sorted and deduplicated; calibration and trigger
/// entries keep their order, entries with unparseable channel keys
/// are dropped; the trigger stream name comes from the environment's
/// default; everything else is copied through.
pub fn project_config(raw: RawConfig, default_trigger_stream: &str) -> (cfg: SampleConfig)
    ensures
        cfg.asset_number == raw.asset_number,
        cfg.scans_per_read == raw.sensor_settings.scan_rate,
        cfg.suggested_scan_rate_bits == raw.sensor_settings.sampling_rate_bits,
        cfg.nats_subject == raw.nats_subject,
        cfg.nats_stream == raw.nats_stream,
        cfg.rotate_secs == raw.rotate_secs,
        cfg.trigger_stream@ == default_trigger_stream@,
        cfg.channels@ == sorted_channels(raw.sensor_settings.channels_enabled@),
        cfg.calibrations@ == project_keyed(entry_views(raw.sensor_settings.calibrations@)),
        cfg.trigger_settings@ == project_keyed(entry_views(raw.sensor_settings.trigger_settings@)),
{
    let RawConfig { asset_number, nats_subject, nats_stream, rotate_secs, sensor_settings } = raw;
    let RawSensorSettings {
        scan_rate,
        sampling_rate_bits,
        channels_enabled,
        calibrations,
        trigger_settings,
    } = sensor_settings;
    let channels = canonical_channels(&channels_enabled);
    SampleConfig {
        asset_number,
        channels,
        scans_per_read: scan_rate,
        suggested_scan_rate_bits: sampling_rate_bits,
        nats_subject,
        nats_stream,
        trigger_stream: String::from_str(default_trigger_stream),
        rotate_secs,
        calibrations: project_entries(calibrations),
        trigger_settings: project_entries(trigger_settings),
    }
}

/// Embeds a runtime view back into a nested document: the inverse
/// image the projection law speaks about.
pub fn embed_config(cfg: SampleConfig) -> (raw: RawConfig)
    ensures
        raw.asset_number == cfg.asset_number,
        raw.sensor_settings.scan_rate == cfg.scans_per_read,
        raw.sensor_settings.sampling_rate_bits == cfg.suggested_scan_rate_bits,
        raw.nats_subject == cfg.nats_subject,
        raw.nats_stream == cfg.nats_stream,
        raw.rotate_secs == cfg.rotate_secs,
        raw.sensor_settings.channels_enabled == cfg.channels,
        entry_views(raw.sensor_settings.calibrations@) == embed_keyed(cfg.calibrations@),
        entry_views(raw.sensor_settings.trigger_settings@) == embed_keyed(cfg.trigger_settings@),
{
    let SampleConfig {
        asset_number,
        channels,
        scans_per_read,
        suggested_scan_rate_bits,
        nats_subject,
        nats_stream,
        trigger_stream: _,
        rotate_secs,
        calibrations,
        trigger_settings,
    } = cfg;
    RawConfig {
        asset_number,
        nats_subject,
        nats_stream,
        rotate_secs,
        sensor_settings: RawSensorSettings {
            scan_rate: scans_per_read,
            sampling_rate_bits: suggested_scan_rate_bits,
            channels_enabled: channels,
            calibrations: embed_entries(calibrations),
            trigger_settings: embed_entries(trigger_settings),
        },
    }
}

} // verus!
