//! Timestamp grammars: the `%Y_%m_%d_%H%M%S` form used in video object
//! keys, the compact `%Y%m%dT%H%M%S` form used in clip keys, the
//! `%Y-%m-%d` archive partition form, and RFC 3339 with millisecond
//! precision for trigger events and records.

use vstd::prelude::*;
use crate::civil::{
    civil_to_secs, epoch_secs, max_epoch_ms_x, max_epoch_secs, secs_to_civil, valid_civil,
    valid_epoch_ms, CivilDateTime, days_in_month, days_in_month_x,
};
use crate::text::{
    all_digits, ascii_bytes, ascii_chars, ascii_to_string, chars_of, dec_chars_pad, dec_val,
    is_digit_char, lemma_dec_chars_pad_exact, parse_dec_range, pow10, push_dec_pad,
    spec_parse_dec,
};
use crate::names::push_chars;

verus! {

/// `%Y_%m_%d_%H%M%S`, seventeen characters.
pub open spec fn video_ts_chars(c: CivilDateTime) -> Seq<char> {
    dec_chars_pad(c.year as nat, 4) + seq!['_'] + dec_chars_pad(c.month as nat, 2) + seq!['_']
        + dec_chars_pad(c.day as nat, 2) + seq!['_'] + dec_chars_pad(c.hour as nat, 2)
        + dec_chars_pad(c.minute as nat, 2) + dec_chars_pad(c.second as nat, 2)
}

/// `%Y%m%dT%H%M%S`, fifteen characters.
pub open spec fn compact_ts_chars(c: CivilDateTime) -> Seq<char> {
    dec_chars_pad(c.year as nat, 4) + dec_chars_pad(c.month as nat, 2) + dec_chars_pad(
        c.day as nat,
        2,
    ) + seq!['T'] + dec_chars_pad(c.hour as nat, 2) + dec_chars_pad(c.minute as nat, 2)
        + dec_chars_pad(c.second as nat, 2)
}

/// `%Y-%m-%d`, ten characters.
pub open spec fn date_chars(c: CivilDateTime) -> Seq<char> {
    dec_chars_pad(c.year as nat, 4) + seq!['-'] + dec_chars_pad(c.month as nat, 2) + seq!['-']
        + dec_chars_pad(c.day as nat, 2)
}

/// The zone-less front of an RFC 3339 timestamp with three
/// fractional digits, 23 characters.
pub open spec fn rfc3339_body_chars(c: CivilDateTime, frac_ms: nat) -> Seq<char> {
    date_chars(c) + seq!['T'] + dec_chars_pad(c.hour as nat, 2) + seq![':'] + dec_chars_pad(
        c.minute as nat,
        2,
    ) + seq![':'] + dec_chars_pad(c.second as nat, 2) + seq!['.'] + dec_chars_pad(frac_ms, 3)
}

/// RFC 3339 with three fractional digits and a `Z` zone, 24 characters.
pub open spec fn rfc3339_chars(c: CivilDateTime, frac_ms: nat) -> Seq<char> {
    rfc3339_body_chars(c, frac_ms) + seq!['Z']
}

/// RFC 3339 with three fractional digits and a signed `hh:mm` zone
/// suffix, 29 characters.
pub open spec fn rfc3339_offset_chars(
    c: CivilDateTime,
    frac_ms: nat,
    neg: bool,
    oh: nat,
    om: nat,
) -> Seq<char> {
    rfc3339_body_chars(c, frac_ms) + (if neg {
        seq!['-']
    } else {
        seq!['+']
    }) + dec_chars_pad(oh, 2) + seq![':'] + dec_chars_pad(om, 2)
}

/// The field bounds of a valid civil time fit their printed widths.
pub proof fn lemma_civil_field_widths(c: CivilDateTime)
    requires
        valid_civil(c),
    ensures
        dec_chars_pad(c.year as nat, 4).len() == 4,
        dec_chars_pad(c.month as nat, 2).len() == 2,
        dec_chars_pad(c.day as nat, 2).len() == 2,
        dec_chars_pad(c.hour as nat, 2).len() == 2,
        dec_chars_pad(c.minute as nat, 2).len() == 2,
        dec_chars_pad(c.second as nat, 2).len() == 2,
        video_ts_chars(c).len() == 17,
        compact_ts_chars(c).len() == 15,
        date_chars(c).len() == 10,
{
    reveal_with_fuel(pow10, 5);
    lemma_dec_chars_pad_exact(c.year as nat, 4);
    lemma_dec_chars_pad_exact(c.month as nat, 2);
    lemma_dec_chars_pad_exact(c.day as nat, 2);
    lemma_dec_chars_pad_exact(c.hour as nat, 2);
    lemma_dec_chars_pad_exact(c.minute as nat, 2);
    lemma_dec_chars_pad_exact(c.second as nat, 2);
}

/// What parsing a `%Y_%m_%d_%H%M%S` timestamp yields: defined exactly
/// when the text has the right shape and names a valid civil time.
pub open spec fn spec_parse_video_ts(cs: Seq<char>) -> Option<CivilDateTime> {
    if cs.len() == 17 && cs[4] == '_' && cs[7] == '_' && cs[10] == '_' {
        let fy = spec_parse_dec(cs.subrange(0, 4));
        let fmo = spec_parse_dec(cs.subrange(5, 7));
        let fd = spec_parse_dec(cs.subrange(8, 10));
        let fh = spec_parse_dec(cs.subrange(11, 13));
        let fmi = spec_parse_dec(cs.subrange(13, 15));
        let fs = spec_parse_dec(cs.subrange(15, 17));
        if fy is Some && fmo is Some && fd is Some && fh is Some && fmi is Some && fs is Some {
            let c = CivilDateTime {
                year: fy.unwrap() as u32,
                month: fmo.unwrap() as u8,
                day: fd.unwrap() as u8,
                hour: fh.unwrap() as u8,
                minute: fmi.unwrap() as u8,
                second: fs.unwrap() as u8,
            };
            if fy.unwrap() <= 9999 && fmo.unwrap() <= 99 && fd.unwrap() <= 99 && fh.unwrap() <= 99
                && fmi.unwrap() <= 99 && fs.unwrap() <= 99 && valid_civil(c) {
                Some(c)
            } else {
                None
            }
        } else {
            None
        }
    } else {
        None
    }
}

/// Parsing inverts printing for the video timestamp form.
pub proof fn lemma_video_ts_round_trip(c: CivilDateTime)
    requires
        valid_civil(c),
    ensures
        spec_parse_video_ts(video_ts_chars(c)) == Some(c),
{
    reveal_with_fuel(pow10, 5);
    lemma_civil_field_widths(c);
    lemma_dec_chars_pad_exact(c.year as nat, 4);
    lemma_dec_chars_pad_exact(c.month as nat, 2);
    lemma_dec_chars_pad_exact(c.day as nat, 2);
    lemma_dec_chars_pad_exact(c.hour as nat, 2);
    lemma_dec_chars_pad_exact(c.minute as nat, 2);
    lemma_dec_chars_pad_exact(c.second as nat, 2);
    let cs = video_ts_chars(c);
    assert(cs.subrange(0, 4) =~= dec_chars_pad(c.year as nat, 4));
    assert(cs[4] == '_');
    assert(cs.subrange(5, 7) =~= dec_chars_pad(c.month as nat, 2));
    assert(cs[7] == '_');
    assert(cs.subrange(8, 10) =~= dec_chars_pad(c.day as nat, 2));
    assert(cs[10] == '_');
    assert(cs.subrange(11, 13) =~= dec_chars_pad(c.hour as nat, 2));
    assert(cs.subrange(13, 15) =~= dec_chars_pad(c.minute as nat, 2));
    assert(cs.subrange(15, 17) =~= dec_chars_pad(c.second as nat, 2));
}

/// Appends `%Y_%m_%d_%H%M%S`.
pub fn push_video_ts(out: &mut Vec<u8>, c: &CivilDateTime)
    ensures
        chars_of(final(out)@) == chars_of(old(out)@) + video_ts_chars(*c),
        ascii_bytes(old(out)@) ==> ascii_bytes(final(out)@),
{
    proof {
        reveal_strlit("_");
    }
    push_dec_pad(out, c.year as u64, 4);
    push_chars(out, "_");
    push_dec_pad(out, c.month as u64, 2);
    push_chars(out, "_");
    push_dec_pad(out, c.day as u64, 2);
    push_chars(out, "_");
    push_dec_pad(out, c.hour as u64, 2);
    push_dec_pad(out, c.minute as u64, 2);
    push_dec_pad(out, c.second as u64, 2);
    proof {
        assert("_"@ =~= seq!['_']);
        assert(chars_of(out@) =~= chars_of(old(out)@) + video_ts_chars(*c));
    }
}

/// Appends `%Y%m%dT%H%M%S`.
pub fn push_compact_ts(out: &mut Vec<u8>, c: &CivilDateTime)
    ensures
        chars_of(final(out)@) == chars_of(old(out)@) + compact_ts_chars(*c),
        ascii_bytes(old(out)@) ==> ascii_bytes(final(out)@),
{
    proof {
        reveal_strlit("T");
    }
    push_dec_pad(out, c.year as u64, 4);
    push_dec_pad(out, c.month as u64, 2);
    push_dec_pad(out, c.day as u64, 2);
    push_chars(out, "T");
    push_dec_pad(out, c.hour as u64, 2);
    push_dec_pad(out, c.minute as u64, 2);
    push_dec_pad(out, c.second as u64, 2);
    proof {
        assert("T"@ =~= seq!['T']);
        assert(chars_of(out@) =~= chars_of(old(out)@) + compact_ts_chars(*c));
    }
}

/// Appends `%Y-%m-%d`.
pub fn push_date(out: &mut Vec<u8>, c: &CivilDateTime)
    ensures
        chars_of(final(out)@) == chars_of(old(out)@) + date_chars(*c),
        ascii_bytes(old(out)@) ==> ascii_bytes(final(out)@),
{
    proof {
        reveal_strlit("-");
    }
    push_dec_pad(out, c.year as u64, 4);
    push_chars(out, "-");
    push_dec_pad(out, c.month as u64, 2);
    push_chars(out, "-");
    push_dec_pad(out, c.day as u64, 2);
    proof {
        assert("-"@ =~= seq!['-']);
        assert(chars_of(out@) =~= chars_of(old(out)@) + date_chars(*c));
    }
}

/// `%Y-%m-%d` as a `String`: the archive partition directory name.
pub fn format_date(c: &CivilDateTime) -> (s: String)
    ensures
        s@ == date_chars(*c),
{
    let mut out: Vec<u8> = Vec::new();
    push_date(&mut out, c);
    ascii_to_string(out)
}

/// Parses `%Y_%m_%d_%H%M%S` exactly.
pub fn parse_video_ts(s: &str) -> (r: Option<CivilDateTime>)
    ensures
        r == spec_parse_video_ts(s@),
{
    let n = s.unicode_len();
    if n != 17 {
        return None;
    }
    if !(s.get_char(4) == '_' && s.get_char(7) == '_' && s.get_char(10) == '_') {
        return None;
    }
    let fy = parse_dec_range(s, 0, 4);
    let fmo = parse_dec_range(s, 5, 7);
    let fd = parse_dec_range(s, 8, 10);
    let fh = parse_dec_range(s, 11, 13);
    let fmi = parse_dec_range(s, 13, 15);
    let fs = parse_dec_range(s, 15, 17);
    match (fy, fmo, fd, fh, fmi, fs) {
        (Some(y), Some(mo), Some(d), Some(h), Some(mi), Some(sec)) => {
            if !(y <= 9999 && mo <= 99 && d <= 99 && h <= 99 && mi <= 99 && sec <= 99) {
                return None;
            }
            let c = CivilDateTime {
                year: y as u32,
                month: mo as u8,
                day: d as u8,
                hour: h as u8,
                minute: mi as u8,
                second: sec as u8,
            };
            if 1970 <= y && 1 <= mo && mo <= 12 && 1 <= d && d as u8 <= days_in_month_x(
                y as u32,
                mo as u8,
            ) && h <= 23 && mi <= 59 && sec <= 59 {
                Some(c)
            } else {
                None
            }
        },
        _ => None,
    }
}

/// The first index at or after `i` whose character is not a digit;
/// the length when every remaining character is a digit.
pub open spec fn scan_digits_end(cs: Seq<char>, i: int) -> int
    decreases cs.len() - i,
{
    if i < 0 || i >= cs.len() {
        cs.len() as int
    } else if !is_digit_char(cs[i]) {
        i
    } else {
        scan_digits_end(cs, i + 1)
    }
}

/// Finds the end of the digit run that starts at `i`.
pub fn find_digits_end(s: &str, i: usize) -> (r: usize)
    requires
        i <= s@.len(),
    ensures
        r == scan_digits_end(s@, i as int),
        i <= r <= s@.len(),
    decreases s@.len() - i,
{
    let n = s.unicode_len();
    if i >= n {
        n
    } else {
        let c = s.get_char(i);
        let cu = c as u32;
        if cu < 48 || cu > 57 {
            i
        } else {
            find_digits_end(s, i + 1)
        }
    }
}

/// The millisecond value of a fractional-second digit run: the first
/// three digits, zero-extended when fewer are given.
pub open spec fn frac_ms_of(f: Seq<char>) -> nat {
    if f.len() >= 3 {
        dec_val(f.take(3))
    } else {
        dec_val(f) * pow10((3 - f.len()) as nat)
    }
}

/// What parsing an RFC 3339 timestamp yields, in epoch milliseconds
/// UTC: defined exactly when the text is well-formed, names a valid
/// civil time of years 1970 through 9999, carries at most nine
/// fractional digits, and lands inside the supported range.
pub open spec fn spec_parse_rfc3339(cs: Seq<char>) -> Option<i64> {
    if cs.len() >= 20 && cs[4] == '-' && cs[7] == '-' && cs[10] == 'T' && cs[13] == ':' && cs[16]
        == ':' {
        let fy = spec_parse_dec(cs.subrange(0, 4));
        let fmo = spec_parse_dec(cs.subrange(5, 7));
        let fd = spec_parse_dec(cs.subrange(8, 10));
        let fh = spec_parse_dec(cs.subrange(11, 13));
        let fmi = spec_parse_dec(cs.subrange(14, 16));
        let fs = spec_parse_dec(cs.subrange(17, 19));
        if fy is Some && fmo is Some && fd is Some && fh is Some && fmi is Some && fs is Some
            && fy.unwrap() <= 9999 && fmo.unwrap() <= 99 && fd.unwrap() <= 99 && fh.unwrap() <= 99
            && fmi.unwrap() <= 99 && fs.unwrap() <= 99 {
            let c = CivilDateTime {
                year: fy.unwrap() as u32,
                month: fmo.unwrap() as u8,
                day: fd.unwrap() as u8,
                hour: fh.unwrap() as u8,
                minute: fmi.unwrap() as u8,
                second: fs.unwrap() as u8,
            };
            if valid_civil(c) {
                let has_frac = cs[19] == '.';
                let frac_end = scan_digits_end(cs, 20);
                let tz_at = if has_frac {
                    frac_end
                } else {
                    19
                };
                let frac: nat = if has_frac {
                    frac_ms_of(cs.subrange(20, frac_end))
                } else {
                    0
                };
                if has_frac && !(21 <= frac_end <= 29) {
                    None
                } else {
                    let off = spec_parse_tz(cs, tz_at);
                    if off is Some {
                        let ms = (epoch_secs(c) - off.unwrap()) * 1000 + frac;
                        if valid_epoch_ms(ms) {
                            Some(ms as i64)
                        } else {
                            None
                        }
                    } else {
                        None
                    }
                }
            } else {
                None
            }
        } else {
            None
        }
    } else {
        None
    }
}

/// Every character the digit scan passed over is a digit, and the scan
/// stops at the first non-digit.
pub proof fn lemma_scan_digits_prop(cs: Seq<char>, i: int)
    requires
        0 <= i <= cs.len(),
    ensures
        i <= scan_digits_end(cs, i) <= cs.len(),
        forall|j: int| i <= j < scan_digits_end(cs, i) ==> is_digit_char(#[trigger] cs[j]),
        scan_digits_end(cs, i) < cs.len() ==> !is_digit_char(cs[scan_digits_end(cs, i)]),
    decreases cs.len() - i,
{
    if i < cs.len() && is_digit_char(cs[i]) {
        lemma_scan_digits_prop(cs, i + 1);
    }
}

/// A digit run of known content ends exactly at its first non-digit.
pub proof fn lemma_scan_digits_stops(cs: Seq<char>, i: int, e: int)
    requires
        0 <= i <= e <= cs.len(),
        forall|j: int| i <= j < e ==> is_digit_char(#[trigger] cs[j]),
        e < cs.len() ==> !is_digit_char(cs[e]),
    ensures
        scan_digits_end(cs, i) == e,
    decreases e - i,
{
    if i < e {
        lemma_scan_digits_stops(cs, i + 1, e);
    }
}

/// The zone offset, in seconds, of the suffix of `cs` that starts at
/// `i`: `Z`, or a signed `hh:mm` offset.
pub open spec fn spec_parse_tz(cs: Seq<char>, i: int) -> Option<int> {
    if i == cs.len() - 1 && cs[i] == 'Z' {
        Some(0)
    } else if i == cs.len() - 6 && (cs[i] == '+' || cs[i] == '-') && cs[i + 3] == ':' {
        let fh = spec_parse_dec(cs.subrange(i + 1, i + 3));
        let fm = spec_parse_dec(cs.subrange(i + 4, i + 6));
        if fh is Some && fm is Some && fh.unwrap() <= 23 && fm.unwrap() <= 59 {
            let secs = (fh.unwrap() * 3600 + fm.unwrap() * 60) as int;
            Some(
                if cs[i] == '-' {
                    -secs
                } else {
                    secs
                },
            )
        } else {
            None
        }
    } else {
        None
    }
}

/// Parses an RFC 3339 timestamp into epoch milliseconds UTC.
#[verifier::rlimit(100)]
pub fn parse_rfc3339(s: &str) -> (r: Option<i64>)
    ensures
        r == spec_parse_rfc3339(s@),
{
    let n = s.unicode_len();
    if n < 20 {
        return None;
    }
    if !(s.get_char(4) == '-' && s.get_char(7) == '-' && s.get_char(10) == 'T' && s.get_char(13)
        == ':' && s.get_char(16) == ':') {
        return None;
    }
    let fy = parse_dec_range(s, 0, 4);
    let fmo = parse_dec_range(s, 5, 7);
    let fd = parse_dec_range(s, 8, 10);
    let fh = parse_dec_range(s, 11, 13);
    let fmi = parse_dec_range(s, 14, 16);
    let fs = parse_dec_range(s, 17, 19);
    let (y, mo, d, h, mi, sec) = match (fy, fmo, fd, fh, fmi, fs) {
        (Some(y), Some(mo), Some(d), Some(h), Some(mi), Some(sec)) => (y, mo, d, h, mi, sec),
        _ => {
            return None;
        },
    };
    if !(y <= 9999 && mo <= 99 && d <= 99 && h <= 99 && mi <= 99 && sec <= 99) {
        return None;
    }
    let c = CivilDateTime {
        year: y as u32,
        month: mo as u8,
        day: d as u8,
        hour: h as u8,
        minute: mi as u8,
        second: sec as u8,
    };
    if !(1970 <= y && 1 <= mo && mo <= 12 && 1 <= d && d as u8 <= days_in_month_x(
        y as u32,
        mo as u8,
    ) && h <= 23 && mi <= 59 && sec <= 59) {
        return None;
    }
    let has_frac = s.get_char(19) == '.';
    let ghost cs = s@;
    let (frac, tz_at): (u64, usize) = if has_frac {
        let e = find_digits_end(s, 20);
        if !(21 <= e && e <= 29) {
            return None;
        }
        proof {
            lemma_scan_digits_prop(cs, 20);
            crate::text::lemma_dec_val_bound(cs.subrange(20, e as int));
            reveal_with_fuel(pow10, 10);
        }
        let f: u64 = if e >= 23 {
            proof {
                assert(cs.subrange(20, 23) =~= cs.subrange(20, e as int).take(3));
                crate::text::lemma_dec_val_bound(cs.subrange(20, 23));
            }
            match parse_dec_range(s, 20, 23) {
                Some(v) => v,
                None => {
                    proof {
                        assert(false);
                    }
                    0
                },
            }
        } else {
            let base = match parse_dec_range(s, 20, e) {
                Some(v) => v,
                None => {
                    proof {
                        assert(false);
                    }
                    0
                },
            };
            proof {
                assert(cs.subrange(20, e as int).len() <= 2);
                assert(pow10(1) == 10 && pow10(2) == 100);
                assert(base < 100);
            }
            if e == 21 {
                base * 100
            } else {
                base * 10
            }
        };
        proof {
            assert(f as nat == frac_ms_of(cs.subrange(20, e as int)));
        }
        (f, e)
    } else {
        (0, 19)
    };
    let off: i64 = if tz_at < n && tz_at + 1 == n && s.get_char(tz_at) == 'Z' {
        0
    } else if tz_at + 6 == n && (s.get_char(tz_at) == '+' || s.get_char(tz_at) == '-')
        && s.get_char(tz_at + 3) == ':' {
        let oh = parse_dec_range(s, tz_at + 1, tz_at + 3);
        let om = parse_dec_range(s, tz_at + 4, tz_at + 6);
        match (oh, om) {
            (Some(oh), Some(om)) => {
                if oh <= 23 && om <= 59 {
                    let secs = (oh * 3600 + om * 60) as i64;
                    if s.get_char(tz_at) == '-' {
                        -secs
                    } else {
                        secs
                    }
                } else {
                    return None;
                }
            },
            _ => {
                return None;
            },
        }
    } else {
        return None;
    };
    proof {
        assert(spec_parse_tz(cs, tz_at as int) == Some(off as int));
    }
    let esecs = civil_to_secs(&c);
    proof {
        crate::civil::lemma_days_before_year_bounds(10000);
    }
    let ms: i64 = (esecs - off) * 1000 + frac as i64;
    let max = max_epoch_ms_x();
    if 0 <= ms && ms < max {
        Some(ms)
    } else {
        None
    }
}

/// Prints epoch milliseconds as RFC 3339 UTC with millisecond
/// precision and a `Z` zone. The result parses back to the argument.
#[verifier::rlimit(60)]
pub fn format_rfc3339_ms(ms: i64) -> (r: String)
    requires
        valid_epoch_ms(ms as int),
    ensures
        spec_parse_rfc3339(r@) == Some(ms),
        r@.len() == 24,
        ascii_chars(r@),
{
    let secs: i64 = ms / 1000;
    let frac: i64 = ms % 1000;
    proof {
        assert(0 <= frac < 1000);
        assert(secs * 1000 + frac == ms);
        assert(secs < max_epoch_secs()) by (nonlinear_arith)
            requires
                ms < max_epoch_secs() * 1000,
                secs == ms / 1000,
                0 <= ms,
        ;
    }
    let c = secs_to_civil(secs);
    let mut out: Vec<u8> = Vec::new();
    push_rfc3339(&mut out, &c, frac as u64);
    proof {
        lemma_rfc3339_round_trip(c, frac as nat);
        assert(epoch_secs(c) * 1000 + frac == ms);
        lemma_civil_field_widths(c);
        reveal_with_fuel(pow10, 5);
        lemma_dec_chars_pad_exact(frac as nat, 3);
        assert(chars_of(out@).len() == 24);
        assert forall|i: int| 0 <= i < chars_of(out@).len() implies (
        #[trigger] chars_of(out@)[i] as u32) < 128 by {
            assert(out@[i] < 128);
        }
    }
    ascii_to_string(out)
}

/// Prints epoch milliseconds as RFC 3339 in a fixed zone offset,
/// millisecond precision, `±hh:mm` suffix. The result parses back to
/// the same epoch millisecond: the instant is zone-independent, only
/// its wall-clock reading shifts.
#[verifier::rlimit(100)]
pub fn format_rfc3339_ms_at_offset(ms: i64, offset_sec: i64) -> (r: String)
    requires
        valid_epoch_ms(ms as int),
        -86340 <= offset_sec <= 86340,
        offset_sec % 60 == 0,
        valid_epoch_ms(ms + offset_sec * 1000),
    ensures
        spec_parse_rfc3339(r@) == Some(ms),
        r@.len() == 29,
        ascii_chars(r@),
{
    proof {
        crate::civil::lemma_max_epoch_ms_bound();
    }
    let local_ms: i64 = ms + offset_sec * 1000;
    let secs: i64 = local_ms / 1000;
    let frac: i64 = local_ms % 1000;
    proof {
        assert(0 <= frac < 1000);
        assert(secs * 1000 + frac == local_ms);
        assert(secs < max_epoch_secs()) by (nonlinear_arith)
            requires
                local_ms < max_epoch_secs() * 1000,
                secs == local_ms / 1000,
                0 <= local_ms,
        ;
    }
    let c = secs_to_civil(secs);
    let neg = offset_sec < 0;
    let abs_off: i64 = if neg {
        -offset_sec
    } else {
        offset_sec
    };
    let oh: i64 = abs_off / 3600;
    let om: i64 = (abs_off % 3600) / 60;
    proof {
        lemma_offset_split(abs_off as int);
        assert(abs_off % 60 == 0) by {
            if neg {
                assert((-offset_sec) % 60 == 0);
            }
        }
        assert(abs_off == oh * 3600 + om * 60);
        assert(0 <= oh <= 23 && 0 <= om <= 59);
    }
    let mut out: Vec<u8> = Vec::new();
    push_rfc3339_body(&mut out, &c, frac as u64);
    proof {
        reveal_strlit("+");
        reveal_strlit("-");
        reveal_strlit(":");
    }
    if neg {
        push_chars(&mut out, "-");
    } else {
        push_chars(&mut out, "+");
    }
    push_dec_pad(&mut out, oh as u64, 2);
    push_chars(&mut out, ":");
    push_dec_pad(&mut out, om as u64, 2);
    proof {
        assert("+"@ =~= seq!['+']);
        assert("-"@ =~= seq!['-']);
        assert(":"@ =~= seq![':']);
        let b0 = rfc3339_body_chars(c, frac as nat);
        let s1 = if neg {
            seq!['-']
        } else {
            seq!['+']
        };
        let s2 = dec_chars_pad(oh as nat, 2);
        let s3 = seq![':'];
        let s4 = dec_chars_pad(om as nat, 2);
        crate::text::lemma_seq_assoc(b0, s1, s2);
        crate::text::lemma_seq_assoc(b0, s1 + s2, s3);
        crate::text::lemma_seq_assoc(b0, s1 + s2 + s3, s4);
        assert(chars_of(out@) == rfc3339_offset_chars(c, frac as nat, neg, oh as nat, om as nat));
        lemma_rfc3339_offset_round_trip(c, frac as nat, neg, oh as nat, om as nat);
        assert(epoch_secs(c) == secs);
        let off: int = if neg {
            -(oh * 3600 + om * 60)
        } else {
            (oh * 3600 + om * 60) as int
        };
        assert(off == offset_sec);
        assert((epoch_secs(c) - off) * 1000 + frac == ms);
        reveal_with_fuel(pow10, 5);
        lemma_civil_field_widths(c);
        lemma_dec_chars_pad_exact(frac as nat, 3);
        lemma_dec_chars_pad_exact(oh as nat, 2);
        lemma_dec_chars_pad_exact(om as nat, 2);
        assert(chars_of(out@).len() == 29);
        assert forall|i: int| 0 <= i < chars_of(out@).len() implies (
        #[trigger] chars_of(out@)[i] as u32) < 128 by {
            assert(out@[i] < 128);
        }
    }
    ascii_to_string(out)
}

/// A whole-minute offset splits exactly into hours and minutes.
proof fn lemma_offset_split(abs_off: int)
    requires
        0 <= abs_off <= 86340,
        abs_off % 60 == 0,
    ensures
        abs_off == (abs_off / 3600) * 3600 + ((abs_off % 3600) / 60) * 60,
        0 <= abs_off / 3600 <= 23,
        0 <= (abs_off % 3600) / 60 <= 59,
{
    assert(abs_off == (abs_off / 3600) * 3600 + abs_off % 3600) by (nonlinear_arith)
        requires
            0 <= abs_off,
    ;
    assert((abs_off % 3600) % 60 == abs_off % 60) by (nonlinear_arith)
        requires
            0 <= abs_off,
    ;
    assert(abs_off % 3600 == ((abs_off % 3600) / 60) * 60 + (abs_off % 3600) % 60)
        by (nonlinear_arith)
        requires
            0 <= abs_off,
    ;
    assert(abs_off / 3600 <= 23) by (nonlinear_arith)
        requires
            0 <= abs_off <= 86340,
    ;
}

/// Printing then parsing an offset-zoned RFC 3339 timestamp is the
/// identity on its epoch value.
#[verifier::rlimit(100)]
pub proof fn lemma_rfc3339_offset_round_trip(
    c: CivilDateTime,
    frac: nat,
    neg: bool,
    oh: nat,
    om: nat,
)
    requires
        valid_civil(c),
        frac < 1000,
        oh <= 23,
        om <= 59,
    ensures
        ({
            let off: int = if neg {
                -((oh * 3600 + om * 60) as int)
            } else {
                (oh * 3600 + om * 60) as int
            };
            let ms = (epoch_secs(c) - off) * 1000 + frac;
            valid_epoch_ms(ms) ==> spec_parse_rfc3339(
                rfc3339_offset_chars(c, frac, neg, oh, om),
            ) == Some(ms as i64)
        }),
{
    reveal_with_fuel(pow10, 5);
    lemma_civil_field_widths(c);
    lemma_dec_chars_pad_exact(c.year as nat, 4);
    lemma_dec_chars_pad_exact(c.month as nat, 2);
    lemma_dec_chars_pad_exact(c.day as nat, 2);
    lemma_dec_chars_pad_exact(c.hour as nat, 2);
    lemma_dec_chars_pad_exact(c.minute as nat, 2);
    lemma_dec_chars_pad_exact(c.second as nat, 2);
    lemma_dec_chars_pad_exact(frac, 3);
    lemma_dec_chars_pad_exact(oh, 2);
    lemma_dec_chars_pad_exact(om, 2);
    let cs = rfc3339_offset_chars(c, frac, neg, oh, om);
    assert(cs.len() == 29);
    assert(cs.subrange(0, 4) =~= dec_chars_pad(c.year as nat, 4));
    assert(cs[4] == '-');
    assert(cs.subrange(5, 7) =~= dec_chars_pad(c.month as nat, 2));
    assert(cs[7] == '-');
    assert(cs.subrange(8, 10) =~= dec_chars_pad(c.day as nat, 2));
    assert(cs[10] == 'T');
    assert(cs.subrange(11, 13) =~= dec_chars_pad(c.hour as nat, 2));
    assert(cs[13] == ':');
    assert(cs.subrange(14, 16) =~= dec_chars_pad(c.minute as nat, 2));
    assert(cs[16] == ':');
    assert(cs.subrange(17, 19) =~= dec_chars_pad(c.second as nat, 2));
    assert(cs[19] == '.');
    assert(cs.subrange(20, 23) =~= dec_chars_pad(frac, 3));
    assert(cs[23] == if neg {
        '-'
    } else {
        '+'
    });
    assert(scan_digits_end(cs, 20) == 23) by {
        assert(forall|j: int| 20 <= j < 23 ==> is_digit_char(#[trigger] cs[j])) by {
            assert(forall|j: int|
                0 <= j < 3 ==> is_digit_char(#[trigger] dec_chars_pad(frac, 3)[j]));
            assert(forall|j: int| 20 <= j < 23 ==> cs[j] == dec_chars_pad(frac, 3)[j - 20]);
        }
        assert(!is_digit_char('+') && !is_digit_char('-'));
        lemma_scan_digits_stops(cs, 20, 23);
    }
    assert(cs.subrange(20, 23).take(3) =~= cs.subrange(20, 23));
    assert(frac_ms_of(cs.subrange(20, 23)) == frac);
    assert(cs[26] == ':');
    assert(cs.subrange(24, 26) =~= dec_chars_pad(oh, 2));
    assert(cs.subrange(27, 29) =~= dec_chars_pad(om, 2));
    let off: int = if neg {
        -((oh * 3600 + om * 60) as int)
    } else {
        (oh * 3600 + om * 60) as int
    };
    assert(spec_parse_tz(cs, 23) == Some(off));
}

/// Appends the zone-less front of an RFC 3339 timestamp.
fn push_rfc3339_body(out: &mut Vec<u8>, c: &CivilDateTime, frac: u64)
    ensures
        chars_of(final(out)@) == chars_of(old(out)@) + rfc3339_body_chars(*c, frac as nat),
        ascii_bytes(old(out)@) ==> ascii_bytes(final(out)@),
{
    proof {
        reveal_strlit("T");
        reveal_strlit(":");
        reveal_strlit(".");
    }
    push_date(out, c);
    push_chars(out, "T");
    push_dec_pad(out, c.hour as u64, 2);
    push_chars(out, ":");
    push_dec_pad(out, c.minute as u64, 2);
    push_chars(out, ":");
    push_dec_pad(out, c.second as u64, 2);
    push_chars(out, ".");
    push_dec_pad(out, frac, 3);
    proof {
        assert("T"@ =~= seq!['T']);
        assert(":"@ =~= seq![':']);
        assert("."@ =~= seq!['.']);
        let b0 = chars_of(old(out)@);
        let p1 = date_chars(*c);
        let p2 = seq!['T'];
        let p3 = dec_chars_pad(c.hour as nat, 2);
        let p4 = seq![':'];
        let p5 = dec_chars_pad(c.minute as nat, 2);
        let p6 = seq![':'];
        let p7 = dec_chars_pad(c.second as nat, 2);
        let p8 = seq!['.'];
        let p9 = dec_chars_pad(frac as nat, 3);
        crate::text::lemma_seq_assoc(b0, p1, p2);
        crate::text::lemma_seq_assoc(b0, p1 + p2, p3);
        crate::text::lemma_seq_assoc(b0, p1 + p2 + p3, p4);
        crate::text::lemma_seq_assoc(b0, p1 + p2 + p3 + p4, p5);
        crate::text::lemma_seq_assoc(b0, p1 + p2 + p3 + p4 + p5, p6);
        crate::text::lemma_seq_assoc(b0, p1 + p2 + p3 + p4 + p5 + p6, p7);
        crate::text::lemma_seq_assoc(b0, p1 + p2 + p3 + p4 + p5 + p6 + p7, p8);
        crate::text::lemma_seq_assoc(b0, p1 + p2 + p3 + p4 + p5 + p6 + p7 + p8, p9);
        assert(rfc3339_body_chars(*c, frac as nat) == p1 + p2 + p3 + p4 + p5 + p6 + p7 + p8 + p9);
        assert(chars_of(out@) == b0 + rfc3339_body_chars(*c, frac as nat));
    }
}

/// Appends RFC 3339 text with three fractional digits and a `Z` zone.
fn push_rfc3339(out: &mut Vec<u8>, c: &CivilDateTime, frac: u64)
    ensures
        chars_of(final(out)@) == chars_of(old(out)@) + rfc3339_chars(*c, frac as nat),
        ascii_bytes(old(out)@) ==> ascii_bytes(final(out)@),
{
    push_rfc3339_body(out, c, frac);
    proof {
        reveal_strlit("Z");
    }
    push_chars(out, "Z");
    proof {
        assert("Z"@ =~= seq!['Z']);
        crate::text::lemma_seq_assoc(
            chars_of(old(out)@),
            rfc3339_body_chars(*c, frac as nat),
            seq!['Z'],
        );
    }
}

/// Printing then parsing an RFC 3339 millisecond timestamp is the
/// identity on its epoch value.
pub proof fn lemma_rfc3339_round_trip(c: CivilDateTime, frac: nat)
    requires
        valid_civil(c),
        frac < 1000,
        valid_epoch_ms(epoch_secs(c) * 1000 + frac),
    ensures
        spec_parse_rfc3339(rfc3339_chars(c, frac)) == Some((epoch_secs(c) * 1000 + frac) as i64),
{
    reveal_with_fuel(pow10, 5);
    lemma_civil_field_widths(c);
    lemma_dec_chars_pad_exact(c.year as nat, 4);
    lemma_dec_chars_pad_exact(c.month as nat, 2);
    lemma_dec_chars_pad_exact(c.day as nat, 2);
    lemma_dec_chars_pad_exact(c.hour as nat, 2);
    lemma_dec_chars_pad_exact(c.minute as nat, 2);
    lemma_dec_chars_pad_exact(c.second as nat, 2);
    lemma_dec_chars_pad_exact(frac, 3);
    let cs = rfc3339_chars(c, frac);
    assert(cs.len() == 24);
    assert(cs.subrange(0, 4) =~= dec_chars_pad(c.year as nat, 4));
    assert(cs[4] == '-');
    assert(cs.subrange(5, 7) =~= dec_chars_pad(c.month as nat, 2));
    assert(cs[7] == '-');
    assert(cs.subrange(8, 10) =~= dec_chars_pad(c.day as nat, 2));
    assert(cs[10] == 'T');
    assert(cs.subrange(11, 13) =~= dec_chars_pad(c.hour as nat, 2));
    assert(cs[13] == ':');
    assert(cs.subrange(14, 16) =~= dec_chars_pad(c.minute as nat, 2));
    assert(cs[16] == ':');
    assert(cs.subrange(17, 19) =~= dec_chars_pad(c.second as nat, 2));
    assert(cs[19] == '.');
    assert(cs.subrange(20, 23) =~= dec_chars_pad(frac, 3));
    assert(cs[23] == 'Z');
    assert(scan_digits_end(cs, 20) == 23) by {
        assert(forall|j: int| 20 <= j < 23 ==> is_digit_char(#[trigger] cs[j])) by {
            assert(forall|j: int|
                0 <= j < 3 ==> is_digit_char(#[trigger] dec_chars_pad(frac, 3)[j]));
            assert(forall|j: int| 20 <= j < 23 ==> cs[j] == dec_chars_pad(frac, 3)[j - 20]);
        }
        assert(!is_digit_char('Z'));
        lemma_scan_digits_stops(cs, 20, 23);
    }
    assert(cs.subrange(20, 23).take(3) =~= cs.subrange(20, 23));
    assert(frac_ms_of(cs.subrange(20, 23)) == frac);
    assert(spec_parse_tz(cs, 23) == Some(0int));
}

} // verus!
