//! Subject names, asset and channel padding, record keys and camera
//! identifiers: the flat string grammar shared by every service.

use vstd::prelude::*;
use crate::text::{
    ascii_bytes, ascii_chars, ascii_to_string, chars_of, dec_chars_pad, push_dec_pad,
};

verus! {

/// `{n:03}`: the asset number, zero-padded to at least three digits.
pub open spec fn pad_asset_chars(n: nat) -> Seq<char> {
    dec_chars_pad(n, 3)
}

/// `ch{n:02}`: the channel token.
pub open spec fn pad_channel_chars(n: nat) -> Seq<char> {
    seq!['c', 'h'] + dec_chars_pad(n, 2)
}

/// `{prefix}.{asset:03}.data.ch{ch:02}`: the per-channel sample subject.
pub open spec fn channel_subject_chars(prefix: Seq<char>, asset: nat, ch: nat) -> Seq<char> {
    prefix + seq!['.'] + pad_asset_chars(asset) + seq!['.', 'd', 'a', 't', 'a', '.']
        + pad_channel_chars(ch)
}

/// `{prefix}.{asset:03}.data.*`: the sample-subject wildcard.
pub open spec fn stream_subject_wildcard_chars(prefix: Seq<char>, asset: nat) -> Seq<char> {
    prefix + seq!['.'] + pad_asset_chars(asset) + seq!['.', 'd', 'a', 't', 'a', '.', '*']
}

/// `{prefix}.{asset:03}.trigger.ch{ch:02}`: the per-channel trigger subject.
pub open spec fn trigger_subject_chars(prefix: Seq<char>, asset: nat, ch: nat) -> Seq<char> {
    prefix + seq!['.'] + pad_asset_chars(asset) + seq!['.', 't', 'r', 'i', 'g', 'g', 'e', 'r', '.']
        + pad_channel_chars(ch)
}

/// `{prefix}.*.trigger.*`: the trigger-subject wildcard.
pub open spec fn trigger_subject_wildcard_chars(prefix: Seq<char>) -> Seq<char> {
    prefix + seq!['.', '*', '.', 't', 'r', 'i', 'g', 'g', 'e', 'r', '.', '*']
}

/// `event.{id}`: the key of a trigger record in the state bucket.
pub open spec fn record_key_chars(id: Seq<char>) -> Seq<char> {
    seq!['e', 'v', 'e', 'n', 't', '.'] + id
}

/// Appends every character of an ASCII string slice.
pub fn push_chars(out: &mut Vec<u8>, s: &str)
    requires
        ascii_chars(s@),
    ensures
        chars_of(final(out)@) == chars_of(old(out)@) + s@,
        ascii_bytes(old(out)@) ==> ascii_bytes(final(out)@),
{
    let ghost pre = out@;
    let n = s.unicode_len();
    let mut i: usize = 0;
    while i < n
        invariant
            i <= n == s@.len(),
            ascii_chars(s@),
            chars_of(out@) == chars_of(pre) + s@.take(i as int),
            ascii_bytes(pre) ==> ascii_bytes(out@),
        decreases n - i,
    {
        let c = s.get_char(i);
        let b: u8 = (c as u32) as u8;
        let ghost before = out@;
        out.push(b);
        i += 1;
        proof {
            assert((b as char) == c);
            assert(out@ == before.push(b));
            assert(chars_of(before).len() == before.len());
            assert(chars_of(pre).len() == pre.len());
            assert(before.len() == pre.len() + i - 1);
            assert(out@.len() == pre.len() + i);
            assert forall|j: int| 0 <= j < out@.len() implies chars_of(out@)[j] == (chars_of(pre)
                + s@.take(i as int))[j] by {
                assert(chars_of(out@)[j] == (out@[j] as char));
                if j < pre.len() {
                    assert(out@[j] == before[j]);
                    assert(chars_of(before)[j] == (before[j] as char));
                    assert(chars_of(before)[j] == chars_of(pre)[j]);
                } else if j < out@.len() - 1 {
                    assert(out@[j] == before[j]);
                    assert(chars_of(before)[j] == (before[j] as char));
                    assert(chars_of(before)[j] == s@.take(i - 1)[j - pre.len()]);
                    assert(s@.take(i - 1)[j - pre.len()] == s@[j - pre.len()]);
                    assert(s@.take(i as int)[j - pre.len()] == s@[j - pre.len()]);
                } else {
                    assert(out@[j] == b);
                    assert(s@.take(i as int)[j - pre.len()] == s@[i - 1]);
                }
            }
            assert(chars_of(out@) =~= chars_of(pre) + s@.take(i as int));
        }
    }
    proof {
        assert(s@.take(n as int) =~= s@);
    }
}

/// `{n:03}`: pads the asset number for names and subjects.
pub fn pad_asset(n: u32) -> (s: String)
    ensures
        s@ == pad_asset_chars(n as nat),
{
    let mut out: Vec<u8> = Vec::new();
    push_dec_pad(&mut out, n as u64, 3);
    ascii_to_string(out)
}

/// `ch{n:02}`: the channel token used in subjects and paths.
pub fn pad_channel(ch: u8) -> (s: String)
    ensures
        s@ == pad_channel_chars(ch as nat),
{
    let mut out: Vec<u8> = Vec::new();
    proof {
        reveal_strlit("ch");
    }
    push_chars(&mut out, "ch");
    push_dec_pad(&mut out, ch as u64, 2);
    proof {
        assert("ch"@ =~= seq!['c', 'h']);
    }
    ascii_to_string(out)
}

/// The per-channel sample subject for an asset.
pub fn channel_subject(prefix: &str, asset: u32, ch: u8) -> (s: String)
    requires
        ascii_chars(prefix@),
    ensures
        s@ == channel_subject_chars(prefix@, asset as nat, ch as nat),
{
    let mut out: Vec<u8> = Vec::new();
    push_chars(&mut out, prefix);
    proof {
        reveal_strlit(".");
        reveal_strlit(".data.");
        reveal_strlit("ch");
    }
    push_chars(&mut out, ".");
    push_dec_pad(&mut out, asset as u64, 3);
    push_chars(&mut out, ".data.");
    push_chars(&mut out, "ch");
    push_dec_pad(&mut out, ch as u64, 2);
    proof {
        assert("."@ =~= seq!['.']);
        assert(".data."@ =~= seq!['.', 'd', 'a', 't', 'a', '.']);
        assert("ch"@ =~= seq!['c', 'h']);
        assert(chars_of(out@) =~= channel_subject_chars(prefix@, asset as nat, ch as nat));
    }
    ascii_to_string(out)
}

/// The sample-subject wildcard for an asset.
pub fn stream_subject_wildcard(prefix: &str, asset: u32) -> (s: String)
    requires
        ascii_chars(prefix@),
    ensures
        s@ == stream_subject_wildcard_chars(prefix@, asset as nat),
{
    let mut out: Vec<u8> = Vec::new();
    push_chars(&mut out, prefix);
    proof {
        reveal_strlit(".");
        reveal_strlit(".data.*");
    }
    push_chars(&mut out, ".");
    push_dec_pad(&mut out, asset as u64, 3);
    push_chars(&mut out, ".data.*");
    proof {
        assert("."@ =~= seq!['.']);
        assert(".data.*"@ =~= seq!['.', 'd', 'a', 't', 'a', '.', '*']);
        assert(chars_of(out@) =~= stream_subject_wildcard_chars(prefix@, asset as nat));
    }
    ascii_to_string(out)
}

/// The per-channel trigger subject for an asset.
pub fn trigger_subject(prefix: &str, asset: u32, ch: u8) -> (s: String)
    requires
        ascii_chars(prefix@),
    ensures
        s@ == trigger_subject_chars(prefix@, asset as nat, ch as nat),
{
    let mut out: Vec<u8> = Vec::new();
    push_chars(&mut out, prefix);
    proof {
        reveal_strlit(".");
        reveal_strlit(".trigger.");
        reveal_strlit("ch");
    }
    push_chars(&mut out, ".");
    push_dec_pad(&mut out, asset as u64, 3);
    push_chars(&mut out, ".trigger.");
    push_chars(&mut out, "ch");
    push_dec_pad(&mut out, ch as u64, 2);
    proof {
        assert("."@ =~= seq!['.']);
        assert(".trigger."@ =~= seq!['.', 't', 'r', 'i', 'g', 'g', 'e', 'r', '.']);
        assert("ch"@ =~= seq!['c', 'h']);
        assert(chars_of(out@) =~= trigger_subject_chars(prefix@, asset as nat, ch as nat));
    }
    ascii_to_string(out)
}

/// The trigger-subject wildcard across assets.
pub fn trigger_subject_wildcard(prefix: &str) -> (s: String)
    requires
        ascii_chars(prefix@),
    ensures
        s@ == trigger_subject_wildcard_chars(prefix@),
{
    let mut out: Vec<u8> = Vec::new();
    push_chars(&mut out, prefix);
    proof {
        reveal_strlit(".*.trigger.*");
    }
    push_chars(&mut out, ".*.trigger.*");
    proof {
        assert(".*.trigger.*"@ =~= seq!['.', '*', '.', 't', 'r', 'i', 'g', 'g', 'e', 'r', '.', '*']);
        assert(chars_of(out@) =~= trigger_subject_wildcard_chars(prefix@));
    }
    ascii_to_string(out)
}

/// The state-bucket key of a trigger record.
pub fn trigger_record_key(id: &str) -> (s: String)
    requires
        ascii_chars(id@),
    ensures
        s@ == record_key_chars(id@),
{
    let mut out: Vec<u8> = Vec::new();
    proof {
        reveal_strlit("event.");
    }
    push_chars(&mut out, "event.");
    push_chars(&mut out, id);
    proof {
        assert("event."@ =~= seq!['e', 'v', 'e', 'n', 't', '.']);
        assert(chars_of(out@) =~= record_key_chars(id@));
    }
    ascii_to_string(out)
}

/// The first index of `c` in `cs` at or after `i`, if any.
pub open spec fn find_char_at(cs: Seq<char>, c: char, i: int) -> Option<int>
    decreases cs.len() - i,
{
    if i < 0 || i >= cs.len() {
        None
    } else if cs[i] == c {
        Some(i)
    } else {
        find_char_at(cs, c, i + 1)
    }
}

/// The last index of `c` in `cs`, if any.
pub open spec fn rfind_char(cs: Seq<char>, c: char) -> Option<int>
    decreases cs.len(),
{
    if cs.len() == 0 {
        None
    } else if cs.last() == c {
        Some(cs.len() - 1)
    } else {
        rfind_char(cs.drop_last(), c)
    }
}

/// Finds the first occurrence of `c` at or after `i`.
pub fn find_char_from(s: &str, c: char, i: usize) -> (r: Option<usize>)
    requires
        i <= s@.len(),
    ensures
        match r {
            Some(j) => i <= j < s@.len() && find_char_at(s@, c, i as int) == Some(j as int),
            None => find_char_at(s@, c, i as int) is None,
        },
    decreases s@.len() - i,
{
    let n = s.unicode_len();
    if i >= n {
        None
    } else if s.get_char(i) == c {
        Some(i)
    } else {
        find_char_from(s, c, i + 1)
    }
}

/// Finds the last occurrence of `c` before index `end`.
pub fn rfind_char_before(s: &str, c: char, end: usize) -> (r: Option<usize>)
    requires
        end <= s@.len(),
    ensures
        match r {
            Some(j) => j < end && rfind_char(s@.take(end as int), c) == Some(j as int),
            None => rfind_char(s@.take(end as int), c) is None,
        },
    decreases end,
{
    if end == 0 {
        None
    } else {
        let c0 = s.get_char(end - 1);
        proof {
            assert(s@.take(end as int).last() == s@[end - 1]);
        }
        if c0 == c {
            Some(end - 1)
        } else {
            proof {
                assert(s@.take(end as int).drop_last() =~= s@.take(end as int - 1));
            }
            rfind_char_before(s, c, end - 1)
        }
    }
}

/// The channel token of a subject: everything after the last `.`, or the
/// whole subject when it has none.
pub open spec fn channel_token_of(cs: Seq<char>) -> Seq<char> {
    match rfind_char(cs, '.') {
        Some(i) => cs.subrange(i + 1, cs.len() as int),
        None => cs,
    }
}

/// Extracts the channel token (such as `ch04`) from a sample subject.
pub fn extract_channel_token(subject: &str) -> (r: Option<String>)
    ensures
        r matches Some(t) && t@ == channel_token_of(subject@),
{
    let n = subject.unicode_len();
    proof {
        assert(subject@.take(n as int) =~= subject@);
    }
    match rfind_char_before(subject, '.', n) {
        Some(i) => {
            let t = subject.substring_char(i + 1, n);
            Some(String::from_str(t))
        },
        None => Some(String::from_str(subject)),
    }
}

/// A character a camera identifier may contain.
pub open spec fn is_camera_char(c: char) -> bool {
    (48 <= c as u32 <= 57) || (65 <= c as u32 <= 90) || (97 <= c as u32 <= 122) || c == '-' || c
        == '_'
}

/// A usable camera identifier: non-empty, camera characters only.
pub open spec fn camera_id_ok(cs: Seq<char>) -> bool {
    cs.len() > 0 && (forall|i: int| 0 <= i < cs.len() ==> is_camera_char(#[trigger] cs[i]))
}

/// What sanitizing leaves: the camera characters of the input, or
/// `default` when none survive.
pub open spec fn sanitized_camera_chars(cs: Seq<char>) -> Seq<char> {
    let kept = cs.filter(|c: char| is_camera_char(c));
    if kept.len() == 0 {
        seq!['d', 'e', 'f', 'a', 'u', 'l', 't']
    } else {
        kept
    }
}

/// Drops every character a camera identifier may not contain; an
/// identifier with nothing left becomes `default`.
pub fn sanitize_camera_id(raw: &str) -> (s: String)
    ensures
        s@ == sanitized_camera_chars(raw@),
        camera_id_ok(s@),
{
    let n = raw.unicode_len();
    let mut out: Vec<u8> = Vec::new();
    let mut i: usize = 0;
    while i < n
        invariant
            i <= n == raw@.len(),
            chars_of(out@) == raw@.take(i as int).filter(|c: char| is_camera_char(c)),
            ascii_bytes(out@),
        decreases n - i,
    {
        let c = raw.get_char(i);
        let cu = c as u32;
        let keep = (48 <= cu && cu <= 57) || (65 <= cu && cu <= 90) || (97 <= cu && cu <= 122)
            || c == '-' || c == '_';
        proof {
            reveal(Seq::filter);
            assert(raw@.take(i + 1).drop_last() =~= raw@.take(i as int));
            assert(raw@.take(i + 1).last() == c);
            assert(('-' as u32) == 45 && ('_' as u32) == 95);
        }
        if keep {
            let b: u8 = (cu) as u8;
            out.push(b);
            proof {
                assert((b as char) == c);
                assert(chars_of(out@) =~= raw@.take(i + 1).filter(|c: char| is_camera_char(c)));
            }
        }
        i += 1;
    }
    proof {
        assert(raw@.take(n as int) =~= raw@);
    }
    if out.len() == 0 {
        proof {
            reveal_strlit("default");
        }
        let s = String::from_str("default");
        proof {
            assert(s@ =~= seq!['d', 'e', 'f', 'a', 'u', 'l', 't']);
            assert forall|j: int| 0 <= j < s@.len() implies is_camera_char(#[trigger] s@[j]) by {
                assert(('d' as u32) == 100 && ('e' as u32) == 101 && ('f' as u32) == 102 && (
                'a' as u32) == 97 && ('u' as u32) == 117 && ('l' as u32) == 108 && ('t' as u32)
                    == 116);
            }
        }
        s
    } else {
        proof {
            let kept = raw@.filter(|c: char| is_camera_char(c));
            assert forall|j: int| 0 <= j < kept.len() implies is_camera_char(#[trigger] kept[j]) by {
                raw@.lemma_filter_pred(|c: char| is_camera_char(c), j);
            }
            assert(ascii_chars(chars_of(out@)));
        }
        ascii_to_string(out)
    }
}

} // verus!
