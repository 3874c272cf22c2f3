//! Object-store key grammars: raw video object keys, spool segment
//! file names, generated clip keys, and archive partition paths.

use vstd::prelude::*;
use crate::civil::{epoch_secs, valid_civil, CivilDateTime};
use crate::names::{
    camera_id_ok, find_char_at, find_char_from, is_camera_char, pad_channel_chars, push_chars,
};
use crate::text::{
    all_digits, ascii_bytes, ascii_chars, ascii_to_string, chars_of, dec_chars, dec_chars_pad,
    is_digit_char, lemma_chars_of_app, lemma_dec_chars_digits, lemma_dec_val_of_dec_chars,
    lemma_seq_assoc, parse_dec_range, push_dec, push_dec_pad, spec_parse_dec,
};
use crate::timestamp::{
    compact_ts_chars, push_compact_ts, push_video_ts, spec_parse_video_ts, video_ts_chars,
    lemma_video_ts_round_trip, parse_video_ts, date_chars, push_date,
};

verus! {

/// A parsed raw video object key.
pub struct VideoKey {
    pub asset: u32,
    pub camera_id: String,
    pub start: CivilDateTime,
    pub end: CivilDateTime,
}

pub open spec fn lit_asset() -> Seq<char> {
    seq!['a', 's', 's', 'e', 't']
}

pub open spec fn lit_camera() -> Seq<char> {
    seq!['c', 'a', 'm', 'e', 'r', 'a', '_']
}

pub open spec fn lit_mp4() -> Seq<char> {
    seq!['.', 'm', 'p', '4']
}

pub open spec fn lit_default() -> Seq<char> {
    seq!['d', 'e', 'f', 'a', 'u', 'l', 't']
}

/// The file portion `V_{start}_{end}.mp4` of a raw video object key.
pub open spec fn video_file_chars(s: CivilDateTime, e: CivilDateTime) -> Seq<char> {
    seq!['V', '_'] + video_ts_chars(s) + seq!['_'] + video_ts_chars(e) + lit_mp4()
}

/// `asset{N}/camera_{CID}/V_{start}_{end}.mp4`.
pub open spec fn video_key_chars(
    asset: nat,
    camera: Seq<char>,
    s: CivilDateTime,
    e: CivilDateTime,
) -> Seq<char> {
    lit_asset() + dec_chars(asset) + seq!['/'] + lit_camera() + camera + seq!['/']
        + video_file_chars(s, e)
}

/// What parsing the file portion yields: start and end, defined exactly
/// when the shape matches, both times are valid, and the end is after
/// the start.
pub open spec fn spec_parse_video_file(cs: Seq<char>) -> Option<(CivilDateTime, CivilDateTime)> {
    if cs.len() == 41 && cs[0] == 'V' && cs[1] == '_' && cs[19] == '_' && cs.subrange(37, 41)
        == lit_mp4() {
        let st = spec_parse_video_ts(cs.subrange(2, 19));
        let en = spec_parse_video_ts(cs.subrange(20, 37));
        if st is Some && en is Some && epoch_secs(en.unwrap()) > epoch_secs(st.unwrap()) {
            Some((st.unwrap(), en.unwrap()))
        } else {
            None
        }
    } else {
        None
    }
}

/// What parsing `asset{N}` yields.
pub open spec fn spec_parse_asset_part(cs: Seq<char>) -> Option<u32> {
    if cs.len() > 5 && cs.subrange(0, 5) == lit_asset() {
        match spec_parse_dec(cs.subrange(5, cs.len() as int)) {
            Some(v) => if v <= u32::MAX {
                Some(v as u32)
            } else {
                None
            },
            None => None,
        }
    } else {
        None
    }
}

/// What parsing a raw video object key yields. Keys have two or three
/// `/`-separated parts; a two-part key carries the `default` camera; a
/// `camera_` prefix on the middle part is stripped.
pub open spec fn spec_parse_video_key(cs: Seq<char>) -> Option<
    (u32, Seq<char>, CivilDateTime, CivilDateTime),
> {
    match find_char_at(cs, '/', 0) {
        None => None,
        Some(p1) => {
            let asset = spec_parse_asset_part(cs.subrange(0, p1));
            match find_char_at(cs, '/', p1 + 1) {
                None => {
                    let file = spec_parse_video_file(cs.subrange(p1 + 1, cs.len() as int));
                    if asset is Some && file is Some {
                        Some(
                            (
                                asset.unwrap(),
                                lit_default(),
                                file.unwrap().0,
                                file.unwrap().1,
                            ),
                        )
                    } else {
                        None
                    }
                },
                Some(p2) => {
                    if find_char_at(cs, '/', p2 + 1) is Some {
                        None
                    } else {
                        let camera_part = cs.subrange(p1 + 1, p2);
                        let camera = if camera_part.len() >= 7 && camera_part.take(7)
                            == lit_camera() {
                            camera_part.skip(7)
                        } else {
                            camera_part
                        };
                        let file = spec_parse_video_file(cs.subrange(p2 + 1, cs.len() as int));
                        if asset is Some && file is Some {
                            Some((asset.unwrap(), camera, file.unwrap().0, file.unwrap().1))
                        } else {
                            None
                        }
                    }
                },
            }
        },
    }
}

/// If the first occurrence of `c` at or past `i` is at `j`, the search
/// finds it.
pub proof fn lemma_find_first(cs: Seq<char>, c: char, i: int, j: int)
    requires
        0 <= i <= j < cs.len(),
        cs[j] == c,
        forall|k: int| i <= k < j ==> cs[k] != c,
    ensures
        find_char_at(cs, c, i) == Some(j),
    decreases j - i,
{
    if i < j {
        lemma_find_first(cs, c, i + 1, j);
    }
}

/// If `c` does not occur at or past `i`, the search finds nothing.
pub proof fn lemma_find_none(cs: Seq<char>, c: char, i: int)
    requires
        0 <= i,
        forall|k: int| i <= k < cs.len() ==> cs[k] != c,
    ensures
        find_char_at(cs, c, i) is None,
    decreases cs.len() - i,
{
    if i < cs.len() {
        lemma_find_none(cs, c, i + 1);
    }
}

/// A camera character is not a slash.
pub proof fn lemma_camera_char_not_slash(c: char)
    requires
        is_camera_char(c),
    ensures
        c != '/',
{
    assert(('/' as u32) == 47);
}

/// No character of a printed video timestamp is a slash.
pub proof fn lemma_video_ts_no_slash(c: CivilDateTime)
    ensures
        forall|i: int|
            0 <= i < video_ts_chars(c).len() ==> #[trigger] video_ts_chars(c)[i] != '/',
{
    let cs = video_ts_chars(c);
    assert forall|i: int| 0 <= i < cs.len() implies #[trigger] cs[i] != '/' by {
        lemma_dec_chars_digits(c.year as nat);
        lemma_dec_chars_digits(c.month as nat);
        lemma_dec_chars_digits(c.day as nat);
        lemma_dec_chars_digits(c.hour as nat);
        lemma_dec_chars_digits(c.minute as nat);
        lemma_dec_chars_digits(c.second as nat);
        crate::text::lemma_dec_chars_pad(c.year as nat, 4);
        crate::text::lemma_dec_chars_pad(c.month as nat, 2);
        crate::text::lemma_dec_chars_pad(c.day as nat, 2);
        crate::text::lemma_dec_chars_pad(c.hour as nat, 2);
        crate::text::lemma_dec_chars_pad(c.minute as nat, 2);
        crate::text::lemma_dec_chars_pad(c.second as nat, 2);
        assert(('/' as u32) == 47);
        assert(('_' as u32) == 95);
    }
}

/// The slash positions of a printed key: after the asset part and
/// after the camera part, with none in the file part.
proof fn lemma_video_key_splits(asset: nat, camera: Seq<char>, s: CivilDateTime, e: CivilDateTime)
    requires
        camera_id_ok(camera),
        valid_civil(s),
        valid_civil(e),
    ensures
        ({
            let cs = video_key_chars(asset, camera, s, e);
            let p1 = 5 + dec_chars(asset).len() as int;
            let p2 = p1 + 8 + camera.len() as int;
            &&& cs.len() == p2 + 42
            &&& find_char_at(cs, '/', 0) == Some(p1)
            &&& find_char_at(cs, '/', p1 + 1) == Some(p2)
            &&& find_char_at(cs, '/', p2 + 1) is None
            &&& cs.subrange(p2 + 1, cs.len() as int) == video_file_chars(s, e)
            &&& cs.subrange(0, p1).subrange(0, 5) == lit_asset()
            &&& cs.subrange(0, p1).subrange(5, p1) == dec_chars(asset)
            &&& cs.subrange(p1 + 1, p2).take(7) == lit_camera()
            &&& cs.subrange(p1 + 1, p2).skip(7) == camera
        }),
{
    let cs = video_key_chars(asset, camera, s, e);
    let a = dec_chars(asset);
    lemma_dec_chars_digits(asset);
    crate::timestamp::lemma_civil_field_widths(s);
    crate::timestamp::lemma_civil_field_widths(e);
    lemma_video_ts_no_slash(s);
    lemma_video_ts_no_slash(e);
    let p1 = 5 + a.len() as int;
    let p2 = p1 + 1 + 7 + camera.len() as int;
    let flen: int = 41;
    assert(cs.len() == p2 + 1 + flen);
    assert(cs[p1] == '/');
    assert(cs[p2] == '/');
    assert forall|k: int| 0 <= k < p1 implies cs[k] != '/' by {
        assert(('/' as u32) == 47);
        if k >= 5 {
            assert(cs[k] == a[k - 5]);
            assert(is_digit_char(a[k - 5]));
        }
    }
    assert forall|k: int| p1 + 1 <= k < p2 implies cs[k] != '/' by {
        assert(('/' as u32) == 47);
        if k >= p1 + 8 {
            assert(cs[k] == camera[k - (p1 + 8)]);
            lemma_camera_char_not_slash(camera[k - (p1 + 8)]);
        }
    }
    assert forall|k: int| p2 + 1 <= k < cs.len() implies cs[k] != '/' by {
        assert(cs[k] == video_file_chars(s, e)[k - (p2 + 1)]);
        lemma_video_file_no_slash(s, e, k - (p2 + 1));
    }
    lemma_find_first(cs, '/', 0, p1);
    lemma_find_first(cs, '/', p1 + 1, p2);
    lemma_find_none(cs, '/', p2 + 1);
    assert(cs.subrange(p2 + 1, cs.len() as int) =~= video_file_chars(s, e));
    assert(cs.subrange(0, p1).subrange(0, 5) =~= lit_asset());
    assert(cs.subrange(0, p1).subrange(5, p1) =~= a);
    assert(cs.subrange(p1 + 1, p2).take(7) =~= lit_camera());
    assert(cs.subrange(p1 + 1, p2).skip(7) =~= camera);
}

/// Printing then parsing a raw video object key is the identity.
#[verifier::rlimit(100)]
pub proof fn lemma_video_key_round_trip(
    asset: nat,
    camera: Seq<char>,
    s: CivilDateTime,
    e: CivilDateTime,
)
    requires
        asset <= u32::MAX,
        camera_id_ok(camera),
        valid_civil(s),
        valid_civil(e),
        epoch_secs(e) > epoch_secs(s),
    ensures
        spec_parse_video_key(video_key_chars(asset, camera, s, e)) == Some(
            (asset as u32, camera, s, e),
        ),
{
    let cs = video_key_chars(asset, camera, s, e);
    let a = dec_chars(asset);
    lemma_dec_chars_digits(asset);
    crate::timestamp::lemma_civil_field_widths(s);
    crate::timestamp::lemma_civil_field_widths(e);
    lemma_video_key_splits(asset, camera, s, e);
    let p1 = 5 + a.len() as int;
    let p2 = p1 + 8 + camera.len() as int;
    lemma_dec_val_of_dec_chars(asset);
    crate::text::lemma_dec_val_bound(a);
    assert(spec_parse_asset_part(cs.subrange(0, p1)) == Some(asset as u32));
    lemma_video_file_round_trip(s, e);
}

/// No character of the file portion is a slash.
proof fn lemma_video_file_no_slash(s: CivilDateTime, e: CivilDateTime, i: int)
    requires
        0 <= i < video_file_chars(s, e).len(),
    ensures
        video_file_chars(s, e)[i] != '/',
{
    lemma_video_ts_no_slash(s);
    lemma_video_ts_no_slash(e);
    assert(('/' as u32) == 47);
}

/// Parses the file portion of a raw video object key.
fn parse_video_file(name: &str, from: usize) -> (r: Option<(CivilDateTime, CivilDateTime)>)
    requires
        from <= name@.len(),
    ensures
        r == spec_parse_video_file(name@.subrange(from as int, name@.len() as int)),
{
    let n = name.unicode_len();
    let ghost cs = name@.subrange(from as int, name@.len() as int);
    if n - from != 41 {
        return None;
    }
    proof {
        reveal_strlit(".mp4");
        assert(lit_mp4() =~= ".mp4"@);
    }
    if !(name.get_char(from) == 'V' && name.get_char(from + 1) == '_' && name.get_char(from + 19)
        == '_') {
        return None;
    }
    if !(name.get_char(from + 37) == '.' && name.get_char(from + 38) == 'm' && name.get_char(
        from + 39,
    ) == 'p' && name.get_char(from + 40) == '4') {
        proof {
            assert(cs.subrange(37, 41) != lit_mp4());
        }
        return None;
    }
    proof {
        assert(cs.subrange(37, 41) =~= lit_mp4());
    }
    let st_str = name.substring_char(from + 2, from + 19);
    let en_str = name.substring_char(from + 20, from + 37);
    proof {
        assert(st_str@ =~= cs.subrange(2, 19));
        assert(en_str@ =~= cs.subrange(20, 37));
    }
    let st = parse_video_ts(st_str);
    let en = parse_video_ts(en_str);
    match (st, en) {
        (Some(st), Some(en)) => {
            let st_secs = crate::civil::civil_to_secs(&st);
            let en_secs = crate::civil::civil_to_secs(&en);
            if en_secs > st_secs {
                Some((st, en))
            } else {
                None
            }
        },
        _ => None,
    }
}

/// Parses a raw video object key into asset, camera and interval.
#[verifier::rlimit(100)]
pub fn parse_video_key(name: &str) -> (r: Option<VideoKey>)
    ensures
        match r {
            Some(k) => spec_parse_video_key(name@) == Some(
                (k.asset, k.camera_id@, k.start, k.end),
            ),
            None => spec_parse_video_key(name@) is None,
        },
{
    let n = name.unicode_len();
    let ghost cs = name@;
    let p1 = match find_char_from(name, '/', 0) {
        Some(p) => p,
        None => {
            return None;
        },
    };
    proof {
        reveal_strlit("asset");
        assert(lit_asset() =~= "asset"@);
    }
    if p1 <= 5 {
        proof {
            if cs.subrange(0, p1 as int).len() > 5 {
                assert(false);
            }
        }
        return None;
    }
    if !(name.get_char(0) == 'a' && name.get_char(1) == 's' && name.get_char(2) == 's'
        && name.get_char(3) == 'e' && name.get_char(4) == 't') {
        proof {
            assert(cs.subrange(0, p1 as int).subrange(0, 5) != lit_asset());
        }
        return None;
    }
    proof {
        assert(cs.subrange(0, p1 as int).subrange(0, 5) =~= lit_asset());
        assert(cs.subrange(0, p1 as int).subrange(5, p1 as int) =~= cs.subrange(5, p1 as int));
    }
    let asset64 = match parse_dec_range(name, 5, p1) {
        Some(v) => v,
        None => {
            return None;
        },
    };
    if asset64 > 0xffff_ffff {
        return None;
    }
    let asset: u32 = asset64 as u32;
    match find_char_from(name, '/', p1 + 1) {
        None => {
            let file = parse_video_file(name, p1 + 1);
            match file {
                Some((st, en)) => {
                    proof {
                        reveal_strlit("default");
                        assert("default"@ =~= lit_default());
                    }
                    Some(
                        VideoKey {
                            asset,
                            camera_id: String::from_str("default"),
                            start: st,
                            end: en,
                        },
                    )
                },
                None => None,
            }
        },
        Some(p2) => {
            if find_char_from(name, '/', p2 + 1).is_some() {
                return None;
            }
            proof {
                reveal_strlit("camera_");
                assert(lit_camera() =~= "camera_"@);
            }
            let has_prefix = p2 - (p1 + 1) >= 7 && name.get_char(p1 + 1) == 'c' && name.get_char(
                p1 + 2,
            ) == 'a' && name.get_char(p1 + 3) == 'm' && name.get_char(p1 + 4) == 'e'
                && name.get_char(p1 + 5) == 'r' && name.get_char(p1 + 6) == 'a' && name.get_char(
                p1 + 7,
            ) == '_';
            let camera = if has_prefix {
                proof {
                    assert(cs.subrange(p1 + 1, p2 as int).take(7) =~= lit_camera());
                    assert(cs.subrange(p1 + 1, p2 as int).skip(7) =~= cs.subrange(
                        p1 + 8,
                        p2 as int,
                    ));
                }
                name.substring_char(p1 + 8, p2)
            } else {
                proof {
                    let part = cs.subrange(p1 + 1, p2 as int);
                    if part.len() >= 7 && part.take(7) == lit_camera() {
                        assert(part[0] == 'c' && part[1] == 'a' && part[2] == 'm' && part[3] == 'e'
                            && part[4] == 'r' && part[5] == 'a' && part[6] == '_');
                        assert(false);
                    }
                }
                name.substring_char(p1 + 1, p2)
            };
            let file = parse_video_file(name, p2 + 1);
            match file {
                Some((st, en)) => Some(
                    VideoKey { asset, camera_id: String::from_str(camera), start: st, end: en },
                ),
                None => None,
            }
        },
    }
}

/// Appends the file portion `V_{start}_{end}.mp4`.
fn push_video_file(out: &mut Vec<u8>, s: &CivilDateTime, e: &CivilDateTime)
    ensures
        chars_of(final(out)@) == chars_of(old(out)@) + video_file_chars(*s, *e),
        ascii_bytes(old(out)@) ==> ascii_bytes(final(out)@),
{
    proof {
        reveal_strlit("V_");
        reveal_strlit("_");
        reveal_strlit(".mp4");
    }
    push_chars(out, "V_");
    push_video_ts(out, s);
    push_chars(out, "_");
    push_video_ts(out, e);
    push_chars(out, ".mp4");
    proof {
        assert("V_"@ =~= seq!['V', '_']);
        assert("_"@ =~= seq!['_']);
        assert(".mp4"@ =~= lit_mp4());
        let b0 = chars_of(old(out)@);
        let p1 = seq!['V', '_'];
        let p2 = video_ts_chars(*s);
        let p3 = seq!['_'];
        let p4 = video_ts_chars(*e);
        let p5 = lit_mp4();
        lemma_seq_assoc(b0, p1, p2);
        lemma_seq_assoc(b0, p1 + p2, p3);
        lemma_seq_assoc(b0, p1 + p2 + p3, p4);
        lemma_seq_assoc(b0, p1 + p2 + p3 + p4, p5);
        assert(chars_of(out@) == b0 + video_file_chars(*s, *e));
    }
}

/// Prints the raw video object key for an upload; the result parses
/// back to the same asset, camera and interval.
pub fn format_video_key(asset: u32, camera: &str, s: &CivilDateTime, e: &CivilDateTime) -> (r:
    String)
    requires
        camera_id_ok(camera@),
        valid_civil(*s),
        valid_civil(*e),
        epoch_secs(*e) > epoch_secs(*s),
    ensures
        r@ == video_key_chars(asset as nat, camera@, *s, *e),
        spec_parse_video_key(r@) == Some((asset, camera@, *s, *e)),
{
    let mut out: Vec<u8> = Vec::new();
    proof {
        reveal_strlit("asset");
        reveal_strlit("/");
        reveal_strlit("camera_");
        assert forall|i: int| 0 <= i < camera@.len() implies (#[trigger] camera@[i] as u32)
            < 128 by {
            assert(is_camera_char(camera@[i]));
        }
    }
    push_chars(&mut out, "asset");
    push_dec(&mut out, asset as u64);
    push_chars(&mut out, "/");
    push_chars(&mut out, "camera_");
    push_chars(&mut out, camera);
    push_chars(&mut out, "/");
    push_video_file(&mut out, s, e);
    proof {
        assert("asset"@ =~= lit_asset());
        assert("/"@ =~= seq!['/']);
        assert("camera_"@ =~= lit_camera());
        crate::text::lemma_dec_bytes_chars(asset as nat);
        let b0 = Seq::<char>::empty();
        assert(chars_of(Seq::<u8>::empty()) =~= b0);
        let p1 = lit_asset();
        let p2 = dec_chars(asset as nat);
        let p3 = seq!['/'];
        let p4 = lit_camera();
        let p5 = camera@;
        let p6 = seq!['/'];
        let p7 = video_file_chars(*s, *e);
        lemma_seq_assoc(b0, p1, p2);
        lemma_seq_assoc(b0, p1 + p2, p3);
        lemma_seq_assoc(b0, p1 + p2 + p3, p4);
        lemma_seq_assoc(b0, p1 + p2 + p3 + p4, p5);
        lemma_seq_assoc(b0, p1 + p2 + p3 + p4 + p5, p6);
        lemma_seq_assoc(b0, p1 + p2 + p3 + p4 + p5 + p6, p7);
        assert(b0 + (p1 + p2 + p3 + p4 + p5 + p6 + p7) =~= p1 + p2 + p3 + p4 + p5 + p6 + p7);
        assert(chars_of(out@) == video_key_chars(asset as nat, camera@, *s, *e));
        lemma_video_key_round_trip(asset as nat, camera@, *s, *e);
        assert forall|i: int| 0 <= i < out@.len() implies out@[i] < 128 by {}
    }
    ascii_to_string(out)
}

/// Printing then parsing the file portion is the identity.
proof fn lemma_video_file_round_trip(s: CivilDateTime, e: CivilDateTime)
    requires
        valid_civil(s),
        valid_civil(e),
        epoch_secs(e) > epoch_secs(s),
    ensures
        spec_parse_video_file(video_file_chars(s, e)) == Some((s, e)),
{
    let cs = video_file_chars(s, e);
    crate::timestamp::lemma_civil_field_widths(s);
    crate::timestamp::lemma_civil_field_widths(e);
    assert(cs.len() == 41);
    assert(cs[0] == 'V');
    assert(cs[1] == '_');
    assert(cs[19] == '_');
    assert(cs.subrange(37, 41) =~= lit_mp4());
    assert(cs.subrange(2, 19) =~= video_ts_chars(s));
    assert(cs.subrange(20, 37) =~= video_ts_chars(e));
    lemma_video_ts_round_trip(s);
    lemma_video_ts_round_trip(e);
}

/// What parsing a spool segment file name (`segment_%Y%m%d_%H%M%S.mp4`)
/// yields: its start time, when well-formed and valid.
pub open spec fn spec_parse_segment_name(cs: Seq<char>) -> Option<CivilDateTime> {
    if cs.len() == 27 && cs.subrange(0, 8) == lit_segment() && cs[16] == '_' && cs.subrange(23, 27)
        == lit_mp4() {
        let fy = spec_parse_dec(cs.subrange(8, 12));
        let fmo = spec_parse_dec(cs.subrange(12, 14));
        let fd = spec_parse_dec(cs.subrange(14, 16));
        let fh = spec_parse_dec(cs.subrange(17, 19));
        let fmi = spec_parse_dec(cs.subrange(19, 21));
        let fs = spec_parse_dec(cs.subrange(21, 23));
        if fy is Some && fmo is Some && fd is Some && fh is Some && fmi is Some && fs is Some
            && fy.unwrap() <= 9999 && fmo.unwrap() <= 99 && fd.unwrap() <= 99 && fh.unwrap() <= 99
            && fmi.unwrap() <= 99 && fs.unwrap() <= 99 {
            let c = CivilDateTime {
                year: fy.unwrap() as u32,
                month: fmo.unwrap() as u8,
                day: fd.unwrap() as u8,
                hour: fh.unwrap() as u8,
                minute: fmi.unwrap() as u8,
                second: fs.unwrap() as u8,
            };
            if valid_civil(c) {
                Some(c)
            } else {
                None
            }
        } else {
            None
        }
    } else {
        None
    }
}

pub open spec fn lit_segment() -> Seq<char> {
    seq!['s', 'e', 'g', 'm', 'e', 'n', 't', '_']
}

/// Parses a spool segment file name into its start time.
pub fn parse_segment_name(name: &str) -> (r: Option<CivilDateTime>)
    ensures
        r == spec_parse_segment_name(name@),
{
    let n = name.unicode_len();
    let ghost cs = name@;
    proof {
        reveal_strlit("segment_");
        reveal_strlit(".mp4");
        assert(lit_segment() =~= "segment_"@);
        assert(lit_mp4() =~= ".mp4"@);
    }
    if n != 27 {
        return None;
    }
    if !(name.get_char(0) == 's' && name.get_char(1) == 'e' && name.get_char(2) == 'g'
        && name.get_char(3) == 'm' && name.get_char(4) == 'e' && name.get_char(5) == 'n'
        && name.get_char(6) == 't' && name.get_char(7) == '_') {
        proof {
            assert(cs.subrange(0, 8) != lit_segment());
        }
        return None;
    }
    if !(name.get_char(16) == '_' && name.get_char(23) == '.' && name.get_char(24) == 'm'
        && name.get_char(25) == 'p' && name.get_char(26) == '4') {
        proof {
            if cs.subrange(23, 27) == lit_mp4() {
                assert(cs[23] == '.' && cs[24] == 'm' && cs[25] == 'p' && cs[26] == '4');
            }
        }
        return None;
    }
    proof {
        assert(cs.subrange(0, 8) =~= lit_segment());
        assert(cs.subrange(23, 27) =~= lit_mp4());
    }
    let fy = parse_dec_range(name, 8, 12);
    let fmo = parse_dec_range(name, 12, 14);
    let fd = parse_dec_range(name, 14, 16);
    let fh = parse_dec_range(name, 17, 19);
    let fmi = parse_dec_range(name, 19, 21);
    let fs = parse_dec_range(name, 21, 23);
    match (fy, fmo, fd, fh, fmi, fs) {
        (Some(y), Some(mo), Some(d), Some(h), Some(mi), Some(sec)) => {
            if !(y <= 9999 && mo <= 99 && d <= 99 && h <= 99 && mi <= 99 && sec <= 99) {
                return None;
            }
            let c = CivilDateTime {
                year: y as u32,
                month: mo as u8,
                day: d as u8,
                hour: h as u8,
                minute: mi as u8,
                second: sec as u8,
            };
            if 1970 <= y && 1 <= mo && mo <= 12 && 1 <= d && d as u8
                <= crate::civil::days_in_month_x(y as u32, mo as u8) && h <= 23 && mi <= 59 && sec
                <= 59 {
                Some(c)
            } else {
                None
            }
        },
        _ => None,
    }
}

pub open spec fn lit_rising() -> Seq<char> {
    seq!['r', 'i', 's', 'i', 'n', 'g']
}

pub open spec fn lit_falling() -> Seq<char> {
    seq!['f', 'a', 'l', 'l', 'i', 'n', 'g']
}

/// `{prefix}/asset{N}/camera_{CID}/C_{ts}_ch{NN}_{rising|falling}.mp4`.
pub open spec fn clip_key_chars(
    prefix: Seq<char>,
    asset: nat,
    camera: Seq<char>,
    center: CivilDateTime,
    ch: nat,
    rising: bool,
) -> Seq<char> {
    prefix + seq!['/'] + lit_asset() + dec_chars(asset) + seq!['/'] + lit_camera() + camera + seq![
        '/',
        'C',
        '_',
    ] + compact_ts_chars(center) + seq!['_', 'c', 'h'] + dec_chars_pad(ch, 2) + seq!['_'] + (
    if rising {
        lit_rising()
    } else {
        lit_falling()
    }) + lit_mp4()
}

/// Prints the object key of a generated clip.
#[verifier::rlimit(100)]
pub fn clip_object_key(
    prefix: &str,
    asset: u32,
    camera: &str,
    center: &CivilDateTime,
    ch: u8,
    rising: bool,
) -> (r: String)
    requires
        ascii_chars(prefix@),
        ascii_chars(camera@),
    ensures
        r@ == clip_key_chars(prefix@, asset as nat, camera@, *center, ch as nat, rising),
{
    let mut out: Vec<u8> = Vec::new();
    proof {
        reveal_strlit("/");
        reveal_strlit("asset");
        reveal_strlit("camera_");
        reveal_strlit("/C_");
        reveal_strlit("_ch");
        reveal_strlit("_");
        reveal_strlit("rising");
        reveal_strlit("falling");
        reveal_strlit(".mp4");
    }
    push_chars(&mut out, prefix);
    push_chars(&mut out, "/");
    push_chars(&mut out, "asset");
    push_dec(&mut out, asset as u64);
    push_chars(&mut out, "/");
    push_chars(&mut out, "camera_");
    push_chars(&mut out, camera);
    push_chars(&mut out, "/C_");
    push_compact_ts(&mut out, center);
    push_chars(&mut out, "_ch");
    push_dec_pad(&mut out, ch as u64, 2);
    push_chars(&mut out, "_");
    if rising {
        push_chars(&mut out, "rising");
    } else {
        push_chars(&mut out, "falling");
    }
    push_chars(&mut out, ".mp4");
    proof {
        assert("/"@ =~= seq!['/']);
        assert("asset"@ =~= lit_asset());
        assert("camera_"@ =~= lit_camera());
        assert("/C_"@ =~= seq!['/', 'C', '_']);
        assert("_ch"@ =~= seq!['_', 'c', 'h']);
        assert("_"@ =~= seq!['_']);
        assert("rising"@ =~= lit_rising());
        assert("falling"@ =~= lit_falling());
        assert(".mp4"@ =~= lit_mp4());
        crate::text::lemma_dec_bytes_chars(asset as nat);
        let b0 = prefix@;
        let p1 = seq!['/'];
        let p2 = lit_asset();
        let p3 = dec_chars(asset as nat);
        let p4 = seq!['/'];
        let p5 = lit_camera();
        let p6 = camera@;
        let p7 = seq!['/', 'C', '_'];
        let p8 = compact_ts_chars(*center);
        let p9 = seq!['_', 'c', 'h'];
        let p10 = dec_chars_pad(ch as nat, 2);
        let p11 = seq!['_'];
        let p12 = if rising {
            lit_rising()
        } else {
            lit_falling()
        };
        let p13 = lit_mp4();
        lemma_seq_assoc(b0, p1, p2);
        lemma_seq_assoc(b0, p1 + p2, p3);
        lemma_seq_assoc(b0, p1 + p2 + p3, p4);
        lemma_seq_assoc(b0, p1 + p2 + p3 + p4, p5);
        lemma_seq_assoc(b0, p1 + p2 + p3 + p4 + p5, p6);
        lemma_seq_assoc(b0, p1 + p2 + p3 + p4 + p5 + p6, p7);
        lemma_seq_assoc(b0, p1 + p2 + p3 + p4 + p5 + p6 + p7, p8);
        lemma_seq_assoc(b0, p1 + p2 + p3 + p4 + p5 + p6 + p7 + p8, p9);
        lemma_seq_assoc(b0, p1 + p2 + p3 + p4 + p5 + p6 + p7 + p8 + p9, p10);
        lemma_seq_assoc(b0, p1 + p2 + p3 + p4 + p5 + p6 + p7 + p8 + p9 + p10, p11);
        lemma_seq_assoc(b0, p1 + p2 + p3 + p4 + p5 + p6 + p7 + p8 + p9 + p10 + p11, p12);
        lemma_seq_assoc(b0, p1 + p2 + p3 + p4 + p5 + p6 + p7 + p8 + p9 + p10 + p11 + p12, p13);
        assert(chars_of(out@) == clip_key_chars(
            prefix@,
            asset as nat,
            camera@,
            *center,
            ch as nat,
            rising,
        ));
        assert forall|i: int| 0 <= i < out@.len() implies out@[i] < 128 by {}
    }
    ascii_to_string(out)
}

pub open spec fn lit_part() -> Seq<char> {
    seq!['p', 'a', 'r', 't', '-']
}

pub open spec fn lit_parquet_ext() -> Seq<char> {
    seq!['.', 'p', 'a', 'r', 'q', 'u', 'e', 't']
}

/// `part-{NNNN}.parquet`.
pub open spec fn part_name_chars(idx: nat) -> Seq<char> {
    lit_part() + dec_chars_pad(idx, 4) + lit_parquet_ext()
}

/// What parsing an archive part file name yields: its index.
pub open spec fn spec_parse_part_index(cs: Seq<char>) -> Option<u64> {
    if cs.len() >= 14 && cs.subrange(0, 5) == lit_part() && cs.subrange(
        cs.len() - 8,
        cs.len() as int,
    ) == lit_parquet_ext() {
        spec_parse_dec(cs.subrange(5, cs.len() - 8))
    } else {
        None
    }
}

/// Printing then parsing a part file name is the identity.
pub proof fn lemma_part_name_round_trip(idx: u64)
    ensures
        spec_parse_part_index(part_name_chars(idx as nat)) == Some(idx),
{
    let cs = part_name_chars(idx as nat);
    crate::text::lemma_dec_chars_pad(idx as nat, 4);
    assert(cs.subrange(0, 5) =~= lit_part());
    assert(cs.subrange(cs.len() - 8, cs.len() as int) =~= lit_parquet_ext());
    assert(cs.subrange(5, cs.len() - 8) =~= dec_chars_pad(idx as nat, 4));
}

/// Prints an archive part file name; the result parses back to the
/// same index.
pub fn part_file_name(idx: u64) -> (r: String)
    ensures
        r@ == part_name_chars(idx as nat),
        spec_parse_part_index(r@) == Some(idx),
{
    let mut out: Vec<u8> = Vec::new();
    proof {
        reveal_strlit("part-");
        reveal_strlit(".parquet");
    }
    push_chars(&mut out, "part-");
    push_dec_pad(&mut out, idx, 4);
    push_chars(&mut out, ".parquet");
    proof {
        assert("part-"@ =~= lit_part());
        assert(".parquet"@ =~= lit_parquet_ext());
        let b0 = Seq::<char>::empty();
        assert(chars_of(Seq::<u8>::empty()) =~= b0);
        lemma_seq_assoc(b0, lit_part(), dec_chars_pad(idx as nat, 4));
        lemma_seq_assoc(b0, lit_part() + dec_chars_pad(idx as nat, 4), lit_parquet_ext());
        assert(b0 + (lit_part() + dec_chars_pad(idx as nat, 4) + lit_parquet_ext()) =~= lit_part()
            + dec_chars_pad(idx as nat, 4) + lit_parquet_ext());
        assert(chars_of(out@) == part_name_chars(idx as nat));
        lemma_part_name_round_trip(idx);
    }
    ascii_to_string(out)
}

/// Parses an archive part file name into its index.
pub fn parse_part_index(name: &str) -> (r: Option<u64>)
    ensures
        r == spec_parse_part_index(name@),
{
    let n = name.unicode_len();
    let ghost cs = name@;
    proof {
        reveal_strlit("part-");
        reveal_strlit(".parquet");
        assert(lit_part() =~= "part-"@);
        assert(lit_parquet_ext() =~= ".parquet"@);
    }
    if n < 14 {
        return None;
    }
    if !(name.get_char(0) == 'p' && name.get_char(1) == 'a' && name.get_char(2) == 'r'
        && name.get_char(3) == 't' && name.get_char(4) == '-') {
        proof {
            assert(cs.subrange(0, 5) != lit_part());
        }
        return None;
    }
    let e = n - 8;
    if !(name.get_char(e) == '.' && name.get_char(e + 1) == 'p' && name.get_char(e + 2) == 'a'
        && name.get_char(e + 3) == 'r' && name.get_char(e + 4) == 'q' && name.get_char(e + 5)
        == 'u' && name.get_char(e + 6) == 'e' && name.get_char(e + 7) == 't') {
        proof {
            if cs.subrange(cs.len() - 8, cs.len() as int) == lit_parquet_ext() {
                assert(cs[e as int] == '.' && cs[e + 1] == 'p' && cs[e + 2] == 'a' && cs[e + 3]
                    == 'r' && cs[e + 4] == 'q' && cs[e + 5] == 'u' && cs[e + 6] == 'e' && cs[e + 7]
                    == 't');
            }
        }
        return None;
    }
    proof {
        assert(cs.subrange(0, 5) =~= lit_part());
        assert(cs.subrange(cs.len() - 8, cs.len() as int) =~= lit_parquet_ext());
    }
    parse_dec_range(name, 5, e)
}

/// `parquet/asset{NNN}/{YYYY-MM-DD}/ch{NN}`: the partition directory
/// of one asset, day and channel.
pub open spec fn archive_dir_chars(asset: nat, date: CivilDateTime, ch: nat) -> Seq<char> {
    seq!['p', 'a', 'r', 'q', 'u', 'e', 't', '/'] + lit_asset() + dec_chars_pad(asset, 3) + seq![
        '/',
    ] + date_chars(date) + seq!['/'] + pad_channel_chars(ch)
}

/// The full path of one archive part file.
pub open spec fn archive_path_chars(
    asset: nat,
    date: CivilDateTime,
    ch: nat,
    idx: nat,
) -> Seq<char> {
    archive_dir_chars(asset, date, ch) + seq!['/'] + part_name_chars(idx)
}

/// Prints the partition directory of an asset, day and channel.
pub fn archive_dir(asset: u32, date: &CivilDateTime, ch: u8) -> (r: String)
    ensures
        r@ == archive_dir_chars(asset as nat, *date, ch as nat),
{
    let mut out: Vec<u8> = Vec::new();
    proof {
        reveal_strlit("parquet/");
        reveal_strlit("asset");
        reveal_strlit("/");
        reveal_strlit("ch");
    }
    push_chars(&mut out, "parquet/");
    push_chars(&mut out, "asset");
    push_dec_pad(&mut out, asset as u64, 3);
    push_chars(&mut out, "/");
    push_date(&mut out, date);
    push_chars(&mut out, "/");
    push_chars(&mut out, "ch");
    push_dec_pad(&mut out, ch as u64, 2);
    proof {
        assert("parquet/"@ =~= seq!['p', 'a', 'r', 'q', 'u', 'e', 't', '/']);
        assert("asset"@ =~= lit_asset());
        assert("/"@ =~= seq!['/']);
        assert("ch"@ =~= seq!['c', 'h']);
        let b0 = Seq::<char>::empty();
        assert(chars_of(Seq::<u8>::empty()) =~= b0);
        let p1 = seq!['p', 'a', 'r', 'q', 'u', 'e', 't', '/'];
        let p2 = lit_asset();
        let p3 = dec_chars_pad(asset as nat, 3);
        let p4 = seq!['/'];
        let p5 = date_chars(*date);
        let p6 = seq!['/'];
        let p7 = pad_channel_chars(ch as nat);
        lemma_seq_assoc(b0, p1, p2);
        lemma_seq_assoc(b0, p1 + p2, p3);
        lemma_seq_assoc(b0, p1 + p2 + p3, p4);
        lemma_seq_assoc(b0, p1 + p2 + p3 + p4, p5);
        lemma_seq_assoc(b0, p1 + p2 + p3 + p4 + p5, p6);
        lemma_seq_assoc(b0, p1 + p2 + p3 + p4 + p5 + p6, p7);
        assert(b0 + (p1 + p2 + p3 + p4 + p5 + p6 + p7) =~= p1 + p2 + p3 + p4 + p5 + p6 + p7);
        assert(chars_of(out@) == archive_dir_chars(asset as nat, *date, ch as nat));
        assert(pad_channel_chars(ch as nat) == seq!['c', 'h'] + dec_chars_pad(ch as nat, 2));
    }
    ascii_to_string(out)
}

/// Prints the full path of one archive part file.
pub fn archive_path(asset: u32, date: &CivilDateTime, ch: u8, idx: u64) -> (r: String)
    ensures
        r@ == archive_path_chars(asset as nat, *date, ch as nat, idx as nat),
{
    let dir = archive_dir(asset, date, ch);
    let mut out: Vec<u8> = Vec::new();
    proof {
        reveal_strlit("/");
        assert forall|i: int| 0 <= i < dir@.len() implies (#[trigger] dir@[i] as u32) < 128 by {
            lemma_archive_dir_ascii(asset as nat, *date, ch as nat, i);
        }
    }
    push_chars(&mut out, dir.as_str());
    push_chars(&mut out, "/");
    let part = part_file_name(idx);
    proof {
        assert forall|i: int| 0 <= i < part@.len() implies (#[trigger] part@[i] as u32) < 128 by {
            lemma_part_name_ascii(idx as nat, i);
        }
    }
    push_chars(&mut out, part.as_str());
    proof {
        assert("/"@ =~= seq!['/']);
        let b0 = Seq::<char>::empty();
        assert(chars_of(Seq::<u8>::empty()) =~= b0);
        lemma_seq_assoc(b0, dir@, seq!['/']);
        lemma_seq_assoc(b0, dir@ + seq!['/'], part@);
        assert(b0 + (dir@ + seq!['/'] + part@) =~= dir@ + seq!['/'] + part@);
        assert(chars_of(out@) == archive_path_chars(asset as nat, *date, ch as nat, idx as nat));
    }
    ascii_to_string(out)
}

/// Every character of a partition directory is ASCII.
proof fn lemma_archive_dir_ascii(asset: nat, date: CivilDateTime, ch: nat, i: int)
    requires
        0 <= i < archive_dir_chars(asset, date, ch).len(),
    ensures
        (archive_dir_chars(asset, date, ch)[i] as u32) < 128,
{
    lemma_grammar_digits_ascii();
    crate::text::lemma_dec_chars_pad(asset as nat, 3);
    crate::text::lemma_dec_chars_pad(date.year as nat, 4);
    crate::text::lemma_dec_chars_pad(date.month as nat, 2);
    crate::text::lemma_dec_chars_pad(date.day as nat, 2);
    crate::text::lemma_dec_chars_pad(ch as nat, 2);
}

/// Every character of a part file name is ASCII.
proof fn lemma_part_name_ascii(idx: nat, i: int)
    requires
        0 <= i < part_name_chars(idx).len(),
    ensures
        (part_name_chars(idx)[i] as u32) < 128,
{
    lemma_grammar_digits_ascii();
    crate::text::lemma_dec_chars_pad(idx, 4);
}

/// Digit characters are ASCII.
proof fn lemma_grammar_digits_ascii()
    ensures
        forall|c: char| is_digit_char(c) ==> (c as u32) < 128,
{
}

} // verus!
