//! The per-channel wire record: a length-prefixed frame carrying a
//! timestamp string and the batch's sample values, and the transpose
//! that fans a device batch out per channel.
//!
//! Values travel as 64-bit patterns; the frame fixes little-endian
//! layout so any reader can reconstruct `timestamp, values`.

use vstd::prelude::*;
use crate::text::{ascii_chars, ascii_to_string, chars_of};

verus! {

/// The four little-endian bytes of a 32-bit count.
pub open spec fn le32(n: u32) -> Seq<u8> {
    seq![n as u8, (n >> 8) as u8, (n >> 16) as u8, (n >> 24) as u8]
}

/// The eight little-endian bytes of a 64-bit value.
pub open spec fn le64(x: u64) -> Seq<u8> {
    seq![
        x as u8,
        (x >> 8) as u8,
        (x >> 16) as u8,
        (x >> 24) as u8,
        (x >> 32) as u8,
        (x >> 40) as u8,
        (x >> 48) as u8,
        (x >> 56) as u8,
    ]
}

/// The number the four little-endian bytes denote.
pub open spec fn le32_val(b: Seq<u8>) -> u32
    recommends
        b.len() == 4,
{
    (b[0] as u32) | ((b[1] as u32) << 8) | ((b[2] as u32) << 16) | ((b[3] as u32) << 24)
}

/// The value the eight little-endian bytes denote.
pub open spec fn le64_val(b: Seq<u8>) -> u64
    recommends
        b.len() == 8,
{
    (b[0] as u64) | ((b[1] as u64) << 8) | ((b[2] as u64) << 16) | ((b[3] as u64) << 24) | ((
    b[4] as u64) << 32) | ((b[5] as u64) << 40) | ((b[6] as u64) << 48) | ((b[7] as u64) << 56)
}

/// Reading back the bytes of a 32-bit count is the identity.
pub proof fn lemma_le32_round_trip(n: u32)
    ensures
        le32_val(le32(n)) == n,
{
    assert((n as u8 as u32) | (((n >> 8) as u8 as u32) << 8) | (((n >> 16) as u8 as u32) << 16) | ((
    (n >> 24) as u8 as u32) << 24) == n) by (bit_vector);
}

/// Reading back the bytes of a 64-bit value is the identity.
pub proof fn lemma_le64_round_trip(x: u64)
    ensures
        le64_val(le64(x)) == x,
{
    assert((x as u8 as u64) | (((x >> 8) as u8 as u64) << 8) | (((x >> 16) as u8 as u64) << 16) | ((
    (x >> 24) as u8 as u64) << 24) | (((x >> 32) as u8 as u64) << 32) | (((x >> 40) as u8 as u64)
        << 40) | (((x >> 48) as u8 as u64) << 48) | (((x >> 56) as u8 as u64) << 56) == x)
        by (bit_vector);
}

/// The bytes a value sequence contributes, in order.
pub open spec fn values_bytes(vals: Seq<u64>) -> Seq<u8>
    decreases vals.len(),
{
    if vals.len() == 0 {
        Seq::empty()
    } else {
        values_bytes(vals.drop_last()) + le64(vals.last())
    }
}

/// An ASCII timestamp's bytes, one per character.
pub open spec fn ts_bytes(ts: Seq<char>) -> Seq<u8> {
    Seq::new(ts.len(), |i: int| (ts[i] as u32) as u8)
}

/// A frame that can be encoded: ASCII timestamp, counts within the
/// length prefixes.
pub open spec fn wf_frame(ts: Seq<char>, vals: Seq<u64>) -> bool {
    ascii_chars(ts) && ts.len() <= 0xffff_ffff && vals.len() <= 0xffff_ffff
}

/// The frame's wire bytes: timestamp length, timestamp, value count,
/// values, all little-endian.
pub open spec fn frame_bytes(ts: Seq<char>, vals: Seq<u64>) -> Seq<u8> {
    le32(ts.len() as u32) + ts_bytes(ts) + le32(vals.len() as u32) + values_bytes(vals)
}

/// What decoding a byte string yields: the timestamp and values,
/// defined exactly when the bytes are a well-formed frame.
pub open spec fn spec_decode_frame(b: Seq<u8>) -> Option<(Seq<char>, Seq<u64>)> {
    if b.len() < 8 {
        None
    } else {
        let n1 = le32_val(b.subrange(0, 4)) as int;
        if b.len() < 8 + n1 {
            None
        } else {
            let tsb = b.subrange(4, 4 + n1);
            let n2 = le32_val(b.subrange(4 + n1, 8 + n1)) as int;
            if b.len() != 8 + n1 + 8 * n2 {
                None
            } else if !(forall|i: int| 0 <= i < tsb.len() ==> (#[trigger] tsb[i]) < 128) {
                None
            } else {
                Some(
                    (
                        chars_of(tsb),
                        Seq::new(
                            n2 as nat,
                            |i: int| le64_val(b.subrange(8 + n1 + 8 * i, 8 + n1 + 8 * i + 8)),
                        ),
                    ),
                )
            }
        }
    }
}

/// Decoding inverts encoding: a frame's bytes decode to the
/// timestamp and values it was built from.
pub proof fn lemma_frame_round_trip(ts: Seq<char>, vals: Seq<u64>)
    requires
        wf_frame(ts, vals),
    ensures
        spec_decode_frame(frame_bytes(ts, vals)) == Some((ts, vals)),
{
    let b = frame_bytes(ts, vals);
    let n1 = ts.len() as int;
    let n2 = vals.len() as int;
    lemma_values_bytes_len(vals);
    assert(b.len() == 8 + n1 + 8 * n2);
    assert(b.subrange(0, 4) =~= le32(ts.len() as u32));
    lemma_le32_round_trip(ts.len() as u32);
    assert(b.subrange(4, 4 + n1) =~= ts_bytes(ts));
    assert(b.subrange(4 + n1, 8 + n1) =~= le32(vals.len() as u32));
    lemma_le32_round_trip(vals.len() as u32);
    assert forall|i: int| 0 <= i < ts_bytes(ts).len() implies (#[trigger] ts_bytes(ts)[i])
        < 128 by {
        assert((ts[i] as u32) < 128);
    }
    assert(chars_of(ts_bytes(ts)) =~= ts) by {
        assert forall|i: int| 0 <= i < ts.len() implies chars_of(ts_bytes(ts))[i] == ts[i] by {
            lemma_ascii_byte_char(ts[i]);
        }
    }
    let got = Seq::new(
        n2 as nat,
        |i: int| le64_val(b.subrange(8 + n1 + 8 * i, 8 + n1 + 8 * i + 8)),
    );
    assert forall|i: int| 0 <= i < n2 implies got[i] == vals[i] by {
        lemma_values_bytes_index(vals, i);
        assert(b.subrange(8 + n1 + 8 * i, 8 + n1 + 8 * i + 8) =~= le64(vals[i]));
        lemma_le64_round_trip(vals[i]);
    }
    assert(got =~= vals);
}

/// An ASCII character survives the trip through its byte.
proof fn lemma_ascii_byte_char(c: char)
    requires
        (c as u32) < 128,
    ensures
        (((c as u32) as u8) as char) == c,
{
    let cu = c as u32;
    let b = cu as u8;
    assert((b as char) == c);
}

/// The value block's length.
pub proof fn lemma_values_bytes_len(vals: Seq<u64>)
    ensures
        values_bytes(vals).len() == 8 * vals.len(),
    decreases vals.len(),
{
    if vals.len() > 0 {
        lemma_values_bytes_len(vals.drop_last());
    }
}

/// Each value's eight bytes sit at its offset in the block.
pub proof fn lemma_values_bytes_index(vals: Seq<u64>, i: int)
    requires
        0 <= i < vals.len(),
    ensures
        values_bytes(vals).subrange(8 * i, 8 * i + 8) =~= le64(vals[i]),
    decreases vals.len(),
{
    lemma_values_bytes_len(vals);
    if i == vals.len() - 1 {
        lemma_values_bytes_len(vals.drop_last());
        assert(values_bytes(vals).subrange(8 * i, 8 * i + 8) =~= le64(vals.last()));
    } else {
        lemma_values_bytes_index(vals.drop_last(), i);
        lemma_values_bytes_len(vals.drop_last());
        assert(values_bytes(vals).subrange(8 * i, 8 * i + 8) =~= values_bytes(
            vals.drop_last(),
        ).subrange(8 * i, 8 * i + 8));
    }
}

/// Appends the little-endian bytes of one value.
fn push_le64(out: &mut Vec<u8>, x: u64)
    ensures
        final(out)@ == old(out)@ + le64(x),
{
    let ghost pre = out@;
    out.push(x as u8);
    out.push((x >> 8) as u8);
    out.push((x >> 16) as u8);
    out.push((x >> 24) as u8);
    out.push((x >> 32) as u8);
    out.push((x >> 40) as u8);
    out.push((x >> 48) as u8);
    out.push((x >> 56) as u8);
    proof {
        assert(out@ =~= pre + le64(x));
    }
}

/// Appends the little-endian bytes of one count.
fn push_le32(out: &mut Vec<u8>, n: u32)
    ensures
        final(out)@ == old(out)@ + le32(n),
{
    let ghost pre = out@;
    out.push(n as u8);
    out.push((n >> 8) as u8);
    out.push((n >> 16) as u8);
    out.push((n >> 24) as u8);
    proof {
        assert(out@ =~= pre + le32(n));
    }
}

/// Encodes one per-channel record for publishing.
pub fn encode_frame(timestamp: &str, values: &Vec<u64>) -> (r: Vec<u8>)
    requires
        ascii_chars(timestamp@),
        timestamp@.len() <= 0xffff_ffff,
        values@.len() <= 0xffff_ffff,
    ensures
        r@ == frame_bytes(timestamp@, values@),
        spec_decode_frame(r@) == Some((timestamp@, values@)),
{
    let mut out: Vec<u8> = Vec::new();
    let ts_len = timestamp.unicode_len();
    push_le32(&mut out, ts_len as u32);
    let mut i: usize = 0;
    while i < ts_len
        invariant
            i <= ts_len == timestamp@.len(),
            ascii_chars(timestamp@),
            out@ == le32(timestamp@.len() as u32) + ts_bytes(timestamp@).take(i as int),
        decreases ts_len - i,
    {
        let c = timestamp.get_char(i);
        out.push((c as u32) as u8);
        i += 1;
        proof {
            assert(out@ =~= le32(timestamp@.len() as u32) + ts_bytes(timestamp@).take(i as int));
        }
    }
    proof {
        assert(ts_bytes(timestamp@).take(ts_len as int) =~= ts_bytes(timestamp@));
    }
    push_le32(&mut out, values.len() as u32);
    let ghost head = le32(timestamp@.len() as u32) + ts_bytes(timestamp@) + le32(
        values@.len() as u32,
    );
    let n = values.len();
    let mut j: usize = 0;
    while j < n
        invariant
            j <= n == values@.len(),
            out@ == head + values_bytes(values@.take(j as int)),
        decreases n - j,
    {
        push_le64(&mut out, values[j]);
        j += 1;
        proof {
            assert(values@.take(j as int).drop_last() =~= values@.take(j - 1));
            assert(values@.take(j as int).last() == values@[j - 1]);
            assert(out@ =~= head + values_bytes(values@.take(j as int)));
        }
    }
    proof {
        assert(values@.take(n as int) =~= values@);
        assert(out@ =~= frame_bytes(timestamp@, values@));
        lemma_frame_round_trip(timestamp@, values@);
    }
    out
}

/// Decodes one per-channel record.
#[verifier::rlimit(100)]
pub fn decode_frame(bytes: &Vec<u8>) -> (r: Option<(String, Vec<u64>)>)
    ensures
        match r {
            Some(p) => spec_decode_frame(bytes@) == Some((p.0@, p.1@)),
            None => spec_decode_frame(bytes@) is None,
        },
{
    let total = bytes.len();
    if total < 8 {
        return None;
    }
    let n1 = read_le32(bytes, 0) as usize;
    proof {
        assert(bytes@.subrange(0, 4) == bytes@.subrange(0int, 4int));
    }
    if total - 8 < n1 {
        return None;
    }
    let n2 = read_le32(bytes, 4 + n1) as usize;
    if !((total - 8 - n1) / 8 == n2 && (total - 8 - n1) % 8 == 0) {
        proof {
            assert(total - 8 - n1 == 8 * ((total - 8 - n1) / 8) + (total - 8 - n1) % 8);
            if bytes@.len() == 8 + n1 + 8 * (n2 as int) {
                assert(false);
            }
        }
        return None;
    }
    proof {
        assert(total - 8 - n1 == 8 * (n2 as int));
        assert(bytes@.len() == 8 + n1 + 8 * (n2 as int));
    }
    let mut ts_buf: Vec<u8> = Vec::new();
    let mut i: usize = 0;
    while i < n1
        invariant
            i <= n1,
            total == bytes@.len(),
            8 + n1 <= total,
            n1 as int == le32_val(bytes@.subrange(0, 4)),
            n2 as int == le32_val(bytes@.subrange(4 + n1 as int, 8 + n1 as int)),
            bytes@.len() == 8 + n1 + 8 * (n2 as int),
            ts_buf@ == bytes@.subrange(4, 4 + i as int),
            forall|j: int| 0 <= j < ts_buf@.len() ==> (#[trigger] ts_buf@[j]) < 128,
        decreases n1 - i,
    {
        let b = bytes[4 + i];
        if b >= 128 {
            proof {
                assert(bytes@.subrange(4, 4 + n1 as int)[i as int] == b);
            }
            return None;
        }
        ts_buf.push(b);
        i += 1;
        proof {
            assert(ts_buf@ =~= bytes@.subrange(4, 4 + i as int));
        }
    }
    proof {
        assert(ts_buf@ =~= bytes@.subrange(4, 4 + n1 as int));
    }
    let ts = ascii_to_string(ts_buf);
    let mut vals: Vec<u64> = Vec::new();
    let mut k: usize = 0;
    while k < n2
        invariant
            k <= n2,
            total == bytes@.len(),
            bytes@.len() == 8 + n1 + 8 * (n2 as int),
            vals@.len() == k,
            forall|j: int|
                0 <= j < k ==> vals@[j] == le64_val(
                    bytes@.subrange(8 + n1 + 8 * j, 8 + n1 + 8 * j + 8),
                ),
        decreases n2 - k,
    {
        let base = 8 + n1 + 8 * k;
        let v: u64 = (bytes[base] as u64) | ((bytes[base + 1] as u64) << 8) | ((bytes[base
            + 2] as u64) << 16) | ((bytes[base + 3] as u64) << 24) | ((bytes[base + 4] as u64)
            << 32) | ((bytes[base + 5] as u64) << 40) | ((bytes[base + 6] as u64) << 48) | ((
        bytes[base + 7] as u64) << 56);
        proof {
            assert(v == le64_val(bytes@.subrange(8 + n1 + 8 * (k as int), 8 + n1 + 8 * (k as int)
                + 8))) by {
                let sub = bytes@.subrange(8 + n1 + 8 * (k as int), 8 + n1 + 8 * (k as int) + 8);
                assert(sub[0] == bytes@[8 + n1 + 8 * (k as int)]);
                assert(sub[1] == bytes@[8 + n1 + 8 * (k as int) + 1]);
                assert(sub[2] == bytes@[8 + n1 + 8 * (k as int) + 2]);
                assert(sub[3] == bytes@[8 + n1 + 8 * (k as int) + 3]);
                assert(sub[4] == bytes@[8 + n1 + 8 * (k as int) + 4]);
                assert(sub[5] == bytes@[8 + n1 + 8 * (k as int) + 5]);
                assert(sub[6] == bytes@[8 + n1 + 8 * (k as int) + 6]);
                assert(sub[7] == bytes@[8 + n1 + 8 * (k as int) + 7]);
            }
        }
        vals.push(v);
        k += 1;
    }
    proof {
        let expected = Seq::new(
            n2 as nat,
            |j: int| le64_val(bytes@.subrange(8 + n1 as int + 8 * j, 8 + n1 as int + 8 * j + 8)),
        );
        assert(vals@ =~= expected);
        assert(ts@ == chars_of(bytes@.subrange(4, 4 + n1 as int)));
    }
    Some((ts, vals))
}

/// Reads a little-endian count at the given offset.
fn read_le32(bytes: &Vec<u8>, at: usize) -> (r: u32)
    requires
        at + 4 <= bytes@.len(),
    ensures
        r == le32_val(bytes@.subrange(at as int, at as int + 4)),
{
    let n = bytes.len();
    let r = (bytes[at] as u32) | ((bytes[at + 1] as u32) << 8) | ((bytes[at + 2] as u32) << 16) | ((
    bytes[at + 3] as u32) << 24);
    proof {
        let sub = bytes@.subrange(at as int, at as int + 4);
        assert(sub[0] == bytes@[at as int]);
        assert(sub[1] == bytes@[at as int + 1]);
        assert(sub[2] == bytes@[at as int + 2]);
        assert(sub[3] == bytes@[at as int + 3]);
    }
    r
}

/// Splits an interleaved device batch into one value list per
/// channel: scan after scan, one value per enabled channel.
pub fn transpose_batch(batch: &Vec<u64>, num_channels: usize) -> (r: Vec<Vec<u64>>)
    requires
        num_channels > 0,
        (batch@.len() as int) % (num_channels as int) == 0,
    ensures
        r@.len() == num_channels,
        forall|c: int|
            0 <= c < num_channels ==> (#[trigger] r@[c])@.len() * (num_channels as int)
                == batch@.len(),
        forall|c: int, s: int|
            0 <= c < num_channels && 0 <= s < (batch@.len() as int) / (num_channels as int) ==> (
            #[trigger] r@[c]@[s]) == batch@[s * (num_channels as int) + c],
{
    let total_len = batch.len();
    let scans = total_len / num_channels;
    proof {
        assert(batch@.len() == scans * (num_channels as int) + (batch@.len() as int) % (num_channels as int)) by (nonlinear_arith)
            requires
                num_channels > 0,
                scans == (batch@.len() as int) / (num_channels as int),
        ;
    }
    let mut r: Vec<Vec<u64>> = Vec::new();
    let mut c: usize = 0;
    while c < num_channels
        invariant
            c <= num_channels,
            num_channels > 0,
            total_len == batch@.len(),
            scans * (num_channels as int) == batch@.len(),
            scans == (batch@.len() as int) / (num_channels as int),
            r@.len() == c,
            forall|c2: int| 0 <= c2 < c ==> (#[trigger] r@[c2])@.len() == scans,
            forall|c2: int, s: int|
                0 <= c2 < c && 0 <= s < scans ==> (#[trigger] r@[c2]@[s]) == batch@[s * (
                num_channels as int) + c2],
        decreases num_channels - c,
    {
        let mut col: Vec<u64> = Vec::new();
        let mut s: usize = 0;
        while s < scans
            invariant
                s <= scans,
                c < num_channels,
                total_len == batch@.len(),
                scans * (num_channels as int) == batch@.len(),
                col@.len() == s,
                forall|s2: int|
                    0 <= s2 < s ==> (#[trigger] col@[s2]) == batch@[s2 * (num_channels as int)
                        + c],
            decreases scans - s,
        {
            proof {
                assert(0 <= (s as int) * (num_channels as int) + (c as int) < batch@.len())
                    by (nonlinear_arith)
                    requires
                        0 <= s < scans,
                        0 <= c < num_channels,
                        scans * (num_channels as int) == batch@.len(),
                ;
            }
            let idx = s * num_channels + c;
            col.push(batch[idx]);
            s += 1;
        }
        r.push(col);
        c += 1;
        proof {
            assert forall|c2: int| 0 <= c2 < c implies (#[trigger] r@[c2])@.len() == scans by {
                if c2 == c - 1 {
                    assert(r@[c2] == col);
                }
            }
        }
    }
    proof {
        assert forall|c2: int|
            0 <= c2 < num_channels implies (#[trigger] r@[c2])@.len() * (num_channels as int)
            == batch@.len() by {
        }
    }
    r
}

} // verus!
