//! Clip plan resolution: choosing the video objects that cover a
//! requested window, a single object when one suffices, otherwise a
//! gap-free chain.

use vstd::prelude::*;
use crate::civil::valid_epoch_ms;
use crate::names::push_chars;
use crate::text::{
    ascii_bytes, ascii_chars, ascii_to_string, chars_of, dec_chars, lemma_seq_assoc, push_dec,
};

verus! {

/// Slack around object boundaries when deciding coverage, tolerating
/// encoder timestamp drift.
pub const GRACE_MS: i64 = 1000;

/// One uploaded video object, by name and UTC interval.
pub struct SourceObject {
    pub name: String,
    pub start_ms: i64,
    pub end_ms: i64,
}

/// A usable source: a non-empty interval inside the supported range.
pub open spec fn wf_source(o: SourceObject) -> bool {
    valid_epoch_ms(o.start_ms as int) && valid_epoch_ms(o.end_ms as int) && o.start_ms < o.end_ms
}

/// `o` covers the instant `t`, with grace.
pub open spec fn covers_point(o: SourceObject, t: i64) -> bool {
    o.start_ms - GRACE_MS <= t <= o.end_ms + GRACE_MS
}

/// `o` covers the whole window, with grace.
pub open spec fn covers_range(o: SourceObject, cs: i64, ce: i64) -> bool {
    o.start_ms - GRACE_MS <= cs && o.end_ms + GRACE_MS >= ce
}

/// How a clip will be cut: from one object, or stitched from a chain.
pub enum ClipPlan {
    Single(usize),
    Multi(Vec<usize>),
}

/// Why no plan exists.
pub enum ClipPlanError {
    /// No object covers the window's start.
    NoCoverageAtStart,
    /// Coverage exists on both sides but a hole wider than the grace
    /// separates them.
    Gap { gap_ms: i64 },
    /// No chain reaches the window's end, which nothing covers.
    NoCoverageAtEnd,
}

/// Distance still to cover, clamped at zero: the chain loop's measure.
pub open spec fn remaining_measure(clip_end: i64, reach: i64) -> int {
    if clip_end - reach >= 0 {
        clip_end - reach
    } else {
        0
    }
}

/// The first object covering the whole window, if any.
fn find_range_cover(objects: &Vec<SourceObject>, cs: i64, ce: i64) -> (r: Option<usize>)
    requires
        forall|i: int| 0 <= i < objects@.len() ==> wf_source(#[trigger] objects@[i]),
    ensures
        match r {
            Some(i) => i < objects@.len() && covers_range(objects@[i as int], cs, ce) && forall|
                j: int,
            | 0 <= j < i ==> !covers_range(#[trigger] objects@[j], cs, ce),
            None => forall|j: int| 0 <= j < objects@.len() ==> !covers_range(
                #[trigger] objects@[j],
                cs,
                ce,
            ),
        },
{
    proof {
        crate::civil::lemma_max_epoch_ms_bound();
    }
    let n = objects.len();
    let mut i: usize = 0;
    while i < n
        invariant
            i <= n == objects@.len(),
            forall|i2: int| 0 <= i2 < objects@.len() ==> wf_source(#[trigger] objects@[i2]),
            forall|j: int| 0 <= j < i ==> !covers_range(#[trigger] objects@[j], cs, ce),
        decreases n - i,
    {
        proof {
            crate::civil::lemma_max_epoch_ms_bound();
        }
        let o = &objects[i];
        if o.start_ms - GRACE_MS <= cs && o.end_ms + GRACE_MS >= ce {
            return Some(i);
        }
        i += 1;
    }
    None
}

/// A point-coverer of `t` whose end is as late as any coverer's.
fn find_best_cover(objects: &Vec<SourceObject>, t: i64) -> (r: Option<usize>)
    requires
        forall|i: int| 0 <= i < objects@.len() ==> wf_source(#[trigger] objects@[i]),
    ensures
        match r {
            Some(i) => i < objects@.len() && covers_point(objects@[i as int], t) && forall|j: int|
                0 <= j < objects@.len() && covers_point(#[trigger] objects@[j], t)
                    ==> objects@[j].end_ms <= objects@[i as int].end_ms,
            None => forall|j: int| 0 <= j < objects@.len() ==> !covers_point(
                #[trigger] objects@[j],
                t,
            ),
        },
{
    proof {
        crate::civil::lemma_max_epoch_ms_bound();
    }
    let n = objects.len();
    let mut best: Option<usize> = None;
    let mut i: usize = 0;
    while i < n
        invariant
            i <= n == objects@.len(),
            forall|i2: int| 0 <= i2 < objects@.len() ==> wf_source(#[trigger] objects@[i2]),
            match best {
                Some(b) => b < i && covers_point(objects@[b as int], t) && forall|j: int|
                    0 <= j < i && covers_point(#[trigger] objects@[j], t) ==> objects@[j].end_ms <= objects@[b as int].end_ms,
                None => forall|j: int| 0 <= j < i ==> !covers_point(#[trigger] objects@[j], t),
            },
        decreases n - i,
    {
        proof {
            crate::civil::lemma_max_epoch_ms_bound();
        }
        let o = &objects[i];
        if o.start_ms - GRACE_MS <= t && t <= o.end_ms + GRACE_MS {
            best = match best {
                Some(b) => {
                    let ob_end = objects[b].end_ms;
                    let ob_start = objects[b].start_ms;
                    if o.end_ms > ob_end || (o.end_ms == ob_end && o.start_ms < ob_start) || (
                        o.end_ms == ob_end && o.start_ms == ob_start && crate::text::str_lex_lt(
                            o.name.as_str(),
                            objects[b].name.as_str(),
                        )
                    ) {
                        Some(i)
                    } else {
                        Some(b)
                    }
                },
                None => Some(i),
            };
        }
        i += 1;
    }
    best
}

/// An extension past `reach`: starts within grace of it and ends
/// beyond it, with an end as late as any candidate's.
fn find_best_extension(objects: &Vec<SourceObject>, reach: i64) -> (r: Option<usize>)
    requires
        forall|i: int| 0 <= i < objects@.len() ==> wf_source(#[trigger] objects@[i]),
        valid_epoch_ms(reach as int),
    ensures
        match r {
            Some(i) => i < objects@.len() && objects@[i as int].start_ms <= reach + GRACE_MS
                && objects@[i as int].end_ms > reach && forall|j: int|
                0 <= j < objects@.len() && (#[trigger] objects@[j]).start_ms <= reach + GRACE_MS
                    && objects@[j].end_ms > reach ==> objects@[j].end_ms <= objects@[i as int].end_ms,
            None => forall|j: int| 0 <= j < objects@.len() ==> !((#[trigger] objects@[j]).start_ms
                <= reach + GRACE_MS && objects@[j].end_ms > reach),
        },
{
    proof {
        crate::civil::lemma_max_epoch_ms_bound();
    }
    let n = objects.len();
    let mut best: Option<usize> = None;
    let mut i: usize = 0;
    while i < n
        invariant
            i <= n == objects@.len(),
            forall|i2: int| 0 <= i2 < objects@.len() ==> wf_source(#[trigger] objects@[i2]),
            valid_epoch_ms(reach as int),
            match best {
                Some(b) => b < i && objects@[b as int].start_ms <= reach + GRACE_MS && objects@[b as int].end_ms > reach && forall|j: int|
                    0 <= j < i && (#[trigger] objects@[j]).start_ms <= reach + GRACE_MS && objects@[j].end_ms > reach ==> objects@[j].end_ms <= objects@[b as int].end_ms,
                None => forall|j: int| 0 <= j < i ==> !((#[trigger] objects@[j]).start_ms <= reach
                    + GRACE_MS && objects@[j].end_ms > reach),
            },
        decreases n - i,
    {
        proof {
            crate::civil::lemma_max_epoch_ms_bound();
        }
        let o = &objects[i];
        if o.start_ms <= reach + GRACE_MS && o.end_ms > reach {
            best = match best {
                Some(b) => {
                    let ob_end = objects[b].end_ms;
                    let ob_start = objects[b].start_ms;
                    if o.end_ms > ob_end || (o.end_ms == ob_end && o.start_ms < ob_start) || (
                        o.end_ms == ob_end && o.start_ms == ob_start && crate::text::str_lex_lt(
                            o.name.as_str(),
                            objects[b].name.as_str(),
                        )
                    ) {
                        Some(i)
                    } else {
                        Some(b)
                    }
                },
                None => Some(i),
            };
        }
        i += 1;
    }
    best
}

/// The point-coverer of `t` with the earliest start, if any.
fn find_earliest_cover(objects: &Vec<SourceObject>, t: i64) -> (r: Option<usize>)
    requires
        forall|i: int| 0 <= i < objects@.len() ==> wf_source(#[trigger] objects@[i]),
    ensures
        match r {
            Some(i) => i < objects@.len() && covers_point(objects@[i as int], t) && forall|j: int|
                0 <= j < objects@.len() && covers_point(#[trigger] objects@[j], t) ==> objects@[i as int].start_ms <= objects@[j].start_ms,
            None => forall|j: int| 0 <= j < objects@.len() ==> !covers_point(
                #[trigger] objects@[j],
                t,
            ),
        },
{
    proof {
        crate::civil::lemma_max_epoch_ms_bound();
    }
    let n = objects.len();
    let mut best: Option<usize> = None;
    let mut i: usize = 0;
    while i < n
        invariant
            i <= n == objects@.len(),
            forall|i2: int| 0 <= i2 < objects@.len() ==> wf_source(#[trigger] objects@[i2]),
            match best {
                Some(b) => b < i && covers_point(objects@[b as int], t) && forall|j: int|
                    0 <= j < i && covers_point(#[trigger] objects@[j], t) ==> objects@[b as int].start_ms <= objects@[j].start_ms,
                None => forall|j: int| 0 <= j < i ==> !covers_point(#[trigger] objects@[j], t),
            },
        decreases n - i,
    {
        proof {
            crate::civil::lemma_max_epoch_ms_bound();
        }
        let o = &objects[i];
        if o.start_ms - GRACE_MS <= t && t <= o.end_ms + GRACE_MS {
            best = match best {
                Some(b) => {
                    if o.start_ms < objects[b].start_ms {
                        Some(i)
                    } else {
                        Some(b)
                    }
                },
                None => Some(i),
            };
        }
        i += 1;
    }
    best
}

/// Resolves the objects that will produce a clip for the window
/// `[clip_start, clip_end]`.
///
/// A single covering object is always preferred. Otherwise a chain is
/// grown greedily from the best coverer of the window's start, each
/// link starting within grace of the covered reach; candidates tie
/// on the latest end, then the earliest start, then the first name
/// in lexicographic order. The errors are mutually exclusive: no
/// coverage at the start, a hole wider than the grace before coverage
/// of the end, or an end nothing covers.
pub fn resolve_clip_sources(objects: &Vec<SourceObject>, clip_start: i64, clip_end: i64) -> (r:
    Result<ClipPlan, ClipPlanError>)
    requires
        forall|i: int| 0 <= i < objects@.len() ==> wf_source(#[trigger] objects@[i]),
        valid_epoch_ms(clip_start as int),
        valid_epoch_ms(clip_end as int),
        clip_start <= clip_end,
    ensures
        match r {
            Ok(plan) => match plan {
                ClipPlan::Single(i) => i < objects@.len() && covers_range(
                    objects@[i as int],
                    clip_start,
                    clip_end,
                ),
                ClipPlan::Multi(chain) => {
                    &&& chain@.len() >= 2
                    &&& forall|k: int| 0 <= k < chain@.len() ==> (#[trigger] chain@[k])
                        < objects@.len()
                    &&& covers_point(objects@[chain@[0] as int], clip_start)
                    &&& objects@[chain@.last() as int].end_ms + GRACE_MS >= clip_end
                    &&& forall|k: int|
                        0 <= k < chain@.len() - 1 ==> objects@[(#[trigger] chain@[k + 1]) as int].start_ms
                            <= objects@[chain@[k] as int].end_ms + GRACE_MS
                    &&& forall|k: int|
                        0 <= k < chain@.len() - 1 ==> objects@[(#[trigger] chain@[k + 1]) as int].end_ms
                            > objects@[chain@[k] as int].end_ms
                    &&& forall|j: int| 0 <= j < objects@.len() ==> !covers_range(
                        #[trigger] objects@[j],
                        clip_start,
                        clip_end,
                    )
                },
            },
            Err(e) => match e {
                ClipPlanError::NoCoverageAtStart => forall|j: int|
                    0 <= j < objects@.len() ==> !covers_point(
                        #[trigger] objects@[j],
                        clip_start,
                    ),
                ClipPlanError::Gap { gap_ms } => {
                    &&& gap_ms > GRACE_MS
                    &&& exists|j: int| 0 <= j < objects@.len() && covers_point(
                        #[trigger] objects@[j],
                        clip_start,
                    )
                    &&& exists|j: int| 0 <= j < objects@.len() && covers_point(
                        #[trigger] objects@[j],
                        clip_end,
                    )
                    &&& forall|j: int| 0 <= j < objects@.len() ==> !covers_range(
                        #[trigger] objects@[j],
                        clip_start,
                        clip_end,
                    )
                },
                ClipPlanError::NoCoverageAtEnd => {
                    &&& forall|j: int| 0 <= j < objects@.len() ==> !covers_point(
                        #[trigger] objects@[j],
                        clip_end,
                    )
                    &&& exists|j: int| 0 <= j < objects@.len() && covers_point(
                        #[trigger] objects@[j],
                        clip_start,
                    )
                },
            },
        },
{
    proof {
        crate::civil::lemma_max_epoch_ms_bound();
    }
    if let Some(i) = find_range_cover(objects, clip_start, clip_end) {
        return Ok(ClipPlan::Single(i));
    }
    let first = match find_best_cover(objects, clip_start) {
        Some(i) => i,
        None => {
            return Err(ClipPlanError::NoCoverageAtStart);
        },
    };
    let mut chain: Vec<usize> = Vec::new();
    chain.push(first);
    let mut reach: i64 = objects[first].end_ms;
    while reach + GRACE_MS < clip_end
        invariant
            crate::civil::max_epoch_secs() * 1000 <= 260000000000000,
            forall|i: int| 0 <= i < objects@.len() ==> wf_source(#[trigger] objects@[i]),
            valid_epoch_ms(clip_start as int),
            valid_epoch_ms(clip_end as int),
            clip_start <= clip_end,
            chain@.len() >= 1,
            forall|k: int| 0 <= k < chain@.len() ==> (#[trigger] chain@[k]) < objects@.len(),
            covers_point(objects@[chain@[0] as int], clip_start),
            reach == objects@[chain@.last() as int].end_ms,
            valid_epoch_ms(reach as int),
            forall|k: int|
                0 <= k < chain@.len() - 1 ==> objects@[(#[trigger] chain@[k + 1]) as int].start_ms
                    <= objects@[chain@[k] as int].end_ms + GRACE_MS,
            forall|k: int|
                0 <= k < chain@.len() - 1 ==> objects@[(#[trigger] chain@[k + 1]) as int].end_ms
                    > objects@[chain@[k] as int].end_ms,
            forall|j: int| 0 <= j < objects@.len() ==> !covers_range(
                #[trigger] objects@[j],
                clip_start,
                clip_end,
            ),
            exists|j: int| 0 <= j < objects@.len() && covers_point(
                #[trigger] objects@[j],
                clip_start,
            ),
        decreases remaining_measure(clip_end, reach),
    {
        match find_best_extension(objects, reach) {
            Some(nxt) => {
                let ghost old_reach = reach;
                chain.push(nxt);
                reach = objects[nxt].end_ms;
                proof {
                    assert(reach > old_reach);
                }
            },
            None => {
                match find_earliest_cover(objects, clip_end) {
                    Some(ec) => {
                        let o_start = objects[ec].start_ms;
                        proof {
                            let oe = objects@[ec as int];
                            if oe.start_ms <= reach + GRACE_MS {
                                if oe.end_ms > reach {
                                    assert(false);
                                } else {
                                    assert(oe.end_ms + GRACE_MS >= clip_end);
                                    assert(reach + GRACE_MS >= clip_end);
                                    assert(false);
                                }
                            }
                        }
                        return Err(ClipPlanError::Gap { gap_ms: o_start - reach });
                    },
                    None => {
                        return Err(ClipPlanError::NoCoverageAtEnd);
                    },
                }
            },
        }
    }
    proof {
        if chain@.len() < 2 {
            let f = objects@[chain@[0] as int];
            assert(covers_range(f, clip_start, clip_end));
            assert(false);
        }
    }
    Ok(ClipPlan::Multi(chain))
}

impl ClipPlanError {
    /// The failure as recorded on the trigger record; a gap names its
    /// width.
    pub fn message(&self) -> (r: String)
        requires
            self matches ClipPlanError::Gap { gap_ms } ==> gap_ms >= 0,
        ensures
            r@ == clip_plan_error_chars(*self),
    {
        match self {
            ClipPlanError::NoCoverageAtStart => {
                proof {
                    reveal_strlit("no source object covers the clip window start");
                }
                let s = String::from_str("no source object covers the clip window start");
                proof {
                    assert(s@ =~= clip_plan_error_chars(*self));
                }
                s
            },
            ClipPlanError::Gap { gap_ms } => {
                let mut out: Vec<u8> = Vec::new();
                proof {
                    reveal_strlit("clip window spans a ");
                    reveal_strlit(" ms gap between video objects");
                }
                push_chars(&mut out, "clip window spans a ");
                push_dec(&mut out, *gap_ms as u64);
                push_chars(&mut out, " ms gap between video objects");
                proof {
                    crate::text::lemma_dec_bytes_chars(*gap_ms as nat);
                    let b0 = "clip window spans a "@;
                    lemma_seq_assoc(b0, dec_chars(*gap_ms as nat), " ms gap between video objects"@);
                    assert(chars_of(out@) == clip_plan_error_chars(*self));
                    assert forall|i: int| 0 <= i < out@.len() implies out@[i] < 128 by {}
                }
                ascii_to_string(out)
            },
            ClipPlanError::NoCoverageAtEnd => {
                proof {
                    reveal_strlit("no chain of video objects reaches the clip window end");
                }
                let s = String::from_str(
                    "no chain of video objects reaches the clip window end",
                );
                proof {
                    assert(s@ =~= clip_plan_error_chars(*self));
                }
                s
            },
        }
    }
}

/// The text of each failure, the gap width included.
pub open spec fn clip_plan_error_chars(e: ClipPlanError) -> Seq<char> {
    match e {
        ClipPlanError::NoCoverageAtStart => "no source object covers the clip window start"@,
        ClipPlanError::Gap { gap_ms } => "clip window spans a "@ + dec_chars(gap_ms as nat)
            + " ms gap between video objects"@,
        ClipPlanError::NoCoverageAtEnd => "no chain of video objects reaches the clip window end"@,
    }
}

/// One line of the stitch list: `file '<path>'`, the path quoted with
/// the shell-safe escape for embedded quotes.
pub open spec fn escaped_path_char(c: char) -> Seq<char> {
    if c == '\'' {
        seq!['\'', '\\', '\'', '\'']
    } else {
        seq![c]
    }
}

pub open spec fn escape_path_chars(cs: Seq<char>) -> Seq<char>
    decreases cs.len(),
{
    if cs.len() == 0 {
        Seq::empty()
    } else {
        escaped_path_char(cs[0]) + escape_path_chars(cs.skip(1))
    }
}

pub open spec fn concat_line_chars(p: Seq<char>) -> Seq<char> {
    seq!['f', 'i', 'l', 'e', ' ', '\''] + escape_path_chars(p) + seq!['\'', '\n']
}

/// The whole stitch list: one line per part, in order.
pub open spec fn concat_list_chars(paths: Seq<Seq<char>>) -> Seq<char>
    decreases paths.len(),
{
    if paths.len() == 0 {
        Seq::empty()
    } else {
        concat_line_chars(paths[0]) + concat_list_chars(paths.skip(1))
    }
}

/// Escaping one more character appends its escape.
proof fn lemma_escape_push(cs: Seq<char>, c: char)
    ensures
        escape_path_chars(cs.push(c)) == escape_path_chars(cs) + escaped_path_char(c),
    decreases cs.len(),
{
    let p = cs.push(c);
    if cs.len() == 0 {
        assert(p[0] == c);
        assert(p.skip(1) =~= Seq::<char>::empty());
        assert(escape_path_chars(Seq::<char>::empty()) == Seq::<char>::empty());
        assert(escape_path_chars(p) =~= escaped_path_char(c));
        assert(escape_path_chars(cs) + escaped_path_char(c) =~= escaped_path_char(c));
    } else {
        lemma_escape_push(cs.skip(1), c);
        assert(p.skip(1) =~= cs.skip(1).push(c));
        assert(p[0] == cs[0]);
        lemma_seq_assoc(escaped_path_char(cs[0]), escape_path_chars(cs.skip(1)), escaped_path_char(c));
    }
}

/// One more line appends to the list.
proof fn lemma_concat_list_push(paths: Seq<Seq<char>>, p: Seq<char>)
    ensures
        concat_list_chars(paths.push(p)) == concat_list_chars(paths) + concat_line_chars(p),
    decreases paths.len(),
{
    let w = paths.push(p);
    if paths.len() == 0 {
        assert(w[0] == p);
        assert(w.skip(1) =~= Seq::<Seq<char>>::empty());
        assert(concat_list_chars(Seq::<Seq<char>>::empty()) == Seq::<char>::empty());
        assert(concat_list_chars(w) =~= concat_line_chars(p));
        assert(concat_list_chars(paths) + concat_line_chars(p) =~= concat_line_chars(p));
    } else {
        lemma_concat_list_push(paths.skip(1), p);
        assert(w.skip(1) =~= paths.skip(1).push(p));
        assert(w[0] == paths[0]);
        lemma_seq_assoc(
            concat_line_chars(paths[0]),
            concat_list_chars(paths.skip(1)),
            concat_line_chars(p),
        );
    }
}

/// Prints the stitch list handed to the encoder's concatenation
/// step: one quoted part path per line, quotes escaped shell-safe.
pub fn concat_list_content(paths: &Vec<String>) -> (r: String)
    requires
        forall|i: int| 0 <= i < paths@.len() ==> ascii_chars((#[trigger] paths@[i])@),
    ensures
        r@ == concat_list_chars(Seq::new(paths@.len(), |i: int| paths@[i]@)),
{
    let ghost views = Seq::new(paths@.len(), |i: int| paths@[i]@);
    let mut out: Vec<u8> = Vec::new();
    let n = paths.len();
    let mut i: usize = 0;
    proof {
        reveal_strlit("file '");
        reveal_strlit("'\n");
        reveal_strlit("'\\''");
    }
    while i < n
        invariant
            i <= n == paths@.len(),
            views == Seq::new(paths@.len(), |j: int| paths@[j]@),
            forall|j: int| 0 <= j < paths@.len() ==> ascii_chars((#[trigger] paths@[j])@),
            chars_of(out@) == concat_list_chars(views.take(i as int)),
            ascii_bytes(out@),
            "file '"@ =~= seq!['f', 'i', 'l', 'e', ' ', '\''],
            "'\n"@ =~= seq!['\'', '\n'],
            "'\\''"@ =~= seq!['\'', '\\', '\'', '\''],
        decreases n - i,
    {
        let ghost line_base = chars_of(out@);
        push_chars(&mut out, "file '");
        let p = &paths[i];
        let plen = p.unicode_len();
        let mut j: usize = 0;
        while j < plen
            invariant
                j <= plen == p@.len(),
                p@ == paths@[i as int]@,
                i < paths@.len(),
                ascii_chars(p@),
                chars_of(out@) == line_base + seq!['f', 'i', 'l', 'e', ' ', '\'']
                    + escape_path_chars(p@.take(j as int)),
                ascii_bytes(out@),
                "'\\''"@ =~= seq!['\'', '\\', '\'', '\''],
            decreases plen - j,
        {
            let c = p.get_char(j);
            let ghost pre = chars_of(out@);
            if c == '\'' {
                push_chars(&mut out, "'\\''");
            } else {
                let b: u8 = (c as u32) as u8;
                out.push(b);
                proof {
                    assert((b as char) == c);
                    assert(chars_of(out@) =~= pre + seq![c]);
                }
            }
            j += 1;
            proof {
                assert(p@.take(j as int) =~= p@.take(j - 1).push(p@[j - 1]));
                lemma_escape_push(p@.take(j - 1), p@[j - 1]);
                lemma_seq_assoc(
                    line_base + seq!['f', 'i', 'l', 'e', ' ', '\''],
                    escape_path_chars(p@.take(j - 1)),
                    escaped_path_char(p@[j - 1]),
                );
                assert(chars_of(out@) == line_base + seq!['f', 'i', 'l', 'e', ' ', '\'']
                    + escape_path_chars(p@.take(j as int)));
            }
        }
        push_chars(&mut out, "'\n");
        i += 1;
        proof {
            assert(p@.take(plen as int) =~= p@);
            let lb = seq!['f', 'i', 'l', 'e', ' ', '\''];
            lemma_seq_assoc(line_base, lb + escape_path_chars(p@), seq!['\'', '\n']);
            lemma_seq_assoc(line_base, lb, escape_path_chars(p@));
            lemma_seq_assoc(lb, escape_path_chars(p@), seq!['\'', '\n']);
            assert(lb + escape_path_chars(p@) + seq!['\'', '\n'] == concat_line_chars(p@));
            assert(views.take(i as int) =~= views.take(i - 1).push(views[i - 1]));
            lemma_concat_list_push(views.take(i - 1), views[i - 1]);
            assert(chars_of(out@) == concat_list_chars(views.take(i as int)));
        }
    }
    proof {
        assert(views.take(n as int) =~= views);
    }
    ascii_to_string(out)
}

/// The window a clip must span: the trigger time minus the pre-roll,
/// plus the post-roll.
pub fn clip_window(center_ms: i64, pre_ms: i64, post_ms: i64) -> (r: (i64, i64))
    requires
        valid_epoch_ms(center_ms as int),
        0 <= pre_ms <= 1000000000000,
        0 <= post_ms <= 1000000000000,
    ensures
        r.0 == center_ms - pre_ms,
        r.1 == center_ms + post_ms,
        r.0 <= center_ms <= r.1,
{
    proof {
        crate::civil::lemma_max_epoch_ms_bound();
    }
    (center_ms - pre_ms, center_ms + post_ms)
}

/// Where to cut a single-source clip: the window's offset into the
/// source, clamped at zero, and the window's length.
pub fn single_trim_params(source_start_ms: i64, clip_start_ms: i64, clip_end_ms: i64) -> (r: (
    i64,
    i64,
))
    requires
        valid_epoch_ms(source_start_ms as int),
        clip_start_ms <= clip_end_ms,
        -2000000000000 <= clip_start_ms <= clip_end_ms <= 1000000000000000,
    ensures
        r.0 == if clip_start_ms >= source_start_ms {
            clip_start_ms - source_start_ms
        } else {
            0int
        },
        r.1 == clip_end_ms - clip_start_ms,
        r.0 >= 0,
        r.1 >= 0,
{
    proof {
        crate::civil::lemma_max_epoch_ms_bound();
    }
    let offset = if clip_start_ms >= source_start_ms {
        clip_start_ms - source_start_ms
    } else {
        0
    };
    (offset, clip_end_ms - clip_start_ms)
}

/// The part of one chain source that belongs to the clip: the
/// intersection of the clip window with the source's interval.
pub fn part_window(src_start_ms: i64, src_end_ms: i64, clip_start_ms: i64, clip_end_ms: i64) -> (r:
    (i64, i64))
    requires
        valid_epoch_ms(src_start_ms as int),
        valid_epoch_ms(src_end_ms as int),
        -2000000000000 <= clip_start_ms <= clip_end_ms <= 1000000000000000,
    ensures
        r.0 == if clip_start_ms >= src_start_ms {
            clip_start_ms
        } else {
            src_start_ms
        },
        r.1 == if clip_end_ms <= src_end_ms {
            clip_end_ms
        } else {
            src_end_ms
        },
{
    proof {
        crate::civil::lemma_max_epoch_ms_bound();
    }
    let ps = if clip_start_ms >= src_start_ms {
        clip_start_ms
    } else {
        src_start_ms
    };
    let pe = if clip_end_ms <= src_end_ms {
        clip_end_ms
    } else {
        src_end_ms
    };
    (ps, pe)
}

} // verus!
