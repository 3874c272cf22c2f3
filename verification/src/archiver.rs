//! The per-channel archive writer state machine: which part file is
//! open, when it closes, and which index the next one gets. The
//! parquet writing itself stays with the caller; this module decides.

use vstd::prelude::*;
use crate::civil::CivilDate;
use crate::keys::spec_parse_part_index;

verus! {

/// The open part file of one (asset, day, channel).
#[derive(Clone, Copy, PartialEq, Eq, Structural, Debug)]
pub struct OpenWriter {
    pub date: CivilDate,
    pub file_index: u64,
}

/// Rolling state of one channel's archiver.
#[derive(Clone, Copy, Debug)]
pub struct ChannelArchiver {
    pub writer: Option<OpenWriter>,
    /// The index the first file of this process gets: one past the
    /// largest index already on disk when the channel task started.
    pub seed_index: u64,
}

/// What the caller must do after a step: close the current file
/// first, then open the named one.
#[derive(Clone, Copy, Debug)]
pub struct ArchiveAction {
    pub close_current: bool,
    pub open: Option<OpenWriter>,
}

/// What drives the state machine: a decoded sample batch, the
/// rotation ticker, or a calibration change.
#[derive(Clone, Copy, PartialEq, Eq, Structural, Debug)]
pub enum ArchiverEvent {
    Message { today: CivilDate },
    Rotate { today: CivilDate },
    Calibration { today: CivilDate },
}

/// The largest part index among the given file names, zero when none
/// parses.
pub open spec fn max_part_index(names: Seq<Seq<char>>, n: int) -> nat
    decreases n,
{
    if n <= 0 {
        0
    } else {
        let rest = max_part_index(names, n - 1);
        match spec_parse_part_index(names[n - 1]) {
            Some(v) => if v > rest {
                v as nat
            } else {
                rest
            },
            None => rest,
        }
    }
}

/// The writer opened by one event, if any, and the state after it.
///
/// A message keeps the current file while its day lasts; on the first
/// message ever it opens the seeded index, and on a day rollover it
/// opens index 1. Rotation and calibration changes always rotate:
/// the next index, or the seed when nothing was open yet.
pub open spec fn spec_archiver_step(st: ChannelArchiver, ev: ArchiverEvent) -> (
    ChannelArchiver,
    Option<OpenWriter>,
) {
    match ev {
        ArchiverEvent::Message { today } => {
            match st.writer {
                Some(w) => if w.date == today {
                    (st, None)
                } else {
                    let nw = OpenWriter { date: today, file_index: 1 };
                    (ChannelArchiver { writer: Some(nw), ..st }, Some(nw))
                },
                None => {
                    let nw = OpenWriter { date: today, file_index: st.seed_index };
                    (ChannelArchiver { writer: Some(nw), ..st }, Some(nw))
                },
            }
        },
        ArchiverEvent::Rotate { today } | ArchiverEvent::Calibration { today } => {
            let idx: u64 = match st.writer {
                Some(w) => if w.date == today {
                    if w.file_index == u64::MAX {
                        u64::MAX
                    } else {
                        (w.file_index + 1) as u64
                    }
                } else {
                    1
                },
                None => st.seed_index,
            };
            let nw = OpenWriter { date: today, file_index: idx };
            (ChannelArchiver { writer: Some(nw), ..st }, Some(nw))
        },
    }
}

/// Seeds a channel archiver from the part files already on disk.
pub fn new_channel_archiver(existing_names: &Vec<String>) -> (st: ChannelArchiver)
    ensures
        st.writer is None,
        st.seed_index as nat == ({
            let m = max_part_index(
                Seq::new(existing_names@.len(), |i: int| existing_names@[i]@),
                existing_names@.len() as int,
            );
            if m >= u64::MAX {
                u64::MAX as nat
            } else {
                m + 1
            }
        }),
{
    let ghost views = Seq::new(existing_names@.len(), |i: int| existing_names@[i]@);
    let n = existing_names.len();
    let mut max: u64 = 0;
    let mut i: usize = 0;
    while i < n
        invariant
            i <= n == existing_names@.len(),
            views == Seq::new(existing_names@.len(), |j: int| existing_names@[j]@),
            max as nat == max_part_index(views, i as int),
        decreases n - i,
    {
        match crate::keys::parse_part_index(existing_names[i].as_str()) {
            Some(v) => {
                if v > max {
                    max = v;
                }
            },
            None => {},
        }
        i += 1;
    }
    let seed = if max == u64::MAX {
        u64::MAX
    } else {
        max + 1
    };
    ChannelArchiver { writer: None, seed_index: seed }
}

/// Advances the archiver by one event; the returned action says what
/// to close and open.
pub fn archiver_step(st: &mut ChannelArchiver, ev: &ArchiverEvent) -> (action: ArchiveAction)
    ensures
        ({
            let (st2, opened) = spec_archiver_step(*old(st), *ev);
            &&& *final(st) == st2
            &&& action.open == opened
            &&& action.close_current == (opened is Some && old(st).writer is Some)
        }),
{
    let had = st.writer.is_some();
    match ev {
        ArchiverEvent::Message { today } => {
            match st.writer {
                Some(w) => {
                    if w.date.year == today.year && w.date.month == today.month && w.date.day
                        == today.day {
                        ArchiveAction { close_current: false, open: None }
                    } else {
                        let nw = OpenWriter { date: *today, file_index: 1 };
                        st.writer = Some(nw);
                        ArchiveAction { close_current: had, open: Some(nw) }
                    }
                },
                None => {
                    let nw = OpenWriter { date: *today, file_index: st.seed_index };
                    st.writer = Some(nw);
                    ArchiveAction { close_current: false, open: Some(nw) }
                },
            }
        },
        ArchiverEvent::Rotate { today } | ArchiverEvent::Calibration { today } => {
            let idx: u64 = match st.writer {
                Some(w) => {
                    if w.date.year == today.year && w.date.month == today.month && w.date.day
                        == today.day {
                        if w.file_index == u64::MAX {
                            u64::MAX
                        } else {
                            w.file_index + 1
                        }
                    } else {
                        1
                    }
                },
                None => st.seed_index,
            };
            let nw = OpenWriter { date: *today, file_index: idx };
            st.writer = Some(nw);
            ArchiveAction { close_current: had, open: Some(nw) }
        },
    }
}

/// The opens produced by a run of events.
pub open spec fn spec_archiver_run(st: ChannelArchiver, evs: Seq<ArchiverEvent>, n: int) -> (
    ChannelArchiver,
    Seq<OpenWriter>,
)
    decreases n,
{
    if n <= 0 {
        (st, Seq::empty())
    } else {
        let (st1, opens1) = spec_archiver_run(st, evs, n - 1);
        let (st2, opened) = spec_archiver_step(st1, evs[n - 1]);
        match opened {
            Some(w) => (st2, opens1.push(w)),
            None => (st2, opens1),
        }
    }
}

/// File-index monotonicity: within one run, two successively opened
/// files of the same day get strictly increasing indices (until the
/// index space is exhausted), and a day rollover restarts at one.
pub proof fn lemma_archiver_index_monotonic(
    st: ChannelArchiver,
    evs: Seq<ArchiverEvent>,
    n: int,
)
    requires
        st.writer is None,
        n <= evs.len(),
    ensures
        ({
            let (st1, opens) = spec_archiver_run(st, evs, n);
            &&& forall|k: int|
                0 <= k < opens.len() - 1 && (#[trigger] opens[k]).date == opens[k + 1].date
                    ==> opens[k + 1].file_index > opens[k].file_index || opens[k + 1].file_index
                    == u64::MAX
            &&& forall|k: int|
                0 <= k < opens.len() - 1 && (#[trigger] opens[k]).date != opens[k + 1].date ==> (
                opens[k + 1].file_index == 1 || opens[k + 1].file_index == st.seed_index)
            &&& opens.len() > 0 ==> st1.writer == Some(opens.last())
            &&& opens.len() > 0 ==> opens[0].file_index == st.seed_index
            &&& opens.len() == 0 ==> st1.writer is None
        }),
    decreases n,
{
    if n > 0 {
        lemma_archiver_index_monotonic(st, evs, n - 1);
        let (st1, opens1) = spec_archiver_run(st, evs, n - 1);
        let (st2, opens2) = spec_archiver_run(st, evs, n);
        let (_, opened) = spec_archiver_step(st1, evs[n - 1]);
        if opened is Some && opens1.len() > 0 {
            assert(opens2 == opens1.push(opened.unwrap()));
            assert forall|k: int|
                0 <= k < opens2.len() - 1 && (#[trigger] opens2[k]).date == opens2[k + 1].date
                    implies opens2[k + 1].file_index > opens2[k].file_index || opens2[k
                + 1].file_index == u64::MAX by {
                if k < opens1.len() - 1 {
                    assert(opens2[k] == opens1[k] && opens2[k + 1] == opens1[k + 1]);
                } else {
                    assert(opens2[k] == opens1.last());
                    assert(opens2[k + 1] == opened.unwrap());
                }
            }
            assert forall|k: int|
                0 <= k < opens2.len() - 1 && (#[trigger] opens2[k]).date != opens2[k + 1].date
                    implies (opens2[k + 1].file_index == 1 || opens2[k + 1].file_index
                == st.seed_index) by {
                if k < opens1.len() - 1 {
                    assert(opens2[k] == opens1[k] && opens2[k + 1] == opens1[k + 1]);
                } else {
                    assert(opens2[k] == opens1.last());
                    assert(opens2[k + 1] == opened.unwrap());
                }
            }
        }
    }
}

/// A row bound for one part file's buffered batch.
pub struct ArchiveRow {
    pub timestamp: String,
    pub value_bits: u64,
}

/// Rows waiting for the next row group; groups flush at 1000 rows.
pub struct RowBuffer {
    pub rows: Vec<ArchiveRow>,
}

/// The flush threshold of a row group.
pub const ROW_GROUP_SIZE: usize = 1000;

impl RowBuffer {
    /// An empty buffer.
    pub fn new() -> (r: RowBuffer)
        ensures
            r.rows@.len() == 0,
    {
        RowBuffer { rows: Vec::new() }
    }

    /// Adds one row; when the group is full, hands the whole batch
    /// back for writing and clears the buffer.
    pub fn push_row(&mut self, row: ArchiveRow) -> (flushed: Option<Vec<ArchiveRow>>)
        requires
            old(self).rows@.len() < ROW_GROUP_SIZE,
        ensures
            match flushed {
                Some(batch) => batch@ == old(self).rows@.push(row) && final(self).rows@.len() == 0
                    && batch@.len() == ROW_GROUP_SIZE,
                None => final(self).rows@ == old(self).rows@.push(row) && final(self).rows@.len()
                    < ROW_GROUP_SIZE,
            },
    {
        self.rows.push(row);
        if self.rows.len() >= ROW_GROUP_SIZE {
            let mut out: Vec<ArchiveRow> = Vec::new();
            core::mem::swap(&mut out, &mut self.rows);
            Some(out)
        } else {
            None
        }
    }

    /// Takes whatever remains for the final row group of a closing
    /// file.
    pub fn drain(&mut self) -> (rest: Vec<ArchiveRow>)
        ensures
            rest@ == old(self).rows@,
            final(self).rows@.len() == 0,
    {
        let mut out: Vec<ArchiveRow> = Vec::new();
        core::mem::swap(&mut out, &mut self.rows);
        out
    }
}

} // verus!
