//! The per-log segment chain and the process-wide logs metadata snapshot.
//!
//! A log is served by a chain of segments, each mapping the positions from
//! its `base_lsn` upward onto one loglet. Chains are non-empty, their bases
//! strictly increase, and the last segment is the writeable tail. The
//! snapshot is consumed read-only by the log core; it is created and grown
//! externally.

use vstd::prelude::*;

use crate::lsn::LogId;
use crate::lsn::Lsn;
use crate::lsn::Version;

verus! {

/// The family of loglet implementations a segment can be served by.
#[derive(Clone, Copy, Debug, Hash, PartialEq, Eq, Structural)]
pub enum ProviderKind {
    InMemory,
    Local,
}

/// The provider-specific identity of one loglet.
#[derive(Clone, Copy, Debug, Hash, PartialEq, Eq, Structural)]
pub struct LogletParams {
    pub id: u64,
}

/// Which provider serves a segment, and which loglet of that provider.
#[derive(Clone, Copy, Debug, Hash, PartialEq, Eq, Structural)]
pub struct LogletConfig {
    pub kind: ProviderKind,
    pub params: LogletParams,
}

/// One contiguous region of a log, served by one loglet from `base_lsn` up.
#[derive(Clone, Copy, Debug, Hash, PartialEq, Eq, Structural)]
pub struct Segment {
    pub base_lsn: Lsn,
    pub config: LogletConfig,
}

/// The index of the segment that serves `lsn` within a chain's segment
/// sequence: the greatest index whose base does not exceed `lsn`, or the
/// head segment when every base does.
pub open spec fn seg_index_for_lsn(segs: Seq<Segment>, lsn: u64) -> int
    decreases segs.len(),
{
    if segs.len() <= 1 {
        0
    } else if segs[segs.len() - 1].base_lsn.0 <= lsn {
        segs.len() - 1
    } else {
        seg_index_for_lsn(segs.drop_last(), lsn)
    }
}

/// Strictly increasing segment bases.
pub open spec fn bases_increasing(segs: Seq<Segment>) -> bool {
    forall|i: int, j: int|
        #![trigger segs[i].base_lsn, segs[j].base_lsn]
        0 <= i < j < segs.len() ==> segs[i].base_lsn.0 < segs[j].base_lsn.0
}

/// The located index is in range, its segment's base does not exceed `lsn`
/// unless `lsn` lies before the head segment, and every later segment starts
/// past `lsn`.
pub proof fn lemma_seg_index_for_lsn(segs: Seq<Segment>, lsn: u64)
    requires
        segs.len() >= 1,
    ensures
        0 <= seg_index_for_lsn(segs, lsn) < segs.len(),
        seg_index_for_lsn(segs, lsn) > 0 ==> segs[seg_index_for_lsn(segs, lsn)].base_lsn.0 <= lsn,
        forall|j: int|
            seg_index_for_lsn(segs, lsn) < j < segs.len() ==> lsn < #[trigger] segs[j].base_lsn.0,
    decreases segs.len(),
{
    if segs.len() > 1 && segs[segs.len() - 1].base_lsn.0 > lsn {
        lemma_seg_index_for_lsn(segs.drop_last(), lsn);
        assert(forall|j: int|
            0 <= j < segs.len() - 1 ==> segs.drop_last()[j] == #[trigger] segs[j]);
    }
}

/// Any index that satisfies the located index's characterization is it.
pub proof fn lemma_seg_index_unique(segs: Seq<Segment>, lsn: u64, i: int)
    requires
        segs.len() >= 1,
        0 <= i < segs.len(),
        i > 0 ==> segs[i].base_lsn.0 <= lsn,
        forall|j: int| i < j < segs.len() ==> lsn < #[trigger] segs[j].base_lsn.0,
    ensures
        seg_index_for_lsn(segs, lsn) == i,
    decreases segs.len(),
{
    if segs.len() > 1 && segs[segs.len() - 1].base_lsn.0 > lsn {
        assert(i < segs.len() - 1);
        lemma_seg_index_unique(segs.drop_last(), lsn, i);
    }
}

/// The ordered list of segments that together form one logical log.
#[derive(Clone, Debug)]
pub struct LogChain {
    pub segments: Vec<Segment>,
}

impl LogChain {
    /// A known log's chain is non-empty, its bases strictly increase, and no
    /// base is below the first valid position.
    pub open spec fn wf(self) -> bool {
        &&& self.segments@.len() >= 1
        &&& self.segments@[0].base_lsn.0 >= 1
        &&& bases_increasing(self.segments@)
    }

    /// A chain of one segment based at the first valid position.
    pub fn single(config: LogletConfig) -> (r: Self)
        ensures
            r.wf(),
            r.segments@.len() == 1,
            r.segments@[0] == (Segment { base_lsn: Lsn(1), config }),
    {
        let mut segments: Vec<Segment> = Vec::new();
        segments.push(Segment { base_lsn: Lsn(1), config });
        LogChain { segments }
    }

    /// The tail segment: the one with the greatest base, where appends go.
    pub fn tail_segment(&self) -> (r: &Segment)
        requires
            self.wf(),
        ensures
            *r == self.segments@[self.segments@.len() - 1],
    {
        &self.segments[self.segments.len() - 1]
    }

    /// Locate the segment that serves `lsn`.
    pub fn find_segment_for_lsn(&self, lsn: Lsn) -> (r: Segment)
        requires
            self.wf(),
        ensures
            r == self.segments@[seg_index_for_lsn(self.segments@, lsn.0)],
    {
        let mut i: usize = self.segments.len() - 1;
        while i > 0 && self.segments[i].base_lsn.0 > lsn.0
            invariant
                self.wf(),
                0 <= i < self.segments@.len(),
                forall|j: int|
                    i < j < self.segments@.len() ==> lsn.0 < #[trigger] self.segments@[j].base_lsn.0,
            decreases i,
        {
            i = i - 1;
        }
        proof {
            lemma_seg_index_unique(self.segments@, lsn.0, i as int);
        }
        self.segments[i]
    }
}

/// One known log and its chain.
#[derive(Clone, Debug)]
pub struct LogEntry {
    pub log_id: LogId,
    pub chain: LogChain,
}

/// The process-wide snapshot of every known log's chain, at one version.
#[derive(Clone, Debug)]
pub struct LogsMetadata {
    pub version: Version,
    pub entries: Vec<LogEntry>,
}

impl LogsMetadata {
    /// Log ids are unique, every chain is well formed, and no two segments
    /// anywhere share a loglet (same provider kind and parameters).
    pub open spec fn wf(self) -> bool {
        &&& forall|i: int, j: int|
            #![trigger self.entries@[i].log_id, self.entries@[j].log_id]
            0 <= i < j < self.entries@.len() ==> self.entries@[i].log_id
                != self.entries@[j].log_id
        &&& forall|i: int| 0 <= i < self.entries@.len() ==> (#[trigger] self.entries@[i]).chain.wf()
        &&& forall|i: int, j: int, k: int, l: int|
            {
                &&& 0 <= i < self.entries@.len()
                &&& 0 <= j < self.entries@.len()
                &&& 0 <= k < self.entries@[i].chain.segments@.len()
                &&& 0 <= l < self.entries@[j].chain.segments@.len()
                &&& (i != j || k != l)
            } ==> (#[trigger] self.entries@[i].chain.segments@[k]).config
                != (#[trigger] self.entries@[j].chain.segments@[l]).config
    }

    /// The index of `log_id` among the known logs, if it is known.
    pub open spec fn spec_log_index(self, log_id: LogId) -> Option<int> {
        if exists|i: int| 0 <= i < self.entries@.len() && self.entries@[i].log_id == log_id {
            Some(choose|i: int| 0 <= i < self.entries@.len() && self.entries@[i].log_id == log_id)
        } else {
            Option::None
        }
    }

    /// Whether `log_id` has a chain in this snapshot.
    pub open spec fn spec_knows_log(self, log_id: LogId) -> bool {
        exists|i: int| 0 <= i < self.entries@.len() && self.entries@[i].log_id == log_id
    }

    /// The chain of `log_id`, if the log is known.
    pub open spec fn spec_chain_of(self, log_id: LogId) -> Option<LogChain> {
        match self.spec_log_index(log_id) {
            Some(i) => Some(self.entries@[i].chain),
            Option::None => Option::None,
        }
    }

    /// An empty snapshot at the given version.
    pub fn new(version: Version) -> (r: Self)
        ensures
            r.wf(),
            r.entries@.len() == 0,
            r.version == version,
    {
        LogsMetadata { version, entries: Vec::new() }
    }

    /// A snapshot with `num_logs` logs, ids `0 .. num_logs`, each a single
    /// segment based at the first position and served by its own loglet of
    /// the given kind (loglet parameters equal to the log id).
    pub fn bootstrap(version: Version, num_logs: u64, kind: ProviderKind) -> (r: Self)
        ensures
            r.wf(),
            r.version == version,
            r.entries@.len() == num_logs,
            forall|i: int|
                0 <= i < num_logs ==> (#[trigger] r.entries@[i]).log_id == LogId(i as u64),
            forall|i: int|
                0 <= i < num_logs ==> (#[trigger] r.entries@[i]).chain.segments@ == seq![
                    Segment {
                        base_lsn: Lsn(1),
                        config: LogletConfig { kind, params: LogletParams { id: i as u64 } },
                    },
                ],
    {
        let mut entries: Vec<LogEntry> = Vec::new();
        let mut next: u64 = 0;
        while next < num_logs
            invariant
                next <= num_logs,
                entries@.len() == next,
                forall|i: int|
                    0 <= i < next ==> (#[trigger] entries@[i]).log_id == LogId(i as u64),
                forall|i: int|
                    0 <= i < next ==> (#[trigger] entries@[i]).chain.segments@ == seq![
                        Segment {
                            base_lsn: Lsn(1),
                            config: LogletConfig { kind, params: LogletParams { id: i as u64 } },
                        },
                    ],
            decreases num_logs - next,
        {
            let chain = LogChain::single(LogletConfig { kind, params: LogletParams { id: next } });
            assert(chain.segments@ =~= seq![
                Segment {
                    base_lsn: Lsn(1),
                    config: LogletConfig { kind, params: LogletParams { id: next } },
                },
            ]);
            entries.push(LogEntry { log_id: LogId(next), chain });
            next = next + 1;
        }
        LogsMetadata { version, entries }
    }

    /// Look up the chain of `log_id`.
    pub fn get_chain(&self, log_id: LogId) -> (r: Option<&LogChain>)
        requires
            self.wf(),
        ensures
            match r {
                Some(chain) => self.spec_knows_log(log_id) && Some(*chain) == self.spec_chain_of(
                    log_id,
                ),
                Option::None => !self.spec_knows_log(log_id),
            },
    {
        let mut i: usize = 0;
        while i < self.entries.len()
            invariant
                self.wf(),
                i <= self.entries@.len(),
                forall|j: int| 0 <= j < i ==> (#[trigger] self.entries@[j]).log_id != log_id,
            decreases self.entries@.len() - i,
        {
            if self.entries[i].log_id == log_id {
                proof {
                    assert(self.entries@[i as int].log_id == log_id);
                    let j = choose|j: int|
                        0 <= j < self.entries@.len() && self.entries@[j].log_id == log_id;
                    if j < i as int {
                        assert(self.entries@[j].log_id != self.entries@[i as int].log_id);
                    } else if j > i as int {
                        assert(self.entries@[i as int].log_id != self.entries@[j].log_id);
                    }
                    assert(j == i as int);
                }
                return Some(&self.entries[i].chain);
            }
            i = i + 1;
        }
        Option::None
    }
}

} // verus!
