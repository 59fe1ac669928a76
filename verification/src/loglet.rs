//! Loglets and their common abstract model.
//!
//! A loglet is one durable, ordered region of a log. Its abstract state is a
//! [`LogletView`]: the sequence of stored record bytes (offset `o` holds
//! `records[o - 1]`, offsets are 1-based) and the trim point. The release
//! pointer — the highest offset readers may see — is the number of records.
//! Every loglet operation is specified as a pure transition on this view,
//! and the log-wide ordering and trimming laws are proved over those
//! transitions once, for every loglet kind.

use vstd::prelude::*;

verus! {

/// What one read yields at the view level.
pub enum ReadPayloadView {
    /// The bytes stored at the read offset.
    Data(Seq<u8>),
    /// A gap: everything up to and including `until` was trimmed away.
    Gap { until: nat },
}

/// A read result at the view level: an offset and what stands there.
pub struct ReadItemView {
    pub offset: nat,
    pub payload: ReadPayloadView,
}

/// The abstract state of one loglet.
#[verifier::ext_equal]
pub struct LogletView {
    /// Stored record bytes; offset `o` (1-based) holds `records[o - 1]`.
    pub records: Seq<Seq<u8>>,
    /// The highest trimmed offset; `0` when nothing was trimmed.
    pub trim_point: nat,
}

impl LogletView {
    /// The trim point never passes the release pointer.
    pub open spec fn wf(self) -> bool {
        self.trim_point <= self.records.len()
    }

    /// The empty loglet.
    pub open spec fn empty() -> LogletView {
        LogletView { records: Seq::empty(), trim_point: 0 }
    }

    /// The highest offset known durable and readable.
    pub open spec fn release_pointer(self) -> nat {
        self.records.len()
    }

    /// The state after appending one record.
    pub open spec fn after_append(self, bytes: Seq<u8>) -> LogletView {
        LogletView { records: self.records.push(bytes), trim_point: self.trim_point }
    }

    /// The state after appending a batch, first record first.
    pub open spec fn after_append_all(self, batch: Seq<Seq<u8>>) -> LogletView {
        LogletView { records: self.records + batch, trim_point: self.trim_point }
    }

    /// The state after trimming to `t`: the trim point advances to `t`
    /// clamped by the release pointer, and never moves backwards.
    pub open spec fn after_trim(self, t: nat) -> LogletView {
        let clamped = if t <= self.records.len() {
            t
        } else {
            self.records.len()
        };
        LogletView {
            records: self.records,
            trim_point: if clamped <= self.trim_point {
                self.trim_point
            } else {
                clamped
            },
        }
    }

    /// What reading the next record after offset `after` yields: a gap while
    /// `after` lies below the trim point, data up to the release pointer,
    /// nothing past it.
    pub open spec fn read_next(self, after: nat) -> Option<ReadItemView> {
        if after < self.trim_point {
            Some(
                ReadItemView {
                    offset: (after + 1) as nat,
                    payload: ReadPayloadView::Gap { until: self.trim_point },
                },
            )
        } else if after < self.records.len() {
            Some(
                ReadItemView {
                    offset: (after + 1) as nat,
                    payload: ReadPayloadView::Data(self.records[after as int]),
                },
            )
        } else {
            Option::None
        }
    }

    /// The readable tail: the release pointer, unless everything up to it
    /// was trimmed.
    pub open spec fn find_tail(self) -> Option<nat> {
        if self.records.len() > self.trim_point {
            Some(self.records.len())
        } else {
            Option::None
        }
    }

    /// The trim point, if anything was ever trimmed.
    pub open spec fn get_trim_point(self) -> Option<nat> {
        if self.trim_point > 0 {
            Some(self.trim_point)
        } else {
            Option::None
        }
    }

    /// The state after a sequence of single appends, first element first.
    pub open spec fn after_appends(self, batch: Seq<Seq<u8>>) -> LogletView
        decreases batch.len(),
    {
        if batch.len() == 0 {
            self
        } else {
            self.after_append(batch[0]).after_appends(batch.drop_first())
        }
    }

    /// The offset assigned to the `k`-th append of a run of appends starting
    /// from this state.
    pub open spec fn assigned_offset(self, k: int) -> int {
        self.records.len() + 1 + k
    }
}

impl LogletView {
    /// The full sequence a reader sees from the head to the tail: one
    /// leading gap record standing at the trim point when something was
    /// trimmed, then every record past the trim point in offset order.
    pub open spec fn read_seq(self) -> Seq<ReadItemView> {
        let data = Seq::new(
            (self.records.len() - self.trim_point) as nat,
            |i: int|
                ReadItemView {
                    offset: (self.trim_point + 1 + i) as nat,
                    payload: ReadPayloadView::Data(self.records[self.trim_point + i]),
                },
        );
        if self.trim_point > 0 {
            seq![
                ReadItemView {
                    offset: self.trim_point,
                    payload: ReadPayloadView::Gap { until: self.trim_point },
                },
            ] + data
        } else {
            data
        }
    }
}

/// Law: segment continuity. The sequence read from the head to the tail has
/// strictly increasing offsets; its data records cover exactly the positions
/// from directly past the trim point up to the tail, in order; and it leads
/// with exactly one gap record exactly when something was trimmed.
pub proof fn lemma_read_seq_continuity(v: LogletView)
    requires
        v.wf(),
    ensures
        forall|i: int, j: int|
            #![trigger v.read_seq()[i].offset, v.read_seq()[j].offset]
            0 <= i < j < v.read_seq().len() ==> v.read_seq()[i].offset < v.read_seq()[j].offset,
        v.read_seq().len() == v.records.len() - v.trim_point + (
        if v.trim_point > 0 {
            1int
        } else {
            0int
        }),
        v.trim_point > 0 ==> v.read_seq()[0] == (ReadItemView {
            offset: v.trim_point,
            payload: ReadPayloadView::Gap { until: v.trim_point },
        }),
        v.trim_point == 0 ==> forall|i: int|
            0 <= i < v.read_seq().len() ==> #[trigger] v.read_seq()[i] == (ReadItemView {
                offset: (i + 1) as nat,
                payload: ReadPayloadView::Data(v.records[i]),
            }),
        v.trim_point > 0 ==> forall|i: int|
            1 <= i < v.read_seq().len() ==> #[trigger] v.read_seq()[i] == (ReadItemView {
                offset: (v.trim_point + i) as nat,
                payload: ReadPayloadView::Data(v.records[v.trim_point + i - 1]),
            }),
{
}

impl LogletView {
    /// The log position the `k`-th append of a run starting from this state
    /// is acknowledged with, through a segment based at `base`.
    pub open spec fn assigned_position(self, base: u64, k: int) -> int {
        base - 1 + self.assigned_offset(k)
    }
}

/// Law: over any run of appends to one log through one segment, the
/// acknowledged positions are strictly increasing and contiguous from the
/// first assigned position: the `k`-th append returns the position directly
/// after the tail the run started from, plus `k`.
pub proof fn lemma_append_positions_contiguous(
    v: LogletView,
    base: u64,
    batch: Seq<Seq<u8>>,
    k: int,
)
    requires
        0 <= k < batch.len(),
    ensures
        v.assigned_position(base, k) == base - 1 + v.after_appends(
            batch.take(k),
        ).release_pointer() + 1,
        v.assigned_position(base, k) == v.assigned_position(base, 0) + k,
        k < batch.len() - 1 ==> v.assigned_position(base, k + 1) == v.assigned_position(base, k)
            + 1,
{
    lemma_append_offsets_contiguous(v, batch, k);
}

/// Law: durability before acknowledgment, in log positions: directly after
/// an append lands, the readable tail stands exactly at the acknowledged
/// position — a tail lookup reports no less than any position acknowledged
/// so far.
pub proof fn lemma_acked_position_readable(v: LogletView, base: u64, bytes: Seq<u8>)
    requires
        v.wf(),
    ensures
        match v.after_append(bytes).find_tail() {
            Some(t) => base - 1 + t == base - 1 + v.release_pointer() + 1,
            Option::None => false,
        },
{
}

/// Law: a run of appends assigns strictly increasing, contiguous offsets,
/// starting directly after the tail at the start of the run: the `k`-th
/// append is acknowledged with offset `tail + 1 + k`, and the record lands
/// exactly there.
pub proof fn lemma_append_offsets_contiguous(v: LogletView, batch: Seq<Seq<u8>>, k: int)
    requires
        0 <= k < batch.len(),
    ensures
        v.after_appends(batch.take(k)).release_pointer() + 1 == v.assigned_offset(k),
        v.after_appends(batch.take(k + 1)).release_pointer() == v.assigned_offset(k),
        v.after_appends(batch.take(k + 1)).records[v.assigned_offset(k) - 1] == batch[k],
    decreases batch.len(),
{
    lemma_after_appends_concat(v, batch.take(k));
    lemma_after_appends_concat(v, batch.take(k + 1));
    assert(batch.take(k + 1).last() == batch[k]);
    assert(v.after_appends(batch.take(k)).records == v.records + batch.take(k));
    assert(v.after_appends(batch.take(k + 1)).records == v.records + batch.take(k + 1));
    assert((v.records + batch.take(k + 1))[v.records.len() + k] == batch[k]);
}

/// A run of single appends lands the whole batch in order: it reaches the
/// same state as one atomic batch append.
pub proof fn lemma_after_appends_concat(v: LogletView, batch: Seq<Seq<u8>>)
    ensures
        v.after_appends(batch) == v.after_append_all(batch),
    decreases batch.len(),
{
    if batch.len() == 0 {
        assert(v.records + batch =~= v.records);
        assert(v.after_appends(batch) =~= v.after_append_all(batch));
    } else {
        lemma_after_appends_concat(v.after_append(batch[0]), batch.drop_first());
        assert(v.records.push(batch[0]) + batch.drop_first() =~= v.records + batch);
        assert(v.after_appends(batch) =~= v.after_append_all(batch));
    }
}

/// Law: trim safety. After trimming to `t`, reading after any position `x`
/// below `t` yields a gap record at `x + 1` whose `until` is at least `t` —
/// never data at or below `t`.
pub proof fn lemma_trim_read_safety(v: LogletView, t: nat, x: nat)
    requires
        v.wf(),
        t <= v.release_pointer(),
        x < t,
    ensures
        v.after_trim(t).read_next(x) == Some(
            ReadItemView {
                offset: (x + 1) as nat,
                payload: ReadPayloadView::Gap { until: v.after_trim(t).trim_point },
            },
        ),
        v.after_trim(t).trim_point >= t,
{
}

/// Law: trim clamping. Trimming past the release pointer leaves the trim
/// point exactly at the release pointer — the tail of the loglet.
pub proof fn lemma_trim_clamps(v: LogletView, t: nat)
    requires
        v.wf(),
        t >= v.release_pointer(),
    ensures
        v.after_trim(t).trim_point == v.release_pointer(),
{
}

/// Law: trimming twice to the same point changes nothing more than trimming
/// once.
pub proof fn lemma_trim_idempotent(v: LogletView, t: nat)
    ensures
        v.after_trim(t).after_trim(t) == v.after_trim(t),
{
    assert(v.after_trim(t).after_trim(t) =~= v.after_trim(t));
}

/// Law: durability before acknowledgment. The offset an append is
/// acknowledged with is readable at once: a tail lookup after the append
/// reports at least that offset.
pub proof fn lemma_append_then_find_tail(v: LogletView, bytes: Seq<u8>)
    requires
        v.wf(),
    ensures
        v.after_append(bytes).find_tail() == Some((v.release_pointer() + 1) as nat),
{
}

/// Law: what was appended is read back byte-identical. Reading directly
/// after the old tail of the appended-to loglet yields exactly the bytes
/// that were appended, at the acknowledged offset.
pub proof fn lemma_append_read_back(v: LogletView, bytes: Seq<u8>)
    requires
        v.wf(),
        v.trim_point <= v.release_pointer(),
    ensures
        v.after_append(bytes).read_next(v.release_pointer()) == Some(
            ReadItemView {
                offset: (v.release_pointer() + 1) as nat,
                payload: ReadPayloadView::Data(bytes),
            },
        ),
{
}

/// Law: trimming never moves the trim point backwards and never touches the
/// records.
pub proof fn lemma_trim_monotone(v: LogletView, t: nat)
    ensures
        v.after_trim(t).trim_point >= v.trim_point,
        v.after_trim(t).records == v.records,
        v.wf() ==> v.after_trim(t).wf(),
{
}

} // verus!
