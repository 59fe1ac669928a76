//! The per-log durable state machine of the local loglet.
//!
//! A [`LogState`] holds the trim point and the release pointer of one log.
//! Updates are merge operands: each advances one of the two fields to a
//! maximum and never decreases either, so concurrent tail advancements
//! compose in any order. The value is persisted as a compact binary
//! encoding led by a format tag byte.

use vstd::prelude::*;

use vstd::bytes::lemma_auto_spec_u64_to_from_le_bytes;
use vstd::bytes::spec_u64_from_le_bytes;
use vstd::bytes::spec_u64_to_le_bytes;
use vstd::bytes::u64_from_le_bytes;
use vstd::bytes::u64_to_le_bytes;

verus! {

/// The leading tag byte of every encoded [`LogState`].
pub const LOG_STATE_FORMAT_TAG: u8 = 1;

/// The durable per-log state: what was trimmed and what is readable.
#[derive(Clone, Copy, Debug, Hash, PartialEq, Eq, Structural)]
pub struct LogState {
    /// Highest trimmed position; `0` when nothing was trimmed.
    pub trim_point: u64,
    /// Highest position known durable and readable.
    pub release_pointer: u64,
}

impl LogState {
    /// The trim point never passes the release pointer, and the release
    /// pointer leaves headroom below the reserved sentinel.
    pub open spec fn wf(self) -> bool {
        &&& self.trim_point <= self.release_pointer
        &&& self.release_pointer < u64::MAX
    }
}

impl Default for LogState {
    /// The state of a log never written to.
    fn default() -> (r: Self)
        ensures
            r == (LogState { trim_point: 0u64, release_pointer: 0u64 }),
    {
        LogState { trim_point: 0, release_pointer: 0 }
    }
}

/// One merge operand: advance one field to a maximum.
#[derive(Clone, Copy, Debug, Hash, PartialEq, Eq, Structural)]
pub enum LogStateUpdate {
    ReleasePointer(u64),
    TrimPoint(u64),
}

/// The state after one merge operand: the addressed field advances to the
/// operand's value if that is greater; nothing ever decreases.
pub open spec fn spec_apply_update(s: LogState, u: LogStateUpdate) -> LogState {
    match u {
        LogStateUpdate::ReleasePointer(v) => LogState {
            trim_point: s.trim_point,
            release_pointer: if v > s.release_pointer {
                v
            } else {
                s.release_pointer
            },
        },
        LogStateUpdate::TrimPoint(v) => LogState {
            trim_point: if v > s.trim_point {
                v
            } else {
                s.trim_point
            },
            release_pointer: s.release_pointer,
        },
    }
}

/// The state after a sequence of merge operands, first operand first.
pub open spec fn spec_apply_updates(s: LogState, us: Seq<LogStateUpdate>) -> LogState
    decreases us.len(),
{
    if us.len() == 0 {
        s
    } else {
        spec_apply_updates(spec_apply_update(s, us[0]), us.drop_first())
    }
}

/// Law: merge operands commute — applying two operands in either order
/// reaches the same state.
pub proof fn lemma_update_commutes(s: LogState, a: LogStateUpdate, b: LogStateUpdate)
    ensures
        spec_apply_update(spec_apply_update(s, a), b) == spec_apply_update(
            spec_apply_update(s, b),
            a,
        ),
{
}

/// Law: merging never decreases either field.
pub proof fn lemma_updates_monotone(s: LogState, us: Seq<LogStateUpdate>)
    ensures
        spec_apply_updates(s, us).trim_point >= s.trim_point,
        spec_apply_updates(s, us).release_pointer >= s.release_pointer,
    decreases us.len(),
{
    if us.len() > 0 {
        lemma_updates_monotone(spec_apply_update(s, us[0]), us.drop_first());
    }
}

/// Law: merging is associative over operand sequences — folding a
/// concatenation equals folding the parts in turn. Partial merges may
/// therefore pre-fold operand runs.
pub proof fn lemma_updates_associative(s: LogState, us1: Seq<LogStateUpdate>, us2: Seq<
    LogStateUpdate,
>)
    ensures
        spec_apply_updates(s, us1 + us2) == spec_apply_updates(spec_apply_updates(s, us1), us2),
    decreases us1.len(),
{
    if us1.len() == 0 {
        assert(us1 + us2 =~= us2);
    } else {
        lemma_updates_associative(spec_apply_update(s, us1[0]), us1.drop_first(), us2);
        assert((us1 + us2).drop_first() =~= us1.drop_first() + us2);
    }
}

/// The greatest release-pointer operand of a run, if any.
pub open spec fn spec_max_release(us: Seq<LogStateUpdate>) -> Option<u64>
    decreases us.len(),
{
    if us.len() == 0 {
        Option::None
    } else {
        let rest = spec_max_release(us.drop_first());
        match us[0] {
            LogStateUpdate::ReleasePointer(v) => match rest {
                Some(m) => Some(
                    if v > m {
                        v
                    } else {
                        m
                    },
                ),
                Option::None => Some(v),
            },
            LogStateUpdate::TrimPoint(_) => rest,
        }
    }
}

/// The greatest trim-point operand of a run, if any.
pub open spec fn spec_max_trim(us: Seq<LogStateUpdate>) -> Option<u64>
    decreases us.len(),
{
    if us.len() == 0 {
        Option::None
    } else {
        let rest = spec_max_trim(us.drop_first());
        match us[0] {
            LogStateUpdate::TrimPoint(v) => match rest {
                Some(m) => Some(
                    if v > m {
                        v
                    } else {
                        m
                    },
                ),
                Option::None => Some(v),
            },
            LogStateUpdate::ReleasePointer(_) => rest,
        }
    }
}

/// Folding a run of operands advances each field to the greatest operand
/// addressed to it, if that beats the existing value.
pub proof fn lemma_apply_updates_characterized(s: LogState, us: Seq<LogStateUpdate>)
    ensures
        spec_apply_updates(s, us).release_pointer == match spec_max_release(us) {
            Some(m) => if m > s.release_pointer {
                m
            } else {
                s.release_pointer
            },
            Option::None => s.release_pointer,
        },
        spec_apply_updates(s, us).trim_point == match spec_max_trim(us) {
            Some(m) => if m > s.trim_point {
                m
            } else {
                s.trim_point
            },
            Option::None => s.trim_point,
        },
    decreases us.len(),
{
    if us.len() > 0 {
        lemma_apply_updates_characterized(spec_apply_update(s, us[0]), us.drop_first());
    }
}

/// The full merge of the store: fold every operand over the existing state,
/// or over the never-written state when none exists.
pub fn log_state_full_merge(existing: Option<LogState>, operands: &Vec<LogStateUpdate>) -> (r:
    LogState)
    ensures
        r == spec_apply_updates(
            match existing {
                Some(s) => s,
                Option::None => LogState { trim_point: 0u64, release_pointer: 0u64 },
            },
            operands@,
        ),
{
    let mut s = match existing {
        Some(s) => s,
        Option::None => LogState { trim_point: 0, release_pointer: 0 },
    };
    let ghost start = s;
    let mut i: usize = 0;
    while i < operands.len()
        invariant
            i <= operands@.len(),
            s == spec_apply_updates(start, operands@.take(i as int)),
        decreases operands@.len() - i,
    {
        let ghost before = s;
        match operands[i] {
            LogStateUpdate::ReleasePointer(v) => {
                if v > s.release_pointer {
                    s.release_pointer = v;
                }
            },
            LogStateUpdate::TrimPoint(v) => {
                if v > s.trim_point {
                    s.trim_point = v;
                }
            },
        }
        proof {
            assert(s == spec_apply_update(before, operands@[i as int]));
            lemma_apply_take_step(start, operands@, i as int);
        }
        i = i + 1;
    }
    proof {
        assert(operands@.take(operands@.len() as int) =~= operands@);
    }
    s
}

/// Folding one more operand extends the fold of the prefix.
proof fn lemma_apply_take_step(s: LogState, us: Seq<LogStateUpdate>, i: int)
    requires
        0 <= i < us.len(),
    ensures
        spec_apply_updates(s, us.take(i + 1)) == spec_apply_update(
            spec_apply_updates(s, us.take(i)),
            us[i],
        ),
{
    reveal_with_fuel(spec_apply_updates, 3);
    assert(us.take(i + 1) =~= us.take(i) + seq![us[i]]);
    lemma_updates_associative(s, us.take(i), seq![us[i]]);
    assert(seq![us[i]].drop_first() =~= Seq::<LogStateUpdate>::empty());
    assert(spec_apply_updates(spec_apply_updates(s, us.take(i)), seq![us[i]])
        == spec_apply_update(spec_apply_updates(s, us.take(i)), us[i]));
}

/// The partial merge of the store: fold a run of operands, without an
/// existing value, into at most two operands with the same effect on every
/// state.
pub fn log_state_partial_merge(operands: &Vec<LogStateUpdate>) -> (r: Vec<LogStateUpdate>)
    ensures
        r@.len() <= 2,
        forall|s: LogState| spec_apply_updates(s, r@) == spec_apply_updates(s, operands@),
{
    let mut max_release: Option<u64> = Option::None;
    let mut max_trim: Option<u64> = Option::None;
    let mut i: usize = 0;
    while i < operands.len()
        invariant
            i <= operands@.len(),
            max_release == spec_max_release(operands@.take(i as int)),
            max_trim == spec_max_trim(operands@.take(i as int)),
        decreases operands@.len() - i,
    {
        match operands[i] {
            LogStateUpdate::ReleasePointer(v) => {
                max_release = match max_release {
                    Some(m) => Some(
                        if v > m {
                            v
                        } else {
                            m
                        },
                    ),
                    Option::None => Some(v),
                };
            },
            LogStateUpdate::TrimPoint(v) => {
                max_trim = match max_trim {
                    Some(m) => Some(
                        if v > m {
                            v
                        } else {
                            m
                        },
                    ),
                    Option::None => Some(v),
                };
            },
        }
        proof {
            lemma_max_take_step(operands@, i as int);
        }
        i = i + 1;
    }
    proof {
        assert(operands@.take(operands@.len() as int) =~= operands@);
    }
    let mut out: Vec<LogStateUpdate> = Vec::new();
    if let Some(m) = max_release {
        out.push(LogStateUpdate::ReleasePointer(m));
    }
    if let Some(m) = max_trim {
        out.push(LogStateUpdate::TrimPoint(m));
    }
    proof {
        assert forall|s: LogState| spec_apply_updates(s, out@) == spec_apply_updates(
            s,
            operands@,
        ) by {
            lemma_apply_updates_characterized(s, out@);
            lemma_apply_updates_characterized(s, operands@);
            reveal_with_fuel(spec_max_release, 4);
            reveal_with_fuel(spec_max_trim, 4);
            match (max_release, max_trim) {
                (Some(mr), Some(mt)) => {
                    assert(out@ =~= seq![
                        LogStateUpdate::ReleasePointer(mr),
                        LogStateUpdate::TrimPoint(mt),
                    ]);
                    assert(out@.drop_first() =~= seq![LogStateUpdate::TrimPoint(mt)]);
                    assert(out@.drop_first().drop_first() =~= Seq::<LogStateUpdate>::empty());
                    assert(spec_max_release(out@) == Some(mr));
                    assert(spec_max_trim(out@) == Some(mt));
                },
                (Some(mr), Option::None) => {
                    assert(out@ =~= seq![LogStateUpdate::ReleasePointer(mr)]);
                },
                (Option::None, Some(mt)) => {
                    assert(out@ =~= seq![LogStateUpdate::TrimPoint(mt)]);
                },
                (Option::None, Option::None) => {
                    assert(out@ =~= Seq::<LogStateUpdate>::empty());
                },
            }
        }
    }
    out
}

/// Folding the maxima over one more operand.
proof fn lemma_max_take_step(us: Seq<LogStateUpdate>, i: int)
    requires
        0 <= i < us.len(),
    ensures
        spec_max_release(us.take(i + 1)) == match us[i] {
            LogStateUpdate::ReleasePointer(v) => match spec_max_release(us.take(i)) {
                Some(m) => Some(
                    if v > m {
                        v
                    } else {
                        m
                    },
                ),
                Option::None => Some(v),
            },
            LogStateUpdate::TrimPoint(_) => spec_max_release(us.take(i)),
        },
        spec_max_trim(us.take(i + 1)) == match us[i] {
            LogStateUpdate::TrimPoint(v) => match spec_max_trim(us.take(i)) {
                Some(m) => Some(
                    if v > m {
                        v
                    } else {
                        m
                    },
                ),
                Option::None => Some(v),
            },
            LogStateUpdate::ReleasePointer(_) => spec_max_trim(us.take(i)),
        },
    decreases i,
{
    lemma_max_append(us.take(i), us[i]);
    assert(us.take(i + 1) =~= us.take(i).push(us[i]));
}

/// The maxima of a run extended by one operand.
proof fn lemma_max_append(us: Seq<LogStateUpdate>, u: LogStateUpdate)
    ensures
        spec_max_release(us.push(u)) == match u {
            LogStateUpdate::ReleasePointer(v) => match spec_max_release(us) {
                Some(m) => Some(
                    if v > m {
                        v
                    } else {
                        m
                    },
                ),
                Option::None => Some(v),
            },
            LogStateUpdate::TrimPoint(_) => spec_max_release(us),
        },
        spec_max_trim(us.push(u)) == match u {
            LogStateUpdate::TrimPoint(v) => match spec_max_trim(us) {
                Some(m) => Some(
                    if v > m {
                        v
                    } else {
                        m
                    },
                ),
                Option::None => Some(v),
            },
            LogStateUpdate::ReleasePointer(_) => spec_max_trim(us),
        },
    decreases us.len(),
{
    reveal_with_fuel(spec_max_release, 3);
    reveal_with_fuel(spec_max_trim, 3);
    if us.len() == 0 {
        assert(us.push(u).drop_first() =~= Seq::<LogStateUpdate>::empty());
        assert(us.push(u)[0] == u);
    } else {
        lemma_max_append(us.drop_first(), u);
        assert(us.push(u).drop_first() =~= us.drop_first().push(u));
        assert(us.push(u)[0] == us[0]);
        assert(us.push(u).len() == us.len() + 1);
    }
}

/// The persisted form of a state: the format tag, then both fields
/// little-endian.
pub open spec fn spec_log_state_bytes(s: LogState) -> Seq<u8> {
    seq![LOG_STATE_FORMAT_TAG] + spec_u64_to_le_bytes(s.trim_point) + spec_u64_to_le_bytes(
        s.release_pointer,
    )
}

/// What decoding yields on arbitrary bytes: the state whose encoding they
/// are, if they are one.
pub open spec fn spec_decode_log_state(bytes: Seq<u8>) -> Option<LogState> {
    if bytes.len() == 17 && bytes[0] == LOG_STATE_FORMAT_TAG {
        Some(
            LogState {
                trim_point: spec_u64_from_le_bytes(bytes.subrange(1, 9)),
                release_pointer: spec_u64_from_le_bytes(bytes.subrange(9, 17)),
            },
        )
    } else {
        Option::None
    }
}

/// Law: decoding is total on the codec's own output and returns the state
/// unchanged.
pub proof fn lemma_log_state_round_trip(s: LogState)
    ensures
        spec_decode_log_state(spec_log_state_bytes(s)) == Some(s),
{
    lemma_auto_spec_u64_to_from_le_bytes();
    assert(spec_log_state_bytes(s).subrange(1, 9) =~= spec_u64_to_le_bytes(s.trim_point));
    assert(spec_log_state_bytes(s).subrange(9, 17) =~= spec_u64_to_le_bytes(s.release_pointer));
}

impl LogState {
    /// Encode the state for the store.
    pub fn to_bytes(&self) -> (r: Vec<u8>)
        ensures
            r@ == spec_log_state_bytes(*self),
    {
        let mut out: Vec<u8> = Vec::new();
        out.push(LOG_STATE_FORMAT_TAG);
        let trim = u64_to_le_bytes(self.trim_point);
        let release = u64_to_le_bytes(self.release_pointer);
        out.extend_from_slice(trim.as_slice());
        out.extend_from_slice(release.as_slice());
        proof {
            assert(out@ =~= spec_log_state_bytes(*self));
        }
        out
    }

    /// Decode a stored value. Total on the output of [`LogState::to_bytes`];
    /// `None` on bytes the codec never produced.
    pub fn from_slice(bytes: &Vec<u8>) -> (r: Option<LogState>)
        ensures
            r == spec_decode_log_state(bytes@),
    {
        if bytes.len() == 17 && bytes[0] == LOG_STATE_FORMAT_TAG {
            let mut trim_bytes: Vec<u8> = Vec::new();
            let mut release_bytes: Vec<u8> = Vec::new();
            let mut i: usize = 1;
            while i < 9
                invariant
                    1 <= i <= 9,
                    bytes@.len() == 17,
                    trim_bytes@ =~= bytes@.subrange(1, i as int),
                decreases 9 - i,
            {
                trim_bytes.push(bytes[i]);
                i = i + 1;
            }
            let mut j: usize = 9;
            while j < 17
                invariant
                    9 <= j <= 17,
                    bytes@.len() == 17,
                    release_bytes@ =~= bytes@.subrange(9, j as int),
                decreases 17 - j,
            {
                release_bytes.push(bytes[j]);
                j = j + 1;
            }
            let trim_point = u64_from_le_bytes(trim_bytes.as_slice());
            let release_pointer = u64_from_le_bytes(release_bytes.as_slice());
            Some(LogState { trim_point, release_pointer })
        } else {
            Option::None
        }
    }
}

} // verus!
