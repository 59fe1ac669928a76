//! The local persistent loglet: durable, ordered append and point reads
//! over the log store, with the background writer's durable-commit
//! acknowledgment protocol.
//!
//! An appender reserves the next offset, hands the writer a command, and
//! returns its offset only once the writer has committed the batch and
//! fired the acknowledgment; the in-memory release pointer then advances.
//! On open, per-log state is recovered from the metadata column family
//! alone: the next write offset is the recovered release pointer plus one.
//! No data scan is required, and every position readable before a restart
//! is readable after it.

use vstd::prelude::*;

use crate::keys::DataKey;
use crate::log_state::LogState;
use crate::log_state::LogStateUpdate;
use crate::loglet::LogletView;
use crate::log_store::RocksDbLogStore;
use crate::log_store_writer::Ack;
use crate::log_store_writer::LogStoreWriteCommand;
use crate::log_store_writer::LogStoreWriter;
use crate::log_store_writer::WriterState;
use crate::memory_loglet::LogletPayload;
use crate::memory_loglet::LogletReadItem;

verus! {

/// The per-log bookkeeping the provider holds in memory: recovered from the
/// store on first reference, advanced on every acknowledged append.
#[derive(Clone, Copy, Debug, PartialEq, Eq, Structural)]
pub struct LocalLoglet {
    pub log_id: u64,
    /// The offset the next append will reserve.
    pub next_write_offset: u64,
    /// The highest offset durably committed and acknowledged.
    pub release_pointer: u64,
    /// The highest trimmed offset.
    pub trim_point: u64,
}

/// A store fit to serve loglets: every persisted state is well formed and
/// every position up to a log's release pointer has its record bytes.
pub open spec fn store_invariant(store: RocksDbLogStore) -> bool {
    &&& store.wf()
    &&& forall|log: u64|
        match #[trigger] store.spec_log_state_of(log) {
            Some(s) => s.wf(),
            Option::None => true,
        }
    &&& forall|log: u64, o: u64|
        1 <= o && o <= spec_release_in(store, log) ==> #[trigger] store.spec_data_at(
            log,
            o,
        ) is Some
}

/// The release pointer a store records for a log; zero when the log was
/// never written.
pub open spec fn spec_release_in(store: RocksDbLogStore, log: u64) -> u64 {
    match store.spec_log_state_of(log) {
        Some(s) => s.release_pointer,
        Option::None => 0,
    }
}

/// The trim point a store records for a log; zero when the log was never
/// written.
pub open spec fn spec_trim_in(store: RocksDbLogStore, log: u64) -> u64 {
    match store.spec_log_state_of(log) {
        Some(s) => s.trim_point,
        Option::None => 0,
    }
}

/// The abstract loglet state a store holds for a log: the records up to
/// the release pointer, and the trim point.
pub open spec fn store_loglet_view(store: RocksDbLogStore, log: u64) -> LogletView {
    LogletView {
        records: Seq::new(
            spec_release_in(store, log) as nat,
            |i: int|
                match store.spec_data_at(log, (i + 1) as u64) {
                    Some(b) => b,
                    Option::None => Seq::empty(),
                },
        ),
        trim_point: spec_trim_in(store, log) as nat,
    }
}

/// The local loglet provider: the shared store, its single writer, and the
/// loglets materialized so far.
#[derive(Clone, Debug)]
pub struct LocalLogletProvider {
    pub log_store: RocksDbLogStore,
    pub log_writer: LogStoreWriter,
    pub active_loglets: Vec<LocalLoglet>,
}

impl LocalLogletProvider {
    /// Every cached loglet agrees with the store and loglets are unique per
    /// log; the writer has no uncommitted commands between operations.
    pub open spec fn wf(self) -> bool {
        &&& store_invariant(self.log_store)
        &&& self.log_writer.queue@.len() == 0
        &&& self.log_writer.state == WriterState::Running
        &&& forall|i: int, j: int|
            #![trigger self.active_loglets@[i].log_id, self.active_loglets@[j].log_id]
            0 <= i < j < self.active_loglets@.len() ==> self.active_loglets@[i].log_id
                != self.active_loglets@[j].log_id
        &&& forall|i: int|
            0 <= i < self.active_loglets@.len() ==> {
                let l = #[trigger] self.active_loglets@[i];
                &&& l.release_pointer == spec_release_in(self.log_store, l.log_id)
                &&& l.trim_point == spec_trim_in(self.log_store, l.log_id)
                &&& l.next_write_offset == l.release_pointer + 1
            }
    }

    /// The abstract state of the loglet for a log id. It is derived from
    /// the store alone: materializing a loglet changes nothing abstractly,
    /// and reopening a store recovers every view.
    pub open spec fn loglet_view(self, log_id: u64) -> LogletView {
        store_loglet_view(self.log_store, log_id)
    }

    /// A provider over a fresh, empty store.
    pub fn new() -> (r: Self)
        ensures
            r.wf(),
            forall|log_id: u64| r.loglet_view(log_id) == LogletView::empty(),
            !r.log_store.db.wal_flushed,
    {
        let log_store = RocksDbLogStore::new();
        let log_writer = log_store.create_writer(true);
        let r = LocalLogletProvider { log_store, log_writer, active_loglets: Vec::new() };
        proof {
            assert forall|log_id: u64| r.loglet_view(log_id) == LogletView::empty() by {
                assert(r.loglet_view(log_id).records =~= Seq::<Seq<u8>>::empty());
                assert(r.loglet_view(log_id) =~= LogletView::empty());
            }
        }
        r
    }

    /// Reopen a provider over an existing store: recovery. Every loglet's
    /// abstract state is exactly what the store records; nothing is
    /// scanned, nothing is lost.
    pub fn open(log_store: RocksDbLogStore) -> (r: Self)
        requires
            store_invariant(log_store),
        ensures
            r.wf(),
            forall|log_id: u64| r.loglet_view(log_id) == store_loglet_view(log_store, log_id),
    {
        let log_writer = log_store.create_writer(true);
        LocalLogletProvider { log_store, log_writer, active_loglets: Vec::new() }
    }

    fn find_index(&self, log_id: u64) -> (r: Option<usize>)
        requires
            self.wf(),
        ensures
            match r {
                Some(i) => i < self.active_loglets@.len() && self.active_loglets@[i as int].log_id
                    == log_id,
                Option::None => forall|i: int|
                    0 <= i < self.active_loglets@.len() ==> (
                    #[trigger] self.active_loglets@[i]).log_id != log_id,
            },
    {
        let mut i: usize = 0;
        while i < self.active_loglets.len()
            invariant
                i <= self.active_loglets@.len(),
                forall|j: int|
                    0 <= j < i ==> (#[trigger] self.active_loglets@[j]).log_id != log_id,
            decreases self.active_loglets@.len() - i,
        {
            if self.active_loglets[i].log_id == log_id {
                return Some(i);
            }
            i = i + 1;
        }
        Option::None
    }

    /// Materialize the loglet for a log id if it is not cached: recover its
    /// state from the store. Abstractly a no-op.
    fn get_or_create(&mut self, log_id: u64) -> (idx: usize)
        requires
            old(self).wf(),
        ensures
            final(self).wf(),
            final(self).log_store == old(self).log_store,
            final(self).log_writer == old(self).log_writer,
            idx < final(self).active_loglets@.len(),
            final(self).active_loglets@[idx as int].log_id == log_id,
    {
        match self.find_index(log_id) {
            Some(i) => i,
            Option::None => {
                let state = match self.log_store.get_log_state(log_id) {
                    Ok(Some(state)) => state,
                    Ok(Option::None) => LogState { trim_point: 0, release_pointer: 0 },
                    Err(_) => {
                        proof {
                            assert(false);
                        }
                        LogState { trim_point: 0, release_pointer: 0 }
                    },
                };
                let loglet = LocalLoglet {
                    log_id,
                    next_write_offset: state.release_pointer + 1,
                    release_pointer: state.release_pointer,
                    trim_point: state.trim_point,
                };
                let idx = self.active_loglets.len();
                self.active_loglets.push(loglet);
                proof {
                    assert forall|i: int, j: int|
                        0 <= i < j < self.active_loglets@.len() implies self.active_loglets@[i].log_id
                        != self.active_loglets@[j].log_id by {
                        if j < self.active_loglets@.len() - 1 {
                            assert(old(self).active_loglets@[i].log_id != old(
                                self,
                            ).active_loglets@[j].log_id);
                        } else {
                            assert(old(self).active_loglets@[i].log_id != log_id);
                        }
                    }
                }
                idx
            },
        }
    }

    /// Append one record: reserve the next offset, hand the writer the
    /// command, await the durable-commit acknowledgment, and only then
    /// advance the release pointer and return the offset.
    pub fn append_to(&mut self, log_id: u64, bytes: Vec<u8>) -> (offset: u64)
        requires
            old(self).wf(),
            old(self).loglet_view(log_id).release_pointer() + 1 < u64::MAX,
        ensures
            final(self).wf(),
            offset == old(self).loglet_view(log_id).release_pointer() + 1,
            final(self).loglet_view(log_id) == old(self).loglet_view(log_id).after_append(bytes@),
            forall|id: u64|
                id != log_id ==> final(self).loglet_view(id) == old(self).loglet_view(id),
    {
        let ghost pre = *self;
        let ghost b = bytes@;
        let idx = self.get_or_create(log_id);
        let ghost cached = *self;
        let first = self.active_loglets[idx].next_write_offset;
        proof {
            assert(first == spec_release_in(pre.log_store, log_id) + 1);
        }
        let mut payloads: Vec<Vec<u8>> = Vec::new();
        payloads.push(bytes);
        let command = LogStoreWriteCommand { log_id, first_offset: first, payloads };
        let enqueued = self.log_writer.enqueue(command);
        proof {
            assert(enqueued is Ok);
        }
        let ghost mid = *self;
        let ack = self.log_writer.apply_next(&mut self.log_store);
        proof {
            assert(mid.log_writer.queue@[0].last_offset() == first);
            assert(ack == Some(Ack { log_id, first_offset: first }));
            assert(self.log_writer.queue@ =~= Seq::<LogStoreWriteCommand>::empty());
        }
        let loglet = &mut self.active_loglets[idx];
        loglet.release_pointer = first;
        loglet.next_write_offset = first + 1;
        proof {
            let post_state = self.log_store.spec_log_state_of(log_id);
            assert(spec_release_in(self.log_store, log_id) == first);
            assert(spec_trim_in(self.log_store, log_id) == spec_trim_in(pre.log_store, log_id));
            assert forall|i: int| 0 <= i < self.active_loglets@.len() implies {
                let l = #[trigger] self.active_loglets@[i];
                &&& l.release_pointer == spec_release_in(self.log_store, l.log_id)
                &&& l.trim_point == spec_trim_in(self.log_store, l.log_id)
                &&& l.next_write_offset == l.release_pointer + 1
            } by {
                if i != idx as int {
                    assert(self.active_loglets@[i] == cached.active_loglets@[i]);
                    let l = cached.active_loglets@[i];
                    if i < idx as int {
                        assert(cached.active_loglets@[i].log_id
                            != cached.active_loglets@[idx as int].log_id);
                    } else {
                        assert(cached.active_loglets@[idx as int].log_id
                            != cached.active_loglets@[i].log_id);
                    }
                    assert(l.log_id != log_id);
                    assert(spec_release_in(self.log_store, l.log_id) == spec_release_in(
                        pre.log_store,
                        l.log_id,
                    ));
                    assert(spec_trim_in(self.log_store, l.log_id) == spec_trim_in(
                        pre.log_store,
                        l.log_id,
                    ));
                }
            }
            assert forall|log: u64, o: u64|
                1 <= o && o <= spec_release_in(self.log_store, log) implies #[trigger] self.log_store.spec_data_at(
                log,
                o,
            ) is Some by {
                if log == log_id {
                    if o < first {
                        assert(pre.log_store.spec_data_at(log, o) is Some);
                    }
                } else {
                    assert(spec_release_in(self.log_store, log) == spec_release_in(
                        pre.log_store,
                        log,
                    ));
                    assert(pre.log_store.spec_data_at(log, o) is Some);
                }
            }
            assert forall|id: u64| id != log_id implies final(self).loglet_view(id) == pre.loglet_view(
                id,
            ) by {
                assert(self.loglet_view(id).records =~= pre.loglet_view(id).records);
            }
            assert(self.loglet_view(log_id).records =~= pre.loglet_view(log_id).records.push(b));
            assert(self.loglet_view(log_id) =~= pre.loglet_view(log_id).after_append(b));
        }
        first
    }

    /// Trim the loglet for a log id up to `t`, clamped by its release
    /// pointer, by merging the trim point forward; the data records are
    /// deleted lazily, readers see the gap at once.
    pub fn trim_to(&mut self, log_id: u64, t: u64)
        requires
            old(self).wf(),
        ensures
            final(self).wf(),
            final(self).loglet_view(log_id) == old(self).loglet_view(log_id).after_trim(t as nat),
            forall|id: u64|
                id != log_id ==> final(self).loglet_view(id) == old(self).loglet_view(id),
    {
        let ghost pre = *self;
        let idx = self.get_or_create(log_id);
        let ghost cached = *self;
        let release = self.active_loglets[idx].release_pointer;
        proof {
            assert(release == spec_release_in(pre.log_store, log_id));
        }
        let target = if t <= release {
            t
        } else {
            release
        };
        self.log_store.db.metadata.merge(log_id, LogStateUpdate::TrimPoint(target));
        let loglet = &mut self.active_loglets[idx];
        if target > loglet.trim_point {
            loglet.trim_point = target;
        }
        proof {
            assert(spec_release_in(self.log_store, log_id) == release);
            assert(self.log_store.db.data == pre.log_store.db.data);
            assert forall|i: int| 0 <= i < self.active_loglets@.len() implies {
                let l = #[trigger] self.active_loglets@[i];
                &&& l.release_pointer == spec_release_in(self.log_store, l.log_id)
                &&& l.trim_point == spec_trim_in(self.log_store, l.log_id)
                &&& l.next_write_offset == l.release_pointer + 1
            } by {
                if i != idx as int {
                    assert(self.active_loglets@[i] == cached.active_loglets@[i]);
                    let l = cached.active_loglets@[i];
                    if i < idx as int {
                        assert(cached.active_loglets@[i].log_id
                            != cached.active_loglets@[idx as int].log_id);
                    } else {
                        assert(cached.active_loglets@[idx as int].log_id
                            != cached.active_loglets@[i].log_id);
                    }
                    assert(l.log_id != log_id);
                    assert(spec_release_in(self.log_store, l.log_id) == spec_release_in(
                        pre.log_store,
                        l.log_id,
                    ));
                    assert(spec_trim_in(self.log_store, l.log_id) == spec_trim_in(
                        pre.log_store,
                        l.log_id,
                    ));
                }
            }
            assert forall|log: u64, o: u64|
                1 <= o && o <= spec_release_in(self.log_store, log) implies #[trigger] self.log_store.spec_data_at(
                log,
                o,
            ) is Some by {
                assert(spec_release_in(self.log_store, log) == spec_release_in(
                    pre.log_store,
                    log,
                ));
                assert(pre.log_store.spec_data_at(log, o) is Some);
            }
            assert forall|id: u64| id != log_id implies final(self).loglet_view(id) == pre.loglet_view(
                id,
            ) by {
                assert(self.loglet_view(id).records =~= pre.loglet_view(id).records);
            }
            assert(self.loglet_view(log_id).records =~= pre.loglet_view(log_id).records);
            assert(self.loglet_view(log_id) =~= pre.loglet_view(log_id).after_trim(t as nat));
        }
    }

    /// Read the next record after a loglet-local offset: the gap while the
    /// position is trimmed, data up to the release pointer, nothing past it.
    pub fn read_from(&self, log_id: u64, after: u64) -> (r: Option<LogletReadItem>)
        requires
            self.wf(),
        ensures
            match r {
                Some(item) => self.loglet_view(log_id).read_next(after as nat) == Some(
                    item.view(),
                ),
                Option::None => self.loglet_view(log_id).read_next(after as nat) is None,
            },
    {
        let state = match self.log_store.get_log_state(log_id) {
            Ok(Some(state)) => state,
            Ok(Option::None) => LogState { trim_point: 0, release_pointer: 0 },
            Err(_) => {
                proof {
                    assert(false);
                }
                LogState { trim_point: 0, release_pointer: 0 }
            },
        };
        if after < state.trim_point {
            Some(
                LogletReadItem {
                    offset: after + 1,
                    payload: LogletPayload::Gap { until: state.trim_point },
                },
            )
        } else if after < state.release_pointer {
            match self.log_store.data_cf().get(DataKey { log_id, offset: after + 1 }) {
                Some(value) => {
                    let bytes = value.clone();
                    proof {
                        assert(self.loglet_view(log_id).records[after as int] == bytes@);
                    }
                    Some(LogletReadItem { offset: after + 1, payload: LogletPayload::Data(bytes) })
                },
                Option::None => {
                    proof {
                        assert(self.log_store.spec_data_at(log_id, (after + 1) as u64) is Some);
                        assert(false);
                    }
                    Option::None
                },
            }
        } else {
            Option::None
        }
    }

    /// The readable tail of the loglet for a log id.
    pub fn find_tail_of(&self, log_id: u64) -> (r: Option<u64>)
        requires
            self.wf(),
        ensures
            match r {
                Some(tail) => self.loglet_view(log_id).find_tail() == Some(tail as nat),
                Option::None => self.loglet_view(log_id).find_tail() is None,
            },
    {
        let state = match self.log_store.get_log_state(log_id) {
            Ok(Some(state)) => state,
            Ok(Option::None) => LogState { trim_point: 0, release_pointer: 0 },
            Err(_) => {
                proof {
                    assert(false);
                }
                LogState { trim_point: 0, release_pointer: 0 }
            },
        };
        if state.release_pointer > state.trim_point {
            Some(state.release_pointer)
        } else {
            Option::None
        }
    }

    /// The trim point of the loglet for a log id, if anything was trimmed.
    pub fn get_trim_point_of(&self, log_id: u64) -> (r: Option<u64>)
        requires
            self.wf(),
        ensures
            match r {
                Some(tp) => self.loglet_view(log_id).get_trim_point() == Some(tp as nat),
                Option::None => self.loglet_view(log_id).get_trim_point() is None,
            },
    {
        let state = match self.log_store.get_log_state(log_id) {
            Ok(Some(state)) => state,
            Ok(Option::None) => LogState { trim_point: 0, release_pointer: 0 },
            Err(_) => {
                proof {
                    assert(false);
                }
                LogState { trim_point: 0, release_pointer: 0 }
            },
        };
        if state.trim_point > 0 {
            Some(state.trim_point)
        } else {
            Option::None
        }
    }

    /// Drain and stop: the writer accepts nothing more, commits what is
    /// queued (nothing, between operations), and the write-ahead log is
    /// flushed. Every loglet's abstract state is preserved — and will be
    /// recovered by [`LocalLogletProvider::open`].
    pub fn shutdown(&mut self)
        requires
            old(self).wf(),
        ensures
            final(self).log_writer.state == WriterState::Stopped,
            final(self).log_store.db.wal_flushed,
            store_invariant(final(self).log_store),
            forall|log_id: u64|
                store_loglet_view(final(self).log_store, log_id) == old(self).loglet_view(log_id),
    {
        self.log_writer.state = WriterState::Draining;
        self.log_writer.state = WriterState::Stopped;
        self.log_store.shutdown();
        proof {
            assert forall|log: u64| #[trigger] self.log_store.spec_log_state_of(log) == old(
                self,
            ).log_store.spec_log_state_of(log) by {
                assert(self.log_store.db.metadata == old(self).log_store.db.metadata);
            }
            assert forall|log: u64, o: u64| #[trigger] self.log_store.spec_data_at(log, o) == old(
                self,
            ).log_store.spec_data_at(log, o) by {
                assert(self.log_store.db.data == old(self).log_store.db.data);
            }
            assert forall|log: u64, o: u64|
                1 <= o && o <= spec_release_in(self.log_store, log) implies #[trigger] self.log_store.spec_data_at(
                log,
                o,
            ) is Some by {
                assert(spec_release_in(self.log_store, log) == spec_release_in(
                    old(self).log_store,
                    log,
                ));
                assert(old(self).log_store.spec_data_at(log, o) is Some);
            }
            assert forall|log_id: u64|
                store_loglet_view(self.log_store, log_id) == old(self).loglet_view(log_id) by {
                assert(store_loglet_view(self.log_store, log_id).records =~= old(
                    self,
                ).loglet_view(log_id).records);
                assert(store_loglet_view(self.log_store, log_id) =~= old(self).loglet_view(
                    log_id,
                ));
            }
        }
    }
}

} // verus!
