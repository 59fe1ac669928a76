//! The single background writer of the local log store.
//!
//! Appenders reserve a contiguous offset range, hand the writer a command
//! with the record bytes, and are acknowledged only after the command is
//! durably committed: one atomic batch writes the data records and merges
//! the log's release pointer forward to the command's last offset. Shutdown
//! runs `Running → Draining → Stopped`: a draining writer accepts no new
//! commands but commits what is queued.

use vstd::prelude::*;

use crate::bifrost::Error;
use crate::keys::DataKey;
use crate::log_state::LogState;
use crate::log_state::LogStateUpdate;
use crate::log_state::spec_apply_update;
use crate::log_store::RocksDbLogStore;

verus! {

/// The lifecycle of the writer.
#[derive(Clone, Copy, Debug, PartialEq, Eq, Structural)]
pub enum WriterState {
    Running,
    Draining,
    Stopped,
}

/// One write command: a contiguous run of records of one log, starting at
/// a reserved offset.
#[derive(Clone, Debug)]
pub struct LogStoreWriteCommand {
    pub log_id: u64,
    pub first_offset: u64,
    pub payloads: Vec<Vec<u8>>,
}

impl LogStoreWriteCommand {
    /// Offsets start at 1, the run is non-empty, and its last offset leaves
    /// the sentinel free.
    pub open spec fn wf(self) -> bool {
        &&& self.first_offset >= 1
        &&& self.payloads@.len() >= 1
        &&& self.first_offset + self.payloads@.len() - 1 < u64::MAX
    }

    /// The offset of the command's last record.
    pub open spec fn last_offset(self) -> int {
        self.first_offset + self.payloads@.len() - 1
    }
}

/// The durability acknowledgment fired for one committed command.
#[derive(Clone, Copy, Debug, PartialEq, Eq, Structural)]
pub struct Ack {
    pub log_id: u64,
    pub first_offset: u64,
}

/// The writer: its lifecycle state and the commands not yet committed.
#[derive(Clone, Debug)]
pub struct LogStoreWriter {
    pub state: WriterState,
    pub queue: Vec<LogStoreWriteCommand>,
    pub manual_wal_flush: bool,
}

impl LogStoreWriter {
    /// A fresh, running writer with an empty queue.
    pub fn new(manual_wal_flush: bool) -> (r: Self)
        ensures
            r.state == WriterState::Running,
            r.queue@.len() == 0,
            r.manual_wal_flush == manual_wal_flush,
    {
        LogStoreWriter { state: WriterState::Running, queue: Vec::new(), manual_wal_flush }
    }

    /// Hand the writer a command. A writer that is draining or stopped
    /// accepts nothing and the caller sees `Shutdown`.
    pub fn enqueue(&mut self, command: LogStoreWriteCommand) -> (r: Result<(), Error>)
        ensures
            final(self).state == old(self).state,
            final(self).manual_wal_flush == old(self).manual_wal_flush,
            old(self).state == WriterState::Running ==> r == Ok::<(), Error>(()) && final(self).queue@ == old(self).queue@.push(command),
            old(self).state != WriterState::Running ==> r == Err::<(), Error>(Error::Shutdown)
                && final(self).queue@ == old(self).queue@,
    {
        match self.state {
            WriterState::Running => {
                self.queue.push(command);
                Ok(())
            },
            _ => Err(Error::Shutdown),
        }
    }

    /// Commit the oldest queued command as one atomic batch: every record
    /// lands in the data column family and the log's release pointer merges
    /// forward to the command's last offset. Returns the acknowledgment to
    /// fire; the appender learns its offset only now.
    pub fn apply_next(&mut self, store: &mut RocksDbLogStore) -> (r: Option<Ack>)
        requires
            old(store).wf(),
            old(self).queue@.len() > 0 ==> {
                let cmd = old(self).queue@[0];
                &&& cmd.wf()
                &&& match old(store).spec_log_state_of(cmd.log_id) {
                    Some(s) => s.wf(),
                    Option::None => true,
                }
            },
        ensures
            final(store).wf(),
            final(self).state == old(self).state,
            final(self).manual_wal_flush == old(self).manual_wal_flush,
            old(self).queue@.len() == 0 ==> r is None && final(self).queue@ == old(self).queue@
                && *final(store) == *old(store),
            old(self).queue@.len() > 0 ==> {
                let cmd = old(self).queue@[0];
                &&& final(self).queue@ == old(self).queue@.drop_first()
                &&& r == Some(Ack { log_id: cmd.log_id, first_offset: cmd.first_offset })
                &&& forall|o: u64|
                    cmd.first_offset <= o <= cmd.last_offset() ==> final(store).spec_data_at(
                        cmd.log_id,
                        o,
                    ) == Some(cmd.payloads@[o - cmd.first_offset]@)
                &&& forall|log: u64, o: u64|
                    log != cmd.log_id || o < cmd.first_offset || o > cmd.last_offset() ==> final(store).spec_data_at(log, o) == old(store).spec_data_at(log, o)
                &&& final(store).spec_log_state_of(cmd.log_id) == Some(
                    spec_apply_update(
                        match old(store).spec_log_state_of(cmd.log_id) {
                            Some(s) => s,
                            Option::None => LogState { trim_point: 0u64, release_pointer: 0u64 },
                        },
                        LogStateUpdate::ReleasePointer(cmd.last_offset() as u64),
                    ),
                )
                &&& forall|log: u64|
                    log != cmd.log_id ==> final(store).spec_log_state_of(log) == old(store).spec_log_state_of(log)
                &&& final(store).db.wal_flushed == old(store).db.wal_flushed
            },
    {
        if self.queue.len() == 0 {
            return Option::None;
        }
        let cmd = self.queue.remove(0);
        let ghost cmdg = cmd;
        let log_id = cmd.log_id;
        let first = cmd.first_offset;
        let payloads = cmd.payloads;
        let ghost pre_store = *store;
        let mut i: usize = 0;
        while i < payloads.len()
            invariant
                payloads@.len() >= 1,
                first >= 1,
                first + payloads@.len() - 1 < u64::MAX,
                i <= payloads@.len(),
                store.wf(),
                store.db.metadata == pre_store.db.metadata,
                store.db.wal_flushed == pre_store.db.wal_flushed,
                forall|o: u64|
                    first <= o < first + i ==> store.spec_data_at(log_id, o) == Some(
                        payloads@[o - first]@,
                    ),
                forall|log: u64, o: u64|
                    log != log_id || o < first || o >= first + payloads@.len() ==> store.spec_data_at(
                        log,
                        o,
                    ) == pre_store.spec_data_at(log, o),
                forall|o: u64|
                    first + i <= o < first + payloads@.len() ==> store.spec_data_at(log_id, o)
                        == pre_store.spec_data_at(log_id, o),
            decreases payloads@.len() - i,
        {
            let offset = first + i as u64;
            let bytes = payloads[i].clone();
            let ghost b = bytes@;
            let ghost pre_iter = *store;
            proof {
                assert(b == payloads@[i as int]@);
            }
            store.db.data.put(DataKey { log_id, offset }, bytes);
            proof {
                assert(store.spec_data_at(log_id, offset) == Some(b));
                assert forall|o: u64| first <= o < first + i + 1 implies store.spec_data_at(
                    log_id,
                    o,
                ) == Some(payloads@[o - first]@) by {
                    if o != offset {
                        let k = DataKey { log_id, offset: o };
                        assert(k != DataKey { log_id, offset });
                        assert(pre_iter.spec_data_at(log_id, o) == Some(payloads@[o - first]@));
                        assert(store.db.data.record_at(k) == pre_iter.db.data.record_at(k));
                    } else {
                        assert(payloads@[o - first]@ == b);
                    }
                }
                assert forall|log: u64, o: u64|
                    log != log_id || o < first || o >= first + payloads@.len() implies store.spec_data_at(
                    log,
                    o,
                ) == pre_store.spec_data_at(log, o) by {
                    let k = DataKey { log_id: log, offset: o };
                    assert(k != DataKey { log_id, offset });
                    assert(pre_iter.spec_data_at(log, o) == pre_store.spec_data_at(log, o));
                    assert(store.db.data.record_at(k) == pre_iter.db.data.record_at(k));
                }
                assert forall|o: u64|
                    first + i + 1 <= o < first + payloads@.len() implies store.spec_data_at(
                    log_id,
                    o,
                ) == pre_store.spec_data_at(log_id, o) by {
                    let k = DataKey { log_id, offset: o };
                    assert(k != DataKey { log_id, offset });
                    assert(pre_iter.spec_data_at(log_id, o) == pre_store.spec_data_at(log_id, o));
                    assert(store.db.data.record_at(k) == pre_iter.db.data.record_at(k));
                }
            }
            i = i + 1;
        }
        let ghost exit_store = *store;
        store.db.metadata.merge(
            log_id,
            LogStateUpdate::ReleasePointer(first + (payloads.len() - 1) as u64),
        );
        proof {
            assert(store.db.data == exit_store.db.data);
            assert forall|o: u64| first <= o < first + payloads@.len() implies store.spec_data_at(
                log_id,
                o,
            ) == Some(payloads@[o - first]@) by {
                assert(exit_store.spec_data_at(log_id, o) == Some(payloads@[o - first]@));
            }
        }
        Some(Ack { log_id, first_offset: first })
    }
}

} // verus!
