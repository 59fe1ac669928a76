//! The ordered key-value store behind the local loglet.
//!
//! Two column families: `data` maps `(log_id, offset)` keys to raw record
//! bytes, `metadata` maps a log id to its encoded [`LogState`], maintained
//! through the merge operator of [`crate::log_state`]. The store is written
//! only by the single log store writer.

use vstd::prelude::*;

use crate::keys::DataKey;
use crate::log_state::LogState;
use crate::log_state::LogStateUpdate;
use crate::log_state::log_state_full_merge;
use crate::log_state::spec_apply_update;
use crate::log_state::spec_decode_log_state;
use crate::log_state::lemma_log_state_round_trip;
use crate::log_store_writer::LogStoreWriter;

verus! {

/// The stable name of the local loglet's database.
pub const DB_NAME: &'static str = "local-loglet";

/// The stable name of the data column family.
pub const DATA_CF: &'static str = "logstore_data";

/// The stable name of the metadata column family.
pub const METADATA_CF: &'static str = "logstore_metadata";

/// The internal error kinds of the local log store.
#[derive(Clone, Copy, Debug, PartialEq, Eq, Structural)]
pub enum LogStoreError {
    Encode,
    Decode,
    Rocksdb,
    Manager,
}

/// One record of the data column family.
#[derive(Clone, Debug)]
pub struct DataEntry {
    pub key: DataKey,
    pub value: Vec<u8>,
}

/// The data column family: record bytes keyed by `(log_id, offset)`.
#[derive(Clone, Debug)]
pub struct DataCf {
    pub entries: Vec<DataEntry>,
}

impl DataCf {
    /// Keys are unique.
    pub open spec fn wf(self) -> bool {
        forall|i: int, j: int|
            #![trigger self.entries@[i].key, self.entries@[j].key]
            0 <= i < j < self.entries@.len() ==> self.entries@[i].key != self.entries@[j].key
    }

    pub open spec fn has_record(self, key: DataKey) -> bool {
        exists|i: int| 0 <= i < self.entries@.len() && self.entries@[i].key == key
    }

    pub open spec fn spec_index_of(self, key: DataKey) -> int {
        choose|i: int| 0 <= i < self.entries@.len() && self.entries@[i].key == key
    }

    /// The bytes stored under `key`, if any.
    pub open spec fn record_at(self, key: DataKey) -> Option<Seq<u8>> {
        if self.has_record(key) {
            Some(self.entries@[self.spec_index_of(key)].value@)
        } else {
            Option::None
        }
    }

    /// The entry at a position with a matching key is the one the view
    /// speaks of.
    pub proof fn lemma_record_at(self, i: int)
        requires
            self.wf(),
            0 <= i < self.entries@.len(),
        ensures
            self.has_record(self.entries@[i].key),
            self.spec_index_of(self.entries@[i].key) == i,
            self.record_at(self.entries@[i].key) == Some(self.entries@[i].value@),
    {
        let key = self.entries@[i].key;
        assert(0 <= i < self.entries@.len() && self.entries@[i].key == key);
        let j = self.spec_index_of(key);
        if j < i {
            assert(self.entries@[j].key != self.entries@[i].key);
        } else if j > i {
            assert(self.entries@[i].key != self.entries@[j].key);
        }
    }

    fn find_index(&self, key: DataKey) -> (r: Option<usize>)
        requires
            self.wf(),
        ensures
            match r {
                Some(i) => i < self.entries@.len() && self.entries@[i as int].key == key
                    && self.spec_index_of(key) == i && self.has_record(key),
                Option::None => !self.has_record(key),
            },
    {
        let mut i: usize = 0;
        while i < self.entries.len()
            invariant
                self.wf(),
                i <= self.entries@.len(),
                forall|j: int| 0 <= j < i ==> (#[trigger] self.entries@[j]).key != key,
            decreases self.entries@.len() - i,
        {
            if self.entries[i].key == key {
                proof {
                    self.lemma_record_at(i as int);
                }
                return Some(i);
            }
            i = i + 1;
        }
        Option::None
    }

    /// Point lookup.
    pub fn get(&self, key: DataKey) -> (r: Option<&Vec<u8>>)
        requires
            self.wf(),
        ensures
            match r {
                Some(v) => self.record_at(key) == Some(v@),
                Option::None => self.record_at(key) is None,
            },
    {
        match self.find_index(key) {
            Some(i) => Some(&self.entries[i].value),
            Option::None => Option::None,
        }
    }

    /// Store `value` under `key`, replacing any prior record.
    pub fn put(&mut self, key: DataKey, value: Vec<u8>)
        requires
            old(self).wf(),
        ensures
            final(self).wf(),
            final(self).record_at(key) == Some(value@),
            final(self).has_record(key),
            forall|k: DataKey|
                k != key ==> #[trigger] final(self).record_at(k) == old(self).record_at(k),
            forall|k: DataKey|
                k != key ==> #[trigger] final(self).has_record(k) == old(self).has_record(k),
    {
        let ghost pre = *self;
        match self.find_index(key) {
            Some(i) => {
                let slot = &mut self.entries[i];
                *slot = DataEntry { key, value };
                proof {
                    assert forall|a: int, b: int|
                        0 <= a < b < self.entries@.len() implies self.entries@[a].key
                        != self.entries@[b].key by {
                        assert(pre.entries@[a].key != pre.entries@[b].key);
                        assert(a != i as int ==> self.entries@[a] == pre.entries@[a]);
                        assert(b != i as int ==> self.entries@[b] == pre.entries@[b]);
                    }
                    self.lemma_record_at(i as int);
                    assert forall|k: DataKey| k != key implies final(self).record_at(k) == pre.record_at(
                        k,
                    ) && final(self).has_record(k) == pre.has_record(k) by {
                        Self::lemma_lookup_frame(pre, *self, i as int, k);
                    }
                }
            },
            Option::None => {
                let idx = self.entries.len();
                self.entries.push(DataEntry { key, value });
                proof {
                    assert forall|a: int, b: int|
                        0 <= a < b < self.entries@.len() implies self.entries@[a].key
                        != self.entries@[b].key by {
                        if b < self.entries@.len() - 1 {
                            assert(pre.entries@[a].key != pre.entries@[b].key);
                        } else {
                            assert(!pre.has_record(key));
                            assert(pre.entries@[a].key == self.entries@[a].key);
                        }
                    }
                    self.lemma_record_at(idx as int);
                    assert forall|k: DataKey| k != key implies final(self).record_at(k) == pre.record_at(
                        k,
                    ) && final(self).has_record(k) == pre.has_record(k) by {
                        if pre.has_record(k) {
                            let i = pre.spec_index_of(k);
                            pre.lemma_record_at(i);
                            assert(self.entries@[i].key == k);
                            self.lemma_record_at(i);
                        }
                        if self.has_record(k) {
                            let i = self.spec_index_of(k);
                            assert(0 <= i < self.entries@.len() && self.entries@[i].key == k);
                            assert(i < self.entries@.len() - 1);
                        }
                    }
                }
            },
        }
    }

    /// Entries outside the replaced slot keep their lookups.
    proof fn lemma_lookup_frame(pre: Self, post: Self, idx: int, k: DataKey)
        requires
            pre.wf(),
            post.wf(),
            0 <= idx < pre.entries@.len(),
            post.entries@.len() == pre.entries@.len(),
            post.entries@[idx].key == pre.entries@[idx].key,
            forall|j: int|
                0 <= j < pre.entries@.len() && j != idx ==> post.entries@[j]
                    == #[trigger] pre.entries@[j],
            k != pre.entries@[idx].key,
        ensures
            post.record_at(k) == pre.record_at(k),
            post.has_record(k) == pre.has_record(k),
    {
        if pre.has_record(k) {
            let i = pre.spec_index_of(k);
            pre.lemma_record_at(i);
            assert(i != idx);
            assert(post.entries@[i] == pre.entries@[i]);
            post.lemma_record_at(i);
        }
        if post.has_record(k) {
            let i = post.spec_index_of(k);
            post.lemma_record_at(i);
            assert(i != idx);
            assert(pre.entries@[i] == post.entries@[i]);
            pre.lemma_record_at(i);
        }
    }
}

/// One value of the metadata column family: the encoded state of one log.
#[derive(Clone, Debug)]
pub struct MetaEntry {
    pub log_id: u64,
    pub value: Vec<u8>,
}

/// The metadata column family: per-log state under the merge operator.
#[derive(Clone, Debug)]
pub struct MetadataCf {
    pub entries: Vec<MetaEntry>,
}

impl MetadataCf {
    /// Log ids are unique and every stored value is a well-formed encoding
    /// of a well-formed state.
    pub open spec fn wf(self) -> bool {
        &&& forall|i: int, j: int|
            #![trigger self.entries@[i].log_id, self.entries@[j].log_id]
            0 <= i < j < self.entries@.len() ==> self.entries@[i].log_id
                != self.entries@[j].log_id
        &&& forall|i: int|
            0 <= i < self.entries@.len() ==> match spec_decode_log_state(
                (#[trigger] self.entries@[i]).value@,
            ) {
                Some(s) => s.wf(),
                Option::None => false,
            }
    }

    pub open spec fn has_state(self, log_id: u64) -> bool {
        exists|i: int| 0 <= i < self.entries@.len() && self.entries@[i].log_id == log_id
    }

    pub open spec fn spec_index_of(self, log_id: u64) -> int {
        choose|i: int| 0 <= i < self.entries@.len() && self.entries@[i].log_id == log_id
    }

    /// The decoded state of a log, if one was ever persisted.
    pub open spec fn state_of(self, log_id: u64) -> Option<LogState> {
        if self.has_state(log_id) {
            spec_decode_log_state(self.entries@[self.spec_index_of(log_id)].value@)
        } else {
            Option::None
        }
    }

    pub proof fn lemma_state_at(self, i: int)
        requires
            self.wf(),
            0 <= i < self.entries@.len(),
        ensures
            self.has_state(self.entries@[i].log_id),
            self.spec_index_of(self.entries@[i].log_id) == i,
            self.state_of(self.entries@[i].log_id) == spec_decode_log_state(
                self.entries@[i].value@,
            ),
    {
        let id = self.entries@[i].log_id;
        assert(0 <= i < self.entries@.len() && self.entries@[i].log_id == id);
        let j = self.spec_index_of(id);
        if j < i {
            assert(self.entries@[j].log_id != self.entries@[i].log_id);
        } else if j > i {
            assert(self.entries@[i].log_id != self.entries@[j].log_id);
        }
    }

    fn find_index(&self, log_id: u64) -> (r: Option<usize>)
        requires
            self.wf(),
        ensures
            match r {
                Some(i) => i < self.entries@.len() && self.entries@[i as int].log_id == log_id
                    && self.spec_index_of(log_id) == i && self.has_state(log_id),
                Option::None => !self.has_state(log_id),
            },
    {
        let mut i: usize = 0;
        while i < self.entries.len()
            invariant
                self.wf(),
                i <= self.entries@.len(),
                forall|j: int| 0 <= j < i ==> (#[trigger] self.entries@[j]).log_id != log_id,
            decreases self.entries@.len() - i,
        {
            if self.entries[i].log_id == log_id {
                proof {
                    self.lemma_state_at(i as int);
                }
                return Some(i);
            }
            i = i + 1;
        }
        Option::None
    }

    /// Point lookup of the raw stored value.
    pub fn get(&self, log_id: u64) -> (r: Option<&Vec<u8>>)
        requires
            self.wf(),
        ensures
            match r {
                Some(v) => self.has_state(log_id) && self.state_of(log_id)
                    == spec_decode_log_state(v@),
                Option::None => !self.has_state(log_id),
            },
    {
        match self.find_index(log_id) {
            Some(i) => Some(&self.entries[i].value),
            Option::None => Option::None,
        }
    }

    /// Apply one merge operand to a log's state: decode the existing value
    /// (or start from the never-written state), fold the operand, store the
    /// encoding back. The new state must stay well formed — callers clamp.
    pub fn merge(&mut self, log_id: u64, update: LogStateUpdate)
        requires
            old(self).wf(),
            spec_apply_update(
                match old(self).state_of(log_id) {
                    Some(s) => s,
                    Option::None => LogState { trim_point: 0u64, release_pointer: 0u64 },
                },
                update,
            ).wf(),
        ensures
            final(self).wf(),
            final(self).has_state(log_id),
            final(self).state_of(log_id) == Some(
                spec_apply_update(
                    match old(self).state_of(log_id) {
                        Some(s) => s,
                        Option::None => LogState { trim_point: 0u64, release_pointer: 0u64 },
                    },
                    update,
                ),
            ),
            forall|id: u64|
                id != log_id ==> #[trigger] final(self).state_of(id) == old(self).state_of(id),
            forall|id: u64|
                id != log_id ==> #[trigger] final(self).has_state(id) == old(self).has_state(id),
    {
        let ghost pre = *self;
        let mut operands: Vec<LogStateUpdate> = Vec::new();
        operands.push(update);
        proof {
            assert(operands@.drop_first() =~= Seq::<LogStateUpdate>::empty());
            assert(operands@[0] == update);
            assert forall|s: LogState| #[trigger] crate::log_state::spec_apply_updates(
                s,
                operands@,
            ) == spec_apply_update(s, update) by {
                reveal_with_fuel(crate::log_state::spec_apply_updates, 3);
            }
        }
        match self.find_index(log_id) {
            Some(i) => {
                let existing = LogState::from_slice(&self.entries[i].value);
                let merged = log_state_full_merge(existing, &operands);
                let encoded = merged.to_bytes();
                proof {
                    lemma_log_state_round_trip(merged);
                }
                let slot = &mut self.entries[i];
                *slot = MetaEntry { log_id, value: encoded };
                proof {
                    assert forall|a: int, b: int|
                        0 <= a < b < self.entries@.len() implies self.entries@[a].log_id
                        != self.entries@[b].log_id by {
                        assert(pre.entries@[a].log_id != pre.entries@[b].log_id);
                        assert(a != i as int ==> self.entries@[a] == pre.entries@[a]);
                        assert(b != i as int ==> self.entries@[b] == pre.entries@[b]);
                    }
                    assert forall|a: int| 0 <= a < self.entries@.len() implies match spec_decode_log_state(
                        (#[trigger] self.entries@[a]).value@,
                    ) {
                        Some(s) => s.wf(),
                        Option::None => false,
                    } by {
                        if a != i as int {
                            assert(self.entries@[a] == pre.entries@[a]);
                        }
                    }
                    self.lemma_state_at(i as int);
                    assert forall|id: u64| id != log_id implies final(self).state_of(id)
                        == pre.state_of(id) && final(self).has_state(id) == pre.has_state(id) by {
                        Self::lemma_lookup_frame(pre, *self, i as int, id);
                    }
                }
            },
            Option::None => {
                let merged = log_state_full_merge(Option::None, &operands);
                let encoded = merged.to_bytes();
                proof {
                    lemma_log_state_round_trip(merged);
                }
                let idx = self.entries.len();
                self.entries.push(MetaEntry { log_id, value: encoded });
                proof {
                    assert forall|a: int, b: int|
                        0 <= a < b < self.entries@.len() implies self.entries@[a].log_id
                        != self.entries@[b].log_id by {
                        if b < self.entries@.len() - 1 {
                            assert(pre.entries@[a].log_id != pre.entries@[b].log_id);
                        } else {
                            assert(!pre.has_state(log_id));
                            assert(pre.entries@[a].log_id == self.entries@[a].log_id);
                        }
                    }
                    assert forall|a: int| 0 <= a < self.entries@.len() implies match spec_decode_log_state(
                        (#[trigger] self.entries@[a]).value@,
                    ) {
                        Some(s) => s.wf(),
                        Option::None => false,
                    } by {
                        if a < self.entries@.len() - 1 {
                            assert(self.entries@[a] == pre.entries@[a]);
                        }
                    }
                    self.lemma_state_at(idx as int);
                    assert forall|id: u64| id != log_id implies final(self).state_of(id)
                        == pre.state_of(id) && final(self).has_state(id) == pre.has_state(id) by {
                        if pre.has_state(id) {
                            let a = pre.spec_index_of(id);
                            pre.lemma_state_at(a);
                            assert(self.entries@[a].log_id == id);
                            self.lemma_state_at(a);
                        }
                        if self.has_state(id) {
                            let a = self.spec_index_of(id);
                            assert(0 <= a < self.entries@.len() && self.entries@[a].log_id == id);
                            assert(a < self.entries@.len() - 1);
                        }
                    }
                }
            },
        }
    }

    /// Entries outside the replaced slot keep their lookups.
    proof fn lemma_lookup_frame(pre: Self, post: Self, idx: int, id: u64)
        requires
            pre.wf(),
            post.wf(),
            0 <= idx < pre.entries@.len(),
            post.entries@.len() == pre.entries@.len(),
            post.entries@[idx].log_id == pre.entries@[idx].log_id,
            forall|j: int|
                0 <= j < pre.entries@.len() && j != idx ==> post.entries@[j]
                    == #[trigger] pre.entries@[j],
            id != pre.entries@[idx].log_id,
        ensures
            post.state_of(id) == pre.state_of(id),
            post.has_state(id) == pre.has_state(id),
    {
        if pre.has_state(id) {
            let i = pre.spec_index_of(id);
            pre.lemma_state_at(i);
            assert(i != idx);
            assert(post.entries@[i] == pre.entries@[i]);
            post.lemma_state_at(i);
        }
        if post.has_state(id) {
            let i = post.spec_index_of(id);
            post.lemma_state_at(i);
            assert(i != idx);
            assert(pre.entries@[i] == post.entries@[i]);
            pre.lemma_state_at(i);
        }
    }
}

/// The opened store: both column families and the write-ahead-log flush
/// mark.
#[derive(Clone, Debug)]
pub struct LogStoreDb {
    pub data: DataCf,
    pub metadata: MetadataCf,
    pub wal_flushed: bool,
}

/// The local loglet's log store over the ordered key-value database.
#[derive(Clone, Debug)]
pub struct RocksDbLogStore {
    pub db: LogStoreDb,
}

impl RocksDbLogStore {
    pub open spec fn wf(self) -> bool {
        &&& self.db.data.wf()
        &&& self.db.metadata.wf()
    }

    /// The decoded per-log state, if one was ever persisted.
    pub open spec fn spec_log_state_of(self, log_id: u64) -> Option<LogState> {
        self.db.metadata.state_of(log_id)
    }

    /// The bytes stored for one record position, if any.
    pub open spec fn spec_data_at(self, log_id: u64, offset: u64) -> Option<Seq<u8>> {
        self.db.data.record_at(DataKey { log_id, offset })
    }

    /// Open a fresh, empty store.
    pub fn new() -> (r: Self)
        ensures
            r.wf(),
            !r.db.wal_flushed,
            forall|log_id: u64| r.spec_log_state_of(log_id) is None,
            forall|log_id: u64, offset: u64| r.spec_data_at(log_id, offset) is None,
            r.db.data.entries@.len() == 0,
            r.db.metadata.entries@.len() == 0,
    {
        RocksDbLogStore {
            db: LogStoreDb {
                data: DataCf { entries: Vec::new() },
                metadata: MetadataCf { entries: Vec::new() },
                wal_flushed: false,
            },
        }
    }

    /// The data column family.
    pub fn data_cf(&self) -> (r: &DataCf)
        ensures
            *r == self.db.data,
    {
        &self.db.data
    }

    /// The metadata column family.
    pub fn metadata_cf(&self) -> (r: &MetadataCf)
        ensures
            *r == self.db.metadata,
    {
        &self.db.metadata
    }

    /// The underlying database.
    pub fn db(&self) -> (r: &LogStoreDb)
        ensures
            *r == self.db,
    {
        &self.db
    }

    /// Load the durable state of one log, decoding the stored value.
    pub fn get_log_state(&self, log_id: u64) -> (r: Result<Option<LogState>, LogStoreError>)
        requires
            self.wf(),
        ensures
            r == Ok::<Option<LogState>, LogStoreError>(self.spec_log_state_of(log_id)),
    {
        match self.db.metadata.get(log_id) {
            Some(value) => {
                match LogState::from_slice(value) {
                    Some(state) => Ok(Some(state)),
                    Option::None => {
                        proof {
                            let i = self.db.metadata.spec_index_of(log_id);
                            assert(match spec_decode_log_state(
                                self.db.metadata.entries@[i].value@,
                            ) {
                                Some(s) => s.wf(),
                                Option::None => false,
                            });
                        }
                        Err(LogStoreError::Decode)
                    },
                }
            },
            Option::None => Ok(Option::None),
        }
    }

    /// A writer for this store. The writer is the only mutator of the data
    /// column family.
    pub fn create_writer(&self, manual_wal_flush: bool) -> (r: LogStoreWriter)
        ensures
            r.state == crate::log_store_writer::WriterState::Running,
            r.queue@.len() == 0,
            r.manual_wal_flush == manual_wal_flush,
    {
        LogStoreWriter::new(manual_wal_flush)
    }

    /// Flush the write-ahead log and stop background work.
    pub fn shutdown(&mut self)
        requires
            old(self).wf(),
        ensures
            final(self).wf(),
            final(self).db.data == old(self).db.data,
            final(self).db.metadata == old(self).db.metadata,
            final(self).db.wal_flushed,
    {
        self.db.wal_flushed = true;
    }
}

/// A compression algorithm a level can be configured with.
#[derive(Clone, Copy, Debug, PartialEq, Eq, Structural)]
pub enum CompressionType {
    NoCompression,
    Snappy,
    Zstd,
}

/// The semantically relevant knobs of a column family or database.
#[derive(Clone, Debug)]
pub struct StoreOptions {
    pub keep_log_file_num: u64,
    pub use_direct_reads: bool,
    pub num_levels: u64,
    pub compression_per_level: Vec<CompressionType>,
    pub advise_random_on_open: bool,
    pub max_write_buffer_number: u64,
    pub min_write_buffer_number_to_merge: u64,
    pub max_successive_merges: u64,
    /// Whether the log-state merge operator is installed.
    pub log_state_merge_operator: bool,
}

impl Default for StoreOptions {
    fn default() -> (r: Self)
        ensures
            r.keep_log_file_num == 1000,
            !r.use_direct_reads,
            r.num_levels == 7,
            r.compression_per_level@.len() == 0,
            r.advise_random_on_open,
            r.max_write_buffer_number == 2,
            r.min_write_buffer_number_to_merge == 1,
            r.max_successive_merges == 0,
            !r.log_state_merge_operator,
    {
        StoreOptions {
            keep_log_file_num: 1000,
            use_direct_reads: false,
            num_levels: 7,
            compression_per_level: Vec::new(),
            advise_random_on_open: true,
            max_write_buffer_number: 2,
            min_write_buffer_number_to_merge: 1,
            max_successive_merges: 0,
            log_state_merge_operator: false,
        }
    }
}

/// Database-wide options: few retained log files, direct reads.
pub fn db_options() -> (r: StoreOptions)
    ensures
        r.keep_log_file_num == 10,
        r.use_direct_reads,
{
    let mut opts = StoreOptions::default();
    opts.keep_log_file_num = 10;
    opts.use_direct_reads = true;
    opts
}

/// Options of the data column family: seven levels, light compression in
/// the middle, strongest at the bottom, sequential-read access pattern.
pub fn cf_data_options() -> (r: StoreOptions)
    ensures
        r.num_levels == 7,
        r.compression_per_level@ == seq![
            CompressionType::NoCompression,
            CompressionType::Snappy,
            CompressionType::Snappy,
            CompressionType::Snappy,
            CompressionType::Snappy,
            CompressionType::Snappy,
            CompressionType::Zstd,
        ],
        !r.advise_random_on_open,
        !r.log_state_merge_operator,
{
    let mut opts = StoreOptions::default();
    opts.num_levels = 7;
    let mut compression: Vec<CompressionType> = Vec::new();
    compression.push(CompressionType::NoCompression);
    compression.push(CompressionType::Snappy);
    compression.push(CompressionType::Snappy);
    compression.push(CompressionType::Snappy);
    compression.push(CompressionType::Snappy);
    compression.push(CompressionType::Snappy);
    compression.push(CompressionType::Zstd);
    proof {
        assert(compression@ =~= seq![
            CompressionType::NoCompression,
            CompressionType::Snappy,
            CompressionType::Snappy,
            CompressionType::Snappy,
            CompressionType::Snappy,
            CompressionType::Snappy,
            CompressionType::Zstd,
        ]);
    }
    opts.compression_per_level = compression;
    opts.advise_random_on_open = false;
    opts
}

/// Options of the metadata column family: three levels, delayed flushing so
/// highly temporal state updates merge into few files, and the log-state
/// merge operator installed.
pub fn cf_metadata_options() -> (r: StoreOptions)
    ensures
        r.num_levels == 3,
        r.compression_per_level@ == seq![
            CompressionType::NoCompression,
            CompressionType::NoCompression,
            CompressionType::Zstd,
        ],
        r.max_write_buffer_number == 3,
        r.min_write_buffer_number_to_merge == 3,
        r.max_successive_merges == 10,
        r.log_state_merge_operator,
{
    let mut opts = StoreOptions::default();
    opts.num_levels = 3;
    let mut compression: Vec<CompressionType> = Vec::new();
    compression.push(CompressionType::NoCompression);
    compression.push(CompressionType::NoCompression);
    compression.push(CompressionType::Zstd);
    proof {
        assert(compression@ =~= seq![
            CompressionType::NoCompression,
            CompressionType::NoCompression,
            CompressionType::Zstd,
        ]);
    }
    opts.compression_per_level = compression;
    opts.max_write_buffer_number = 3;
    opts.min_write_buffer_number_to_merge = 3;
    opts.max_successive_merges = 10;
    opts.log_state_merge_operator = true;
    opts
}

} // verus!
