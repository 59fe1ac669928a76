//! A verified model of a durable, append-only, segmented log subsystem.
//!
//! The library has three parts: the log core, which routes log-addressed
//! operations (append, read, tail, trim) through a per-log segment chain to
//! a loglet; the local persistent loglet, a single-writer batched-commit log
//! over an ordered key-value store with a per-log trim/release state machine;
//! and an RPC correlation router that lifts a one-way message bus into
//! request/response semantics with leak-free token lifetimes.

use vstd::prelude::*;

mod bifrost;
mod keys;
mod local_loglet;
mod log_state;
mod log_store;
mod log_store_writer;
mod loglet;
mod lsn;
mod memory_loglet;
mod metadata;
mod records;
mod rpc_router;
mod storage_task;

pub use bifrost::Bifrost;
pub use bifrost::BifrostInner;
pub use bifrost::Error;
pub use bifrost::FindTailAttributes;
pub use bifrost::LogReadStream;
pub use bifrost::ProviderRegistry;
pub use bifrost::ReadNextOutcome;
pub use bifrost::ReadWaiter;
pub use keys::DataKey;
pub use keys::MetadataKey;
pub use keys::MetadataKind;
pub use local_loglet::LocalLoglet;
pub use local_loglet::LocalLogletProvider;
pub use log_state::LogState;
pub use log_state::LogStateUpdate;
pub use log_state::log_state_full_merge;
pub use log_state::log_state_partial_merge;
pub use log_store::CompressionType;
pub use log_store::DATA_CF;
pub use log_store::DB_NAME;
pub use log_store::METADATA_CF;
pub use log_store::DataCf;
pub use log_store::LogStoreDb;
pub use log_store::LogStoreError;
pub use log_store::MetadataCf;
pub use log_store::RocksDbLogStore;
pub use log_store::StoreOptions;
pub use log_store::cf_data_options;
pub use log_store::cf_metadata_options;
pub use log_store::db_options;
pub use log_store_writer::Ack;
pub use log_store_writer::LogStoreWriteCommand;
pub use log_store_writer::LogStoreWriter;
pub use log_store_writer::WriterState;
pub use lsn::LogId;
pub use lsn::Lsn;
pub use lsn::Version;
pub use memory_loglet::LogletPayload;
pub use memory_loglet::LogletReadItem;
pub use memory_loglet::MemoryLoglet;
pub use memory_loglet::MemoryLogletProvider;
pub use metadata::LogChain;
pub use metadata::LogEntry;
pub use metadata::LogletConfig;
pub use metadata::LogletParams;
pub use metadata::LogsMetadata;
pub use metadata::ProviderKind;
pub use metadata::Segment;
pub use records::LogRecord;
pub use records::Payload;
pub use records::Record;
pub use records::TrimGap;
pub use records::decode_payload;
pub use records::encode_payload;
pub use rpc_router::RecvOutcome;
pub use rpc_router::ResponseTracker;
pub use rpc_router::RpcError;
pub use rpc_router::RpcToken;
pub use rpc_router::StreamingResponseTracker;
pub use storage_task::ReadyStorageTask;
pub use storage_task::StorageTaskKind;
pub use storage_task::StorageTaskPriority;

verus! {

} // verus!
