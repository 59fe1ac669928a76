//! Background storage tasks and their reporting identity.
//!
//! Every background task of the store runs under a kind, a priority and an
//! owner; the kind names are part of the metrics contract and must not
//! drift.

use vstd::prelude::*;

verus! {

/// What a background storage task does. The kebab-case names returned by
/// [`StorageTaskKind::as_static_str`] tag the task metrics.
#[derive(Clone, Copy, Debug, Hash, PartialEq, Eq, Structural)]
pub enum StorageTaskKind {
    WriteBatch,
    OpenColumnFamily,
    FlushWal,
    Shutdown,
    OpenDb,
}

impl StorageTaskKind {
    /// The stable metrics tag of this kind.
    pub fn as_static_str(self) -> (r: &'static str)
        ensures
            r@ == self.spec_name(),
    {
        let r: &'static str = match self {
            StorageTaskKind::WriteBatch => "write-batch",
            StorageTaskKind::OpenColumnFamily => "open-column-family",
            StorageTaskKind::FlushWal => "flush-wal",
            StorageTaskKind::Shutdown => "shutdown",
            StorageTaskKind::OpenDb => "open-db",
        };
        proof {
            reveal_strlit("write-batch");
            reveal_strlit("open-column-family");
            reveal_strlit("flush-wal");
            reveal_strlit("shutdown");
            reveal_strlit("open-db");
        }
        r
    }

    pub open spec fn spec_name(self) -> Seq<char> {
        match self {
            StorageTaskKind::WriteBatch => "write-batch"@,
            StorageTaskKind::OpenColumnFamily => "open-column-family"@,
            StorageTaskKind::FlushWal => "flush-wal"@,
            StorageTaskKind::Shutdown => "shutdown"@,
            StorageTaskKind::OpenDb => "open-db"@,
        }
    }
}

/// The scheduling priority of a background storage task.
#[derive(Clone, Copy, Debug, Hash, PartialEq, Eq, Structural)]
pub enum StorageTaskPriority {
    High,
    Low,
}

impl Default for StorageTaskPriority {
    fn default() -> (r: Self)
        ensures
            r == StorageTaskPriority::Low,
    {
        StorageTaskPriority::Low
    }
}

/// A storage task ready to run: the operation and its reporting identity.
pub struct ReadyStorageTask<OP> {
    pub op: OP,
    pub db_name: String,
    pub priority: StorageTaskPriority,
    pub kind: StorageTaskKind,
}

impl<OP, R> ReadyStorageTask<OP> where OP: FnOnce() -> R {
    /// Run the operation. What it computes is whatever the operation's own
    /// contract promises.
    pub fn run(self) -> (r: R)
        requires
            self.op.requires(()),
        ensures
            self.op.ensures((), r),
    {
        (self.op)()
    }
}

} // verus!
