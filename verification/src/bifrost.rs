//! The log core: routes log-addressed operations to the correct loglet.
//!
//! A handle resolves a log id to its segment chain in the current metadata
//! snapshot, picks the segment serving the addressed position (the tail
//! segment for appends), dispatches to that segment's provider, and
//! translates between global positions and loglet-local offsets. Every
//! externally callable operation first checks the sticky shutdown flag;
//! operations already past the check run to completion.

use vstd::prelude::*;

use crate::local_loglet::LocalLogletProvider;
use crate::loglet::LogletView;
use crate::loglet::ReadItemView;
use crate::loglet::ReadPayloadView;
use crate::lsn::LogId;
use crate::lsn::Lsn;
use crate::lsn::Version;
use crate::memory_loglet::LogletReadItem;
use crate::memory_loglet::MemoryLogletProvider;
use crate::metadata::LogChain;
use crate::metadata::LogletConfig;
use crate::metadata::LogsMetadata;
use crate::metadata::ProviderKind;
use crate::metadata::Segment;
use crate::metadata::seg_index_for_lsn;
use crate::records::LogRecord;
use crate::records::Payload;
use crate::records::Record;
use crate::records::TrimGap;
use crate::records::spec_decode_payload;
use crate::records::spec_encode_payload;
use crate::records::decode_payload;
use crate::records::encode_payload;

verus! {

/// The error surface visible to callers of the log core.
#[derive(Clone, Copy, Debug, PartialEq, Eq, Structural)]
pub enum Error {
    /// The log has no chain in the current metadata snapshot.
    UnknownLogId(LogId),
    /// The provider for this segment kind was not started.
    Disabled(ProviderKind),
    /// The subsystem is draining; terminal.
    Shutdown,
    /// The underlying loglet failed (stored bytes the codec never produced).
    LogletError,
}

/// Attributes steering a tail lookup. No field is read by the core today;
/// the set exists for forward evolution.
#[derive(Clone, Copy, Debug, Default)]
pub struct FindTailAttributes {}

/// The registry of started loglet providers, published once by the
/// lifecycle watchdog before the core is made externally visible.
#[derive(Clone, Debug)]
pub struct ProviderRegistry {
    pub memory: Option<MemoryLogletProvider>,
    pub local: Option<LocalLogletProvider>,
}

impl ProviderRegistry {
    pub open spec fn wf(self) -> bool {
        &&& match self.memory {
            Some(p) => p.wf(),
            Option::None => true,
        }
        &&& match self.local {
            Some(p) => p.wf(),
            Option::None => true,
        }
    }

    /// Whether a provider of this kind was started.
    pub open spec fn has_kind(self, kind: ProviderKind) -> bool {
        match kind {
            ProviderKind::InMemory => self.memory is Some,
            ProviderKind::Local => self.local is Some,
        }
    }

    /// The abstract state of the loglet a segment configuration names.
    /// Loglets never referenced are empty.
    pub open spec fn loglet_view(self, config: LogletConfig) -> LogletView {
        match config.kind {
            ProviderKind::InMemory => match self.memory {
                Some(p) => p.loglet_view(config.params.id),
                Option::None => LogletView::empty(),
            },
            ProviderKind::Local => match self.local {
                Some(p) => p.loglet_view(config.params.id),
                Option::None => LogletView::empty(),
            },
        }
    }

    /// A registry with the in-memory provider started.
    pub fn with_memory(provider: MemoryLogletProvider) -> (r: Self)
        requires
            provider.wf(),
        ensures
            r.wf(),
            r.has_kind(ProviderKind::InMemory),
            !r.has_kind(ProviderKind::Local),
            forall|config: LogletConfig|
                config.kind == ProviderKind::InMemory ==> r.loglet_view(config)
                    == provider.loglet_view(config.params.id),
    {
        ProviderRegistry { memory: Some(provider), local: Option::None }
    }

    /// A registry with the local persistent provider started.
    pub fn with_local(provider: LocalLogletProvider) -> (r: Self)
        requires
            provider.wf(),
        ensures
            r.wf(),
            r.has_kind(ProviderKind::Local),
            !r.has_kind(ProviderKind::InMemory),
            forall|config: LogletConfig|
                config.kind == ProviderKind::Local ==> r.loglet_view(config)
                    == provider.loglet_view(config.params.id),
    {
        ProviderRegistry { memory: Option::None, local: Some(provider) }
    }

    /// Append one record to the loglet the configuration names. Returns the
    /// assigned loglet-local offset.
    pub fn append_to(&mut self, config: LogletConfig, bytes: Vec<u8>) -> (r: Result<u64, Error>)
        requires
            old(self).wf(),
            old(self).loglet_view(config).release_pointer() + 1 < u64::MAX,
        ensures
            final(self).wf(),
            !old(self).has_kind(config.kind) ==> r == Err::<u64, Error>(Error::Disabled(config.kind))
                && *final(self) == *old(self),
            old(self).has_kind(config.kind) ==> r == Ok::<u64, Error>(
                (old(self).loglet_view(config).release_pointer() + 1) as u64,
            ) && final(self).loglet_view(config) == old(self).loglet_view(config).after_append(
                bytes@,
            ),
            forall|c: LogletConfig|
                c != config ==> final(self).loglet_view(c) == old(self).loglet_view(c),
            forall|k: ProviderKind| final(self).has_kind(k) == old(self).has_kind(k),
    {
        match config.kind {
            ProviderKind::InMemory => match &mut self.memory {
                Some(p) => Ok(p.append_to(config.params.id, bytes)),
                Option::None => Err(Error::Disabled(config.kind)),
            },
            ProviderKind::Local => match &mut self.local {
                Some(p) => Ok(p.append_to(config.params.id, bytes)),
                Option::None => Err(Error::Disabled(config.kind)),
            },
        }
    }

    /// Trim the loglet the configuration names up to the loglet-local
    /// offset `t`, clamped by its release pointer.
    pub fn trim_to(&mut self, config: LogletConfig, t: u64) -> (r: Result<(), Error>)
        requires
            old(self).wf(),
        ensures
            final(self).wf(),
            !old(self).has_kind(config.kind) ==> r == Err::<(), Error>(Error::Disabled(config.kind))
                && *final(self) == *old(self),
            old(self).has_kind(config.kind) ==> r == Ok::<(), Error>(()) && final(self).loglet_view(
                config,
            ) == old(self).loglet_view(config).after_trim(t as nat),
            forall|c: LogletConfig|
                c != config ==> final(self).loglet_view(c) == old(self).loglet_view(c),
            forall|k: ProviderKind| final(self).has_kind(k) == old(self).has_kind(k),
    {
        match config.kind {
            ProviderKind::InMemory => match &mut self.memory {
                Some(p) => {
                    p.trim_to(config.params.id, t);
                    Ok(())
                },
                Option::None => Err(Error::Disabled(config.kind)),
            },
            ProviderKind::Local => match &mut self.local {
                Some(p) => {
                    p.trim_to(config.params.id, t);
                    Ok(())
                },
                Option::None => Err(Error::Disabled(config.kind)),
            },
        }
    }

    /// Read the next record of the loglet the configuration names after a
    /// loglet-local offset.
    pub fn read_from(&self, config: LogletConfig, after: u64) -> (r: Result<
        Option<LogletReadItem>,
        Error,
    >)
        requires
            self.wf(),
        ensures
            !self.has_kind(config.kind) ==> r == Err::<Option<LogletReadItem>, Error>(
                Error::Disabled(config.kind),
            ),
            self.has_kind(config.kind) ==> match r {
                Ok(Some(item)) => self.loglet_view(config).read_next(after as nat) == Some(
                    item.view(),
                ),
                Ok(Option::None) => self.loglet_view(config).read_next(after as nat) is None,
                Err(_) => false,
            },
    {
        match config.kind {
            ProviderKind::InMemory => match &self.memory {
                Some(p) => Ok(p.read_from(config.params.id, after)),
                Option::None => Err(Error::Disabled(config.kind)),
            },
            ProviderKind::Local => match &self.local {
                Some(p) => Ok(p.read_from(config.params.id, after)),
                Option::None => Err(Error::Disabled(config.kind)),
            },
        }
    }

    /// The readable tail of the loglet the configuration names.
    pub fn find_tail_of(&self, config: LogletConfig) -> (r: Result<Option<u64>, Error>)
        requires
            self.wf(),
        ensures
            !self.has_kind(config.kind) ==> r == Err::<Option<u64>, Error>(
                Error::Disabled(config.kind),
            ),
            self.has_kind(config.kind) ==> match r {
                Ok(Some(tail)) => self.loglet_view(config).find_tail() == Some(tail as nat),
                Ok(Option::None) => self.loglet_view(config).find_tail() is None,
                Err(_) => false,
            },
    {
        match config.kind {
            ProviderKind::InMemory => match &self.memory {
                Some(p) => Ok(p.find_tail_of(config.params.id)),
                Option::None => Err(Error::Disabled(config.kind)),
            },
            ProviderKind::Local => match &self.local {
                Some(p) => Ok(p.find_tail_of(config.params.id)),
                Option::None => Err(Error::Disabled(config.kind)),
            },
        }
    }

    /// The trim point of the loglet the configuration names.
    pub fn get_trim_point_of(&self, config: LogletConfig) -> (r: Result<Option<u64>, Error>)
        requires
            self.wf(),
        ensures
            !self.has_kind(config.kind) ==> r == Err::<Option<u64>, Error>(
                Error::Disabled(config.kind),
            ),
            self.has_kind(config.kind) ==> match r {
                Ok(Some(t)) => self.loglet_view(config).get_trim_point() == Some(t as nat),
                Ok(Option::None) => self.loglet_view(config).get_trim_point() is None,
                Err(_) => false,
            },
    {
        match config.kind {
            ProviderKind::InMemory => match &self.memory {
                Some(p) => Ok(p.get_trim_point_of(config.params.id)),
                Option::None => Err(Error::Disabled(config.kind)),
            },
            ProviderKind::Local => match &self.local {
                Some(p) => Ok(p.get_trim_point_of(config.params.id)),
                Option::None => Err(Error::Disabled(config.kind)),
            },
        }
    }
}

/// A reader waiting for the log to reach a position.
#[derive(Clone, Copy, Debug, PartialEq, Eq, Structural)]
pub struct ReadWaiter {
    pub id: u64,
    pub log_id: LogId,
    pub threshold: u64,
}

/// What a blocking read returns in this model: the record, or the id of the
/// waiter registered for the position; the driver retries once the waiter
/// is woken.
#[derive(Clone, Debug)]
pub enum ReadNextOutcome {
    Ready(LogRecord),
    Registered(u64),
}

/// The shared core behind every handle: the metadata snapshot, the provider
/// registry (published once, before external visibility), the sticky
/// shutdown flag, and the waiters of blocking reads. The snapshot is
/// created and grown externally and consumed read-only here; installing a
/// fresh snapshot in its place is the metadata sync, performed by the
/// owner of the core, not by its operations.
#[derive(Clone, Debug)]
pub struct BifrostInner {
    pub metadata: LogsMetadata,
    pub providers: Option<ProviderRegistry>,
    pub shutting_down: bool,
    pub waiters: Vec<ReadWaiter>,
    pub next_waiter_id: u64,
}

impl BifrostInner {
    /// The published registry; meaningless before publication.
    pub open spec fn spec_registry(self) -> ProviderRegistry {
        match self.providers {
            Some(r) => r,
            Option::None => ProviderRegistry { memory: Option::None, local: Option::None },
        }
    }

    pub open spec fn providers_published(self) -> bool {
        self.providers is Some
    }

    /// One segment is sound: its loglet is well formed and the global
    /// position of its last record stays below the reserved sentinel.
    pub open spec fn seg_ok(self, seg: Segment) -> bool {
        let v = self.spec_registry().loglet_view(seg.config);
        &&& v.wf()
        &&& seg.base_lsn.0 - 1 + v.release_pointer() <= u64::MAX - 1
    }

    /// Every segment of every known chain is sound.
    pub open spec fn views_wf(self) -> bool {
        forall|li: int, si: int|
            0 <= li < self.metadata.entries@.len() && 0 <= si
                < self.metadata.entries@[li].chain.segments@.len() ==> self.seg_ok(
                #[trigger] self.metadata.entries@[li].chain.segments@[si],
            )
    }

    pub open spec fn wf(self) -> bool {
        &&& self.metadata.wf()
        &&& self.spec_registry().wf()
        &&& self.views_wf()
    }

    pub open spec fn spec_knows_log(self, log_id: LogId) -> bool {
        self.metadata.spec_knows_log(log_id)
    }

    /// The chain of a known log.
    pub open spec fn spec_chain(self, log_id: LogId) -> LogChain {
        self.metadata.spec_chain_of(log_id).unwrap()
    }

    /// The tail segment of a known log: where appends go.
    pub open spec fn tail_seg(self, log_id: LogId) -> Segment {
        self.spec_chain(log_id).segments@.last()
    }

    /// The abstract state of a known log's tail loglet.
    pub open spec fn tail_view(self, log_id: LogId) -> LogletView {
        self.spec_registry().loglet_view(self.tail_seg(log_id).config)
    }

    /// The global position of a known log's last appended record.
    pub open spec fn tail_lsn(self, log_id: LogId) -> int {
        self.tail_seg(log_id).base_lsn.0 - 1 + self.tail_view(log_id).release_pointer()
    }

    /// A fresh, not yet started core over a metadata snapshot.
    pub fn new(metadata: LogsMetadata) -> (r: Self)
        requires
            metadata.wf(),
        ensures
            r.wf(),
            r.metadata == metadata,
            !r.providers_published(),
            !r.shutting_down,
            r.waiters@.len() == 0,
    {
        BifrostInner {
            metadata,
            providers: Option::None,
            shutting_down: false,
            waiters: Vec::new(),
            next_waiter_id: 0,
        }
    }

    /// Publish the started provider registry. Called exactly once by the
    /// watchdog before the core is handed out.
    pub fn publish_providers(&mut self, registry: ProviderRegistry)
        requires
            old(self).wf(),
            !old(self).providers_published(),
            registry.wf(),
            forall|config: LogletConfig| registry.loglet_view(config) == LogletView::empty(),
        ensures
            final(self).wf(),
            final(self).providers_published(),
            final(self).metadata == old(self).metadata,
            final(self).shutting_down == old(self).shutting_down,
            final(self).spec_registry() == registry,
            final(self).waiters@ == old(self).waiters@,
    {
        self.providers = Some(registry);
        proof {
            assert forall|li: int, si: int|
                0 <= li < self.metadata.entries@.len() && 0 <= si
                    < self.metadata.entries@[li].chain.segments@.len() implies self.seg_ok(
                self.metadata.entries@[li].chain.segments@[si],
            ) by {
                let seg = self.metadata.entries@[li].chain.segments@[si];
                assert(self.spec_registry().loglet_view(seg.config) == LogletView::empty());
            }
        }
    }

    /// Mark the core as draining: new operations are rejected, in-flight
    /// ones finish.
    pub fn set_shutdown(&mut self)
        requires
            old(self).wf(),
        ensures
            final(self).wf(),
            final(self).shutting_down,
            final(self).metadata == old(self).metadata,
            final(self).providers == old(self).providers,
            final(self).waiters@ == old(self).waiters@,
    {
        self.shutting_down = true;
    }

    /// Reject the operation when draining.
    pub fn fail_if_shutting_down(&self) -> (r: Result<(), Error>)
        ensures
            r == if self.shutting_down {
                Err::<(), Error>(Error::Shutdown)
            } else {
                Ok::<(), Error>(())
            },
    {
        if self.shutting_down {
            Err(Error::Shutdown)
        } else {
            Ok(())
        }
    }

    /// After one segment's loglet changed, every chain is still sound if
    /// that segment is.
    proof fn lemma_views_wf_after_update(pre: Self, post: Self, li: int, si: int)
        requires
            pre.wf(),
            post.metadata == pre.metadata,
            0 <= li < pre.metadata.entries@.len(),
            0 <= si < pre.metadata.entries@[li].chain.segments@.len(),
            forall|c: LogletConfig|
                c != pre.metadata.entries@[li].chain.segments@[si].config
                    ==> post.spec_registry().loglet_view(c) == pre.spec_registry().loglet_view(c),
            post.seg_ok(pre.metadata.entries@[li].chain.segments@[si]),
        ensures
            post.views_wf(),
    {
        let cfg = pre.metadata.entries@[li].chain.segments@[si].config;
        assert forall|a: int, b: int|
            0 <= a < post.metadata.entries@.len() && 0 <= b
                < post.metadata.entries@[a].chain.segments@.len() implies post.seg_ok(
            post.metadata.entries@[a].chain.segments@[b],
        ) by {
            let seg = pre.metadata.entries@[a].chain.segments@[b];
            if seg.config == cfg {
                if a != li || b != si {
                    assert(pre.metadata.entries@[a].chain.segments@[b].config
                        != pre.metadata.entries@[li].chain.segments@[si].config);
                }
                assert(a == li && b == si);
            } else {
                assert(post.spec_registry().loglet_view(seg.config) == pre.spec_registry(
                ).loglet_view(seg.config));
                assert(pre.seg_ok(seg));
            }
        }
    }

    /// Append one record. The payload is encoded, the tail segment of the
    /// log's chain is located, and the record lands at the position directly
    /// after the log's tail, which is returned.
    pub fn append(&mut self, log_id: LogId, payload: Payload) -> (r: Result<Lsn, Error>)
        requires
            old(self).wf(),
            old(self).providers_published(),
            old(self).spec_knows_log(log_id) ==> old(self).tail_lsn(log_id) < u64::MAX - 1,
        ensures
            final(self).wf(),
            final(self).providers_published(),
            final(self).metadata == old(self).metadata,
            final(self).shutting_down == old(self).shutting_down,
            final(self).waiters@ == old(self).waiters@,
            forall|k: ProviderKind|
                final(self).spec_registry().has_kind(k) == old(self).spec_registry().has_kind(k),
            old(self).shutting_down ==> r == Err::<Lsn, Error>(Error::Shutdown) && *final(self)
                == *old(self),
            !old(self).shutting_down && !old(self).spec_knows_log(log_id) ==> r == Err::<
                Lsn,
                Error,
            >(Error::UnknownLogId(log_id)) && *final(self) == *old(self),
            !old(self).shutting_down && old(self).spec_knows_log(log_id) && !old(self).spec_registry().has_kind(old(self).tail_seg(log_id).config.kind) ==> r == Err::<
                Lsn,
                Error,
            >(Error::Disabled(old(self).tail_seg(log_id).config.kind)) && *final(self) == *old(self),
            !old(self).shutting_down && old(self).spec_knows_log(log_id) && old(self).spec_registry().has_kind(old(self).tail_seg(log_id).config.kind) ==> {
                &&& r == Ok::<Lsn, Error>(Lsn((old(self).tail_lsn(log_id) + 1) as u64))
                &&& final(self).tail_view(log_id) == old(self).tail_view(log_id).after_append(
                    spec_encode_payload(payload.body@),
                )
                &&& final(self).tail_lsn(log_id) == old(self).tail_lsn(log_id) + 1
                &&& forall|c: LogletConfig|
                    c != old(self).tail_seg(log_id).config ==> final(self).spec_registry(
                    ).loglet_view(c) == old(self).spec_registry().loglet_view(c)
            },
    {
        match self.fail_if_shutting_down() {
            Ok(()) => {},
            Err(e) => {
                return Err(e);
            },
        }
        let seg: Segment = match self.metadata.get_chain(log_id) {
            Some(chain) => *chain.tail_segment(),
            Option::None => {
                return Err(Error::UnknownLogId(log_id));
            },
        };
        let ghost li = self.metadata.spec_log_index(log_id).unwrap();
        let ghost si = self.metadata.entries@[li].chain.segments@.len() - 1;
        let bytes = encode_payload(&payload);
        let ghost pre = *self;
        match &mut self.providers {
            Some(registry) => {
                proof {
                    assert(pre.seg_ok(seg));
                }
                let res = registry.append_to(seg.config, bytes);
                match res {
                    Ok(local_offset) => {
                        proof {
                            assert(self.seg_ok(pre.metadata.entries@[li].chain.segments@[si]));
                            Self::lemma_views_wf_after_update(pre, *self, li, si);
                        }
                        Ok(Lsn(seg.base_lsn.0 - 1 + local_offset))
                    },
                    Err(e) => {
                        proof {
                            assert(*self =~= pre);
                        }
                        Err(e)
                    },
                }
            },
            Option::None => {
                proof {
                    assert(false);
                }
                Err(Error::Shutdown)
            },
        }
    }

    /// Append a batch, one encoded record per element, in order, atomically
    /// with respect to ordering. Returns the position of the first record.
    pub fn append_batch(&mut self, log_id: LogId, payloads: &Vec<Payload>) -> (r: Result<
        Lsn,
        Error,
    >)
        requires
            old(self).wf(),
            old(self).providers_published(),
            payloads@.len() >= 1,
            old(self).spec_knows_log(log_id) ==> old(self).tail_lsn(log_id) + payloads@.len()
                <= u64::MAX - 1,
        ensures
            final(self).wf(),
            final(self).providers_published(),
            final(self).metadata == old(self).metadata,
            final(self).shutting_down == old(self).shutting_down,
            final(self).waiters@ == old(self).waiters@,
            forall|k: ProviderKind|
                final(self).spec_registry().has_kind(k) == old(self).spec_registry().has_kind(k),
            old(self).shutting_down ==> r == Err::<Lsn, Error>(Error::Shutdown) && *final(self)
                == *old(self),
            !old(self).shutting_down && !old(self).spec_knows_log(log_id) ==> r == Err::<
                Lsn,
                Error,
            >(Error::UnknownLogId(log_id)) && *final(self) == *old(self),
            !old(self).shutting_down && old(self).spec_knows_log(log_id) && !old(self).spec_registry().has_kind(old(self).tail_seg(log_id).config.kind) ==> r == Err::<
                Lsn,
                Error,
            >(Error::Disabled(old(self).tail_seg(log_id).config.kind)) && *final(self) == *old(self),
            !old(self).shutting_down && old(self).spec_knows_log(log_id) && old(self).spec_registry().has_kind(old(self).tail_seg(log_id).config.kind) ==> {
                &&& r == Ok::<Lsn, Error>(Lsn((old(self).tail_lsn(log_id) + 1) as u64))
                &&& final(self).tail_view(log_id) == old(self).tail_view(log_id).after_append_all(
                    payloads@.map_values(|p: Payload| spec_encode_payload(p.body@)),
                )
                &&& final(self).tail_lsn(log_id) == old(self).tail_lsn(log_id) + payloads@.len()
                &&& forall|c: LogletConfig|
                    c != old(self).tail_seg(log_id).config ==> final(self).spec_registry(
                    ).loglet_view(c) == old(self).spec_registry().loglet_view(c)
            },
    {
        match self.fail_if_shutting_down() {
            Ok(()) => {},
            Err(e) => {
                return Err(e);
            },
        }
        let seg: Segment = match self.metadata.get_chain(log_id) {
            Some(chain) => *chain.tail_segment(),
            Option::None => {
                return Err(Error::UnknownLogId(log_id));
            },
        };
        let ghost li = self.metadata.spec_log_index(log_id).unwrap();
        let ghost si = self.metadata.entries@[li].chain.segments@.len() - 1;
        let ghost encoded = payloads@.map_values(|p: Payload| spec_encode_payload(p.body@));
        let ghost pre = *self;
        let mut first: u64 = 0;
        let mut i: usize = 0;
        proof {
            assert(pre.seg_ok(seg));
        }
        while i < payloads.len()
            invariant
                payloads@.len() >= 1,
                i <= payloads@.len(),
                self.wf(),
                self.providers_published(),
                self.metadata == pre.metadata,
                self.shutting_down == pre.shutting_down,
                self.waiters@ == pre.waiters@,
                self.next_waiter_id == pre.next_waiter_id,
                pre == *old(self),
                pre.wf(),
                pre.providers_published(),
                !pre.shutting_down,
                pre.spec_knows_log(log_id),
                li == pre.metadata.spec_log_index(log_id).unwrap(),
                si == pre.metadata.entries@[li].chain.segments@.len() - 1,
                seg == pre.tail_seg(log_id),
                encoded == payloads@.map_values(|p: Payload| spec_encode_payload(p.body@)),
                pre.tail_lsn(log_id) + payloads@.len() <= u64::MAX - 1,
                pre.spec_registry().has_kind(seg.config.kind) ==> {
                    &&& self.spec_registry().loglet_view(seg.config) == pre.spec_registry(
                    ).loglet_view(seg.config).after_append_all(encoded.take(i as int))
                    &&& i >= 1 ==> first == pre.tail_lsn(log_id) + 1
                },
                !pre.spec_registry().has_kind(seg.config.kind) ==> i == 0,
                i == 0 ==> *self == pre,
                forall|c: LogletConfig|
                    c != seg.config ==> self.spec_registry().loglet_view(c) == pre.spec_registry(
                    ).loglet_view(c),
                forall|k: ProviderKind|
                    self.spec_registry().has_kind(k) == pre.spec_registry().has_kind(k),
            decreases payloads@.len() - i,
        {
            let bytes = encode_payload(&payloads[i]);
            let ghost step_pre = *self;
            match &mut self.providers {
                Some(registry) => {
                    proof {
                        if pre.spec_registry().has_kind(seg.config.kind) {
                            assert(step_pre.spec_registry().loglet_view(seg.config).release_pointer()
                                == pre.spec_registry().loglet_view(seg.config).release_pointer()
                                + i);
                        }
                        assert(pre.seg_ok(seg));
                    }
                    let res = registry.append_to(seg.config, bytes);
                    match res {
                        Ok(local_offset) => {
                            proof {
                                assert(self.seg_ok(pre.metadata.entries@[li].chain.segments@[si]));
                                Self::lemma_views_wf_after_update(step_pre, *self, li, si);
                                assert(encoded.take(i as int).push(bytes@) =~= encoded.take(
                                    i as int + 1,
                                ));
                                assert(pre.spec_registry().loglet_view(seg.config).records
                                    + encoded.take(i as int) + seq![bytes@]
                                    =~= pre.spec_registry().loglet_view(seg.config).records
                                    + encoded.take(i as int + 1));
                                assert(self.spec_registry().loglet_view(seg.config)
                                    =~= pre.spec_registry().loglet_view(seg.config).after_append_all(
                                    encoded.take(i as int + 1),
                                ));
                            }
                            if i == 0 {
                                first = seg.base_lsn.0 - 1 + local_offset;
                            }
                        },
                        Err(e) => {
                            proof {
                                assert(*self =~= step_pre);
                                assert(i == 0);
                                assert(*self =~= pre);
                            }
                            return Err(e);
                        },
                    }
                },
                Option::None => {
                    proof {
                        assert(false);
                    }
                    return Err(Error::Shutdown);
                },
            }
            i = i + 1;
        }
        proof {
            assert(encoded.take(payloads@.len() as int) =~= encoded);
        }
        Ok(Lsn(first))
    }

    /// The readable tail of a log: the position of its last record, through
    /// the tail segment of its chain; nothing readable yields `None`.
    pub fn find_tail(&self, log_id: LogId, _attributes: FindTailAttributes) -> (r: Result<
        Option<Lsn>,
        Error,
    >)
        requires
            self.wf(),
            self.providers_published(),
        ensures
            self.shutting_down ==> r == Err::<Option<Lsn>, Error>(Error::Shutdown),
            !self.shutting_down && !self.spec_knows_log(log_id) ==> r == Err::<Option<Lsn>, Error>(
                Error::UnknownLogId(log_id),
            ),
            !self.shutting_down && self.spec_knows_log(log_id) && !self.spec_registry().has_kind(
                self.tail_seg(log_id).config.kind,
            ) ==> r == Err::<Option<Lsn>, Error>(
                Error::Disabled(self.tail_seg(log_id).config.kind),
            ),
            !self.shutting_down && self.spec_knows_log(log_id) && self.spec_registry().has_kind(
                self.tail_seg(log_id).config.kind,
            ) ==> r == Ok::<Option<Lsn>, Error>(
                match self.tail_view(log_id).find_tail() {
                    Some(t) => Some(Lsn((self.tail_seg(log_id).base_lsn.0 - 1 + t) as u64)),
                    Option::None => Option::None,
                },
            ),
    {
        match self.fail_if_shutting_down() {
            Ok(()) => {},
            Err(e) => {
                return Err(e);
            },
        }
        let seg: Segment = match self.metadata.get_chain(log_id) {
            Some(chain) => *chain.tail_segment(),
            Option::None => {
                return Err(Error::UnknownLogId(log_id));
            },
        };
        let ghost li = self.metadata.spec_log_index(log_id).unwrap();
        let ghost si = self.metadata.entries@[li].chain.segments@.len() - 1;
        proof {
            assert(self.seg_ok(self.metadata.entries@[li].chain.segments@[si]));
        }
        match &self.providers {
            Some(registry) => {
                match registry.find_tail_of(seg.config) {
                    Ok(Some(local_tail)) => Ok(Some(Lsn(seg.base_lsn.0 - 1 + local_tail))),
                    Ok(Option::None) => Ok(Option::None),
                    Err(e) => Err(e),
                }
            },
            Option::None => {
                proof {
                    assert(false);
                }
                Err(Error::Shutdown)
            },
        }
    }

    /// The state of the trim-point walk after considering the first `n`
    /// segments: whether the walk stopped, and the highest trim position
    /// seen so far (as a global position).
    pub open spec fn spec_trim_walk(self, segs: Seq<Segment>, n: int) -> (bool, Option<Lsn>)
        decreases n,
    {
        if n <= 0 {
            (false, Option::None)
        } else {
            let prior = self.spec_trim_walk(segs, n - 1);
            if prior.0 {
                prior
            } else {
                let v = self.spec_registry().loglet_view(segs[n - 1].config);
                match v.get_trim_point() {
                    Some(t) => (false, Some(Lsn((segs[n - 1].base_lsn.0 - 1 + t) as u64))),
                    Option::None => (true, prior.1),
                }
            }
        }
    }

    /// Once the walk stopped, later segments change nothing.
    proof fn lemma_trim_walk_stable(self, segs: Seq<Segment>, n: int, m: int)
        requires
            0 <= n <= m,
            self.spec_trim_walk(segs, n).0,
        ensures
            self.spec_trim_walk(segs, m) == self.spec_trim_walk(segs, n),
        decreases m - n,
    {
        if m > n {
            self.lemma_trim_walk_stable(segs, n, m - 1);
        }
    }

    /// The trim point the walk reports for a known log.
    pub open spec fn spec_trim_point(self, log_id: LogId) -> Option<Lsn> {
        self.spec_trim_walk(
            self.spec_chain(log_id).segments@,
            self.spec_chain(log_id).segments@.len() as int,
        ).1
    }

    /// For a log served by one segment, the walk reports exactly that
    /// loglet's trim point, shifted to global positions.
    pub proof fn lemma_trim_point_single_segment(self, log_id: LogId)
        requires
            self.spec_knows_log(log_id),
            self.spec_chain(log_id).segments@.len() == 1,
        ensures
            self.spec_trim_point(log_id) == match self.tail_view(log_id).get_trim_point() {
                Some(t) => Some(
                    Lsn((self.tail_seg(log_id).base_lsn.0 - 1 + t) as u64),
                ),
                Option::None => Option::None,
            },
    {
        let segs = self.spec_chain(log_id).segments@;
        assert(self.spec_trim_walk(segs, 0) == (false, Option::<Lsn>::None));
    }

    /// Whether the trim-point walk reaches segment `d` and cannot dispatch
    /// it: every earlier segment's kind is started and reports a trim point
    /// (so the walk goes on), but `d`'s kind has no started provider.
    pub open spec fn walk_blocked_at(self, log_id: LogId, d: int) -> bool {
        let segs = self.spec_chain(log_id).segments@;
        &&& 0 <= d < segs.len()
        &&& !self.spec_registry().has_kind(segs[d].config.kind)
        &&& forall|j: int|
            0 <= j < d ==> self.spec_registry().has_kind((#[trigger] segs[j]).config.kind)
                && self.spec_registry().loglet_view(segs[j].config).get_trim_point() is Some
    }

    /// The segment the trim-point walk cannot dispatch, if it reaches one.
    pub open spec fn spec_walk_blocked(self, log_id: LogId) -> Option<int> {
        if exists|d: int| self.walk_blocked_at(log_id, d) {
            Some(choose|d: int| self.walk_blocked_at(log_id, d))
        } else {
            Option::None
        }
    }

    /// At most one segment can block the walk.
    proof fn lemma_walk_blocked_unique(self, log_id: LogId, d: int)
        requires
            self.walk_blocked_at(log_id, d),
        ensures
            self.spec_walk_blocked(log_id) == Some(d),
    {
        let segs = self.spec_chain(log_id).segments@;
        let e = choose|e: int| self.walk_blocked_at(log_id, e);
        if e < d {
            assert(self.spec_registry().has_kind(segs[e].config.kind));
        } else if e > d {
            assert(self.spec_registry().has_kind(segs[d].config.kind));
        }
    }

    /// Whether a trim up to `t` reaches segment `d` and cannot dispatch it:
    /// it is based at or below `t` but its kind has no started provider,
    /// while every earlier segment's kind is started.
    pub open spec fn trim_blocked_at(self, log_id: LogId, t: u64, d: int) -> bool {
        let segs = self.spec_chain(log_id).segments@;
        &&& 0 <= d < segs.len()
        &&& segs[d].base_lsn.0 <= t
        &&& !self.spec_registry().has_kind(segs[d].config.kind)
        &&& forall|j: int|
            0 <= j < d ==> self.spec_registry().has_kind((#[trigger] segs[j]).config.kind)
    }

    /// The segment a trim up to `t` cannot dispatch, if it reaches one.
    pub open spec fn spec_trim_blocked(self, log_id: LogId, t: u64) -> Option<int> {
        if exists|d: int| self.trim_blocked_at(log_id, t, d) {
            Some(choose|d: int| self.trim_blocked_at(log_id, t, d))
        } else {
            Option::None
        }
    }

    /// At most one segment can block a trim.
    proof fn lemma_trim_blocked_unique(self, log_id: LogId, t: u64, d: int)
        requires
            self.trim_blocked_at(log_id, t, d),
        ensures
            self.spec_trim_blocked(log_id, t) == Some(d),
    {
        let segs = self.spec_chain(log_id).segments@;
        let e = choose|e: int| self.trim_blocked_at(log_id, t, e);
        if e < d {
            assert(self.spec_registry().has_kind(segs[e].config.kind));
        } else if e > d {
            assert(self.spec_registry().has_kind(segs[d].config.kind));
        }
    }

    /// The highest trimmed position of a log: the chain is walked from the
    /// head and the walk stops at the first segment that reports no trim
    /// point; the last value seen before stopping is returned. A walk that
    /// reaches a segment whose provider kind was not started fails there.
    pub fn get_trim_point(&self, log_id: LogId) -> (r: Result<Option<Lsn>, Error>)
        requires
            self.wf(),
            self.providers_published(),
        ensures
            self.shutting_down ==> r == Err::<Option<Lsn>, Error>(Error::Shutdown),
            !self.shutting_down && !self.spec_knows_log(log_id) ==> r == Err::<Option<Lsn>, Error>(
                Error::UnknownLogId(log_id),
            ),
            !self.shutting_down && self.spec_knows_log(log_id) && self.spec_walk_blocked(
                log_id,
            ) is None ==> r == Ok::<Option<Lsn>, Error>(self.spec_trim_point(log_id)),
            !self.shutting_down && self.spec_knows_log(log_id) && self.spec_walk_blocked(
                log_id,
            ) is Some ==> r == Err::<Option<Lsn>, Error>(
                Error::Disabled(
                    self.spec_chain(log_id).segments@[self.spec_walk_blocked(
                        log_id,
                    ).unwrap()].config.kind,
                ),
            ),
    {
        match self.fail_if_shutting_down() {
            Ok(()) => {},
            Err(e) => {
                return Err(e);
            },
        }
        let chain: &LogChain = match self.metadata.get_chain(log_id) {
            Some(chain) => chain,
            Option::None => {
                return Err(Error::UnknownLogId(log_id));
            },
        };
        let ghost li = self.metadata.spec_log_index(log_id).unwrap();
        let registry: &ProviderRegistry = match &self.providers {
            Some(registry) => registry,
            Option::None => {
                proof {
                    assert(false);
                }
                return Err(Error::Shutdown);
            },
        };
        let mut trim_point: Option<Lsn> = Option::None;
        let mut i: usize = 0;
        while i < chain.segments.len()
            invariant
                self.wf(),
                self.providers_published(),
                !self.shutting_down,
                self.spec_knows_log(log_id),
                li == self.metadata.spec_log_index(log_id).unwrap(),
                *chain == self.spec_chain(log_id),
                chain.wf(),
                registry == &self.spec_registry(),
                i <= chain.segments@.len(),
                self.spec_trim_walk(chain.segments@, i as int) == (false, trim_point),
                forall|j: int|
                    0 <= j < i ==> self.spec_registry().has_kind(
                        (#[trigger] chain.segments@[j]).config.kind,
                    ) && self.spec_registry().loglet_view(
                        chain.segments@[j].config,
                    ).get_trim_point() is Some,
            decreases chain.segments@.len() - i,
        {
            let seg = chain.segments[i];
            proof {
                assert(self.seg_ok(self.metadata.entries@[li].chain.segments@[i as int]));
            }
            match registry.get_trim_point_of(seg.config) {
                Ok(Some(local_trim)) => {
                    trim_point = Some(Lsn(seg.base_lsn.0 - 1 + local_trim));
                },
                Ok(Option::None) => {
                    proof {
                        assert(self.spec_trim_walk(chain.segments@, i as int + 1) == (
                        true,
                        self.spec_trim_walk(chain.segments@, i as int).1,
                        ));
                        self.lemma_trim_walk_stable(
                            chain.segments@,
                            i as int + 1,
                            chain.segments@.len() as int,
                        );
                        assert forall|d: int| !self.walk_blocked_at(log_id, d) by {
                            if self.walk_blocked_at(log_id, d) {
                                if d < i as int {
                                    assert(self.spec_registry().has_kind(
                                        chain.segments@[d].config.kind,
                                    ));
                                } else if d == i as int {
                                    assert(self.spec_registry().has_kind(seg.config.kind));
                                } else {
                                    assert(self.spec_registry().has_kind(
                                        (chain.segments@[i as int]).config.kind,
                                    ) && self.spec_registry().loglet_view(
                                        chain.segments@[i as int].config,
                                    ).get_trim_point() is Some);
                                }
                            }
                        }
                    }
                    return Ok(trim_point);
                },
                Err(e) => {
                    proof {
                        assert(self.walk_blocked_at(log_id, i as int));
                        self.lemma_walk_blocked_unique(log_id, i as int);
                    }
                    return Err(e);
                },
            }
            i = i + 1;
        }
        proof {
            assert forall|d: int| !self.walk_blocked_at(log_id, d) by {
                if self.walk_blocked_at(log_id, d) {
                    assert(self.spec_registry().has_kind(chain.segments@[d].config.kind));
                }
            }
        }
        Ok(trim_point)
    }

    /// Trim a log up to `trim_point`. The chain is walked in order; each
    /// segment based at or below `trim_point` is trimmed to `trim_point`,
    /// clamped by that loglet's own tail; segments past `trim_point` are
    /// untouched. An over-large trim point is clamped to the tail.
    pub fn trim(&mut self, log_id: LogId, trim_point: Lsn) -> (r: Result<(), Error>)
        requires
            old(self).wf(),
            old(self).providers_published(),
        ensures
            final(self).wf(),
            final(self).providers_published(),
            final(self).metadata == old(self).metadata,
            final(self).shutting_down == old(self).shutting_down,
            final(self).waiters@ == old(self).waiters@,
            forall|k: ProviderKind|
                final(self).spec_registry().has_kind(k) == old(self).spec_registry().has_kind(k),
            old(self).shutting_down ==> r == Err::<(), Error>(Error::Shutdown) && *final(self)
                == *old(self),
            !old(self).shutting_down && !old(self).spec_knows_log(log_id) ==> r == Err::<
                (),
                Error,
            >(Error::UnknownLogId(log_id)) && *final(self) == *old(self),
            !old(self).shutting_down && old(self).spec_knows_log(log_id) && old(self).spec_trim_blocked(
                log_id,
                trim_point.0,
            ) is Some ==> {
                let d = old(self).spec_trim_blocked(log_id, trim_point.0).unwrap();
                let segs = old(self).spec_chain(log_id).segments@;
                &&& r == Err::<(), Error>(Error::Disabled(segs[d].config.kind))
                &&& forall|si: int|
                    0 <= si < segs.len() ==> final(self).spec_registry().loglet_view(
                        (#[trigger] segs[si]).config,
                    ) == {
                        let v = old(self).spec_registry().loglet_view(segs[si].config);
                        if si < d {
                            v.after_trim((trim_point.0 - segs[si].base_lsn.0 + 1) as nat)
                        } else {
                            v
                        }
                    }
                &&& forall|c: LogletConfig|
                    (forall|si: int|
                        0 <= si < segs.len() ==> c != (#[trigger] segs[si]).config) ==> final(self).spec_registry().loglet_view(c) == old(self).spec_registry().loglet_view(c)
            },
            !old(self).shutting_down && old(self).spec_knows_log(log_id) && old(self).spec_trim_blocked(
                log_id,
                trim_point.0,
            ) is None ==> {
                &&& r == Ok::<(), Error>(())
                &&& forall|si: int|
                    0 <= si < old(self).spec_chain(log_id).segments@.len() ==> final(self).spec_registry().loglet_view(
                        (#[trigger] old(self).spec_chain(log_id).segments@[si]).config,
                    ) == {
                        let seg = old(self).spec_chain(log_id).segments@[si];
                        let v = old(self).spec_registry().loglet_view(seg.config);
                        if seg.base_lsn.0 <= trim_point.0 {
                            v.after_trim((trim_point.0 - seg.base_lsn.0 + 1) as nat)
                        } else {
                            v
                        }
                    }
                &&& forall|c: LogletConfig|
                    (forall|si: int|
                        0 <= si < old(self).spec_chain(log_id).segments@.len() ==> c != (
                        #[trigger] old(self).spec_chain(log_id).segments@[si]).config) ==> final(self).spec_registry().loglet_view(c) == old(self).spec_registry().loglet_view(c)
            },
    {
        match self.fail_if_shutting_down() {
            Ok(()) => {},
            Err(e) => {
                return Err(e);
            },
        }
        let num_segments: usize = match self.metadata.get_chain(log_id) {
            Some(chain) => chain.segments.len(),
            Option::None => {
                return Err(Error::UnknownLogId(log_id));
            },
        };
        let ghost li = self.metadata.spec_log_index(log_id).unwrap();
        let ghost pre = *self;
        let mut i: usize = 0;
        while i < num_segments
            invariant
                pre == *old(self),
                pre.wf(),
                pre.providers_published(),
                !pre.shutting_down,
                pre.spec_knows_log(log_id),
                li == pre.metadata.spec_log_index(log_id).unwrap(),
                num_segments == pre.spec_chain(log_id).segments@.len(),
                i <= num_segments,
                self.wf(),
                self.providers_published(),
                self.metadata == pre.metadata,
                self.shutting_down == pre.shutting_down,
                self.waiters@ == pre.waiters@,
                self.next_waiter_id == pre.next_waiter_id,
                i == 0 ==> *self == pre,
                forall|k: ProviderKind|
                    self.spec_registry().has_kind(k) == pre.spec_registry().has_kind(k),
                forall|j: int|
                    0 <= j < i ==> pre.spec_registry().has_kind(
                        (#[trigger] pre.spec_chain(log_id).segments@[j]).config.kind,
                    ),
                forall|si: int|
                    0 <= si < i ==> self.spec_registry().loglet_view(
                        (#[trigger] pre.spec_chain(log_id).segments@[si]).config,
                    ) == {
                        let seg = pre.spec_chain(log_id).segments@[si];
                        let v = pre.spec_registry().loglet_view(seg.config);
                        if seg.base_lsn.0 <= trim_point.0 {
                            v.after_trim((trim_point.0 - seg.base_lsn.0 + 1) as nat)
                        } else {
                            v
                        }
                    },
                forall|c: LogletConfig|
                    (forall|si: int|
                        0 <= si < i ==> c != (#[trigger] pre.spec_chain(
                            log_id,
                        ).segments@[si]).config) ==> self.spec_registry().loglet_view(c)
                        == pre.spec_registry().loglet_view(c),
            decreases num_segments - i,
        {
            let seg: Segment = match self.metadata.get_chain(log_id) {
                Some(chain) => chain.segments[i],
                Option::None => {
                    proof {
                        assert(false);
                    }
                    return Err(Error::Shutdown);
                },
            };
            if seg.base_lsn.0 > trim_point.0 {
                proof {
                    let chain = pre.spec_chain(log_id);
                    assert forall|si: int| 0 <= si < num_segments implies self.spec_registry(
                    ).loglet_view((#[trigger] chain.segments@[si]).config) == {
                        let s = chain.segments@[si];
                        let v = pre.spec_registry().loglet_view(s.config);
                        if s.base_lsn.0 <= trim_point.0 {
                            v.after_trim((trim_point.0 - s.base_lsn.0 + 1) as nat)
                        } else {
                            v
                        }
                    } by {
                        if si >= i {
                            assert(chain.segments@[i as int].base_lsn.0
                                <= chain.segments@[si].base_lsn.0);
                            assert(chain.segments@[si].base_lsn.0 > trim_point.0);
                            assert forall|sj: int| 0 <= sj < i implies chain.segments@[si].config
                                != (#[trigger] chain.segments@[sj]).config by {
                                assert(self.metadata.entries@[li].chain.segments@[si].config
                                    != self.metadata.entries@[li].chain.segments@[sj].config);
                            }
                        }
                    }
                    assert forall|d: int| !pre.trim_blocked_at(log_id, trim_point.0, d) by {
                        if pre.trim_blocked_at(log_id, trim_point.0, d) {
                            if d >= i {
                                assert(chain.segments@[i as int].base_lsn.0
                                    <= chain.segments@[d].base_lsn.0);
                            } else {
                                assert(pre.spec_registry().has_kind(
                                    chain.segments@[d].config.kind,
                                ));
                            }
                        }
                    }
                }
                return Ok(());
            }
            let ghost step_pre = *self;
            match &mut self.providers {
                Some(registry) => {
                    let local_trim: u64 = trim_point.0 - seg.base_lsn.0 + 1;
                    let res = registry.trim_to(seg.config, local_trim);
                    match res {
                        Ok(()) => {
                            proof {
                                crate::loglet::lemma_trim_monotone(
                                    step_pre.spec_registry().loglet_view(seg.config),
                                    local_trim as nat,
                                );
                                assert(step_pre.seg_ok(
                                    step_pre.metadata.entries@[li].chain.segments@[i as int],
                                ));
                                assert(self.seg_ok(
                                    step_pre.metadata.entries@[li].chain.segments@[i as int],
                                ));
                                Self::lemma_views_wf_after_update(step_pre, *self, li, i as int);
                                assert forall|sj: int| 0 <= sj < i implies pre.spec_chain(
                                    log_id,
                                ).segments@[i as int].config != (#[trigger] pre.spec_chain(
                                    log_id,
                                ).segments@[sj]).config by {
                                    assert(self.metadata.entries@[li].chain.segments@[i as int].config
                                        != self.metadata.entries@[li].chain.segments@[sj].config);
                                }
                            }
                        },
                        Err(e) => {
                            proof {
                                let segs = pre.spec_chain(log_id).segments@;
                                assert(!pre.spec_registry().has_kind(seg.config.kind));
                                assert(pre.trim_blocked_at(log_id, trim_point.0, i as int));
                                pre.lemma_trim_blocked_unique(log_id, trim_point.0, i as int);
                                assert(*self == step_pre);
                                assert forall|si: int|
                                    0 <= si < segs.len() implies self.spec_registry().loglet_view(
                                    (#[trigger] segs[si]).config,
                                ) == {
                                    let v = pre.spec_registry().loglet_view(segs[si].config);
                                    if si < i as int {
                                        v.after_trim(
                                            (trim_point.0 - segs[si].base_lsn.0 + 1) as nat,
                                        )
                                    } else {
                                        v
                                    }
                                } by {
                                    if si < i as int {
                                        assert(segs[si].base_lsn.0 <= segs[i as int].base_lsn.0);
                                        assert(segs[si].base_lsn.0 <= trim_point.0);
                                    } else {
                                        assert forall|sj: int|
                                            0 <= sj < i implies segs[si].config != (
                                        #[trigger] segs[sj]).config by {
                                            assert(self.metadata.entries@[li].chain.segments@[si].config
                                                != self.metadata.entries@[li].chain.segments@[sj].config);
                                        }
                                    }
                                }
                            }
                            return Err(e);
                        },
                    }
                },
                Option::None => {
                    proof {
                        assert(false);
                    }
                    return Err(Error::Shutdown);
                },
            }
            i = i + 1;
        }
        proof {
            let chain = pre.spec_chain(log_id);
            assert forall|d: int| !pre.trim_blocked_at(log_id, trim_point.0, d) by {
                if pre.trim_blocked_at(log_id, trim_point.0, d) {
                    assert(pre.spec_registry().has_kind(chain.segments@[d].config.kind));
                }
            }
        }
        Ok(())
    }

    /// The segment that serves the position directly after `after`.
    pub open spec fn spec_read_seg(self, log_id: LogId, after: u64) -> Segment {
        let segs = self.spec_chain(log_id).segments@;
        segs[seg_index_for_lsn(segs, (after + 1) as u64)]
    }

    /// The loglet-local offset standing for the global position directly
    /// after `after`, within the segment that serves it; positions before
    /// the segment's base read from the segment's head.
    pub open spec fn spec_local_after(seg: Segment, after: u64) -> u64 {
        if after + 1 > seg.base_lsn.0 {
            (after + 1 - seg.base_lsn.0) as u64
        } else {
            0
        }
    }

    /// Whether `rec` is the record that the view-level read item `item` of
    /// segment `seg` stands for, translated to global positions, with data
    /// decoded.
    pub open spec fn lsn_item_matches(seg: Segment, item: ReadItemView, rec: LogRecord) -> bool {
        &&& rec.offset.0 == seg.base_lsn.0 - 1 + item.offset
        &&& match item.payload {
            ReadPayloadView::Data(bytes) => match rec.record {
                Record::Data(p) => spec_decode_payload(bytes) == Some(p.body@),
                _ => false,
            },
            ReadPayloadView::Gap { until } => rec.record == Record::TrimGap(
                TrimGap { until: Lsn((seg.base_lsn.0 - 1 + until) as u64) },
            ),
        }
    }

    /// Read the record directly after `after`, without waiting: the earliest
    /// record with a greater position, through the segment serving that
    /// position. Yields a trim gap where that position was trimmed away, and
    /// `None` where nothing is committed there yet.
    pub fn read_next_single_opt(&self, log_id: LogId, after: Lsn) -> (r: Result<
        Option<LogRecord>,
        Error,
    >)
        requires
            self.wf(),
            self.providers_published(),
            after.0 < u64::MAX,
        ensures
            self.shutting_down ==> r == Err::<Option<LogRecord>, Error>(Error::Shutdown),
            !self.shutting_down && !self.spec_knows_log(log_id) ==> r == Err::<
                Option<LogRecord>,
                Error,
            >(Error::UnknownLogId(log_id)),
            !self.shutting_down && self.spec_knows_log(log_id) && !self.spec_registry().has_kind(
                self.spec_read_seg(log_id, after.0).config.kind,
            ) ==> r == Err::<Option<LogRecord>, Error>(
                Error::Disabled(self.spec_read_seg(log_id, after.0).config.kind),
            ),
            !self.shutting_down && self.spec_knows_log(log_id) && self.spec_registry().has_kind(
                self.spec_read_seg(log_id, after.0).config.kind,
            ) ==> {
                let seg = self.spec_read_seg(log_id, after.0);
                let v = self.spec_registry().loglet_view(seg.config);
                match v.read_next(Self::spec_local_after(seg, after.0) as nat) {
                    Option::None => r == Ok::<Option<LogRecord>, Error>(Option::None),
                    Some(item) => match item.payload {
                        ReadPayloadView::Data(bytes) => if spec_decode_payload(bytes) is Some {
                            match r {
                                Ok(Some(rec)) => Self::lsn_item_matches(seg, item, rec),
                                _ => false,
                            }
                        } else {
                            r == Err::<Option<LogRecord>, Error>(Error::LogletError)
                        },
                        ReadPayloadView::Gap { .. } => match r {
                            Ok(Some(rec)) => Self::lsn_item_matches(seg, item, rec),
                            _ => false,
                        },
                    },
                }
            },
    {
        match self.fail_if_shutting_down() {
            Ok(()) => {},
            Err(e) => {
                return Err(e);
            },
        }
        let seg: Segment = match self.metadata.get_chain(log_id) {
            Some(chain) => chain.find_segment_for_lsn(Lsn(after.0 + 1)),
            Option::None => {
                return Err(Error::UnknownLogId(log_id));
            },
        };
        let ghost li = self.metadata.spec_log_index(log_id).unwrap();
        let ghost si = seg_index_for_lsn(self.spec_chain(log_id).segments@, (after.0 + 1) as u64);
        proof {
            crate::metadata::lemma_seg_index_for_lsn(
                self.spec_chain(log_id).segments@,
                (after.0 + 1) as u64,
            );
            assert(self.seg_ok(self.metadata.entries@[li].chain.segments@[si]));
        }
        let local_after: u64 = if after.0 + 1 > seg.base_lsn.0 {
            after.0 + 1 - seg.base_lsn.0
        } else {
            0
        };
        let registry: &ProviderRegistry = match &self.providers {
            Some(registry) => registry,
            Option::None => {
                proof {
                    assert(false);
                }
                return Err(Error::Shutdown);
            },
        };
        match registry.read_from(seg.config, local_after) {
            Ok(Some(item)) => {
                match item.payload {
                    crate::memory_loglet::LogletPayload::Data(bytes) => {
                        match decode_payload(&bytes) {
                            Some(payload) => Ok(
                                Some(
                                    LogRecord {
                                        offset: Lsn(seg.base_lsn.0 - 1 + item.offset),
                                        record: Record::Data(payload),
                                    },
                                ),
                            ),
                            Option::None => Err(Error::LogletError),
                        }
                    },
                    crate::memory_loglet::LogletPayload::Gap { until } => Ok(
                        Some(
                            LogRecord {
                                offset: Lsn(seg.base_lsn.0 - 1 + item.offset),
                                record: Record::TrimGap(
                                    TrimGap { until: Lsn(seg.base_lsn.0 - 1 + until) },
                                ),
                            },
                        ),
                    ),
                }
            },
            Ok(Option::None) => Ok(Option::None),
            Err(e) => Err(e),
        }
    }

    /// The tail a wakeup is measured against: the readable tail of the
    /// log's tail loglet, where it can be resolved outside a shutdown.
    pub open spec fn spec_wake_tail(self, log_id: LogId) -> Option<u64> {
        if !self.shutting_down && self.spec_knows_log(log_id) && self.spec_registry().has_kind(
            self.tail_seg(log_id).config.kind,
        ) {
            match self.tail_view(log_id).find_tail() {
                Some(t) => Some((self.tail_seg(log_id).base_lsn.0 - 1 + t) as u64),
                Option::None => Option::None,
            }
        } else {
            Option::None
        }
    }

    /// Whether a waiter is due to wake: its log's readable tail has reached
    /// its threshold.
    pub open spec fn spec_waiter_due(self, log_id: LogId, w: ReadWaiter) -> bool {
        w.log_id == log_id && match self.spec_wake_tail(log_id) {
            Some(t) => w.threshold <= t,
            Option::None => false,
        }
    }

    /// Read the record directly after `after`, waiting for it where none is
    /// committed yet: either the record, or a registered waiter for the
    /// position directly after `after`, to be retried once woken by
    /// [`BifrostInner::take_woken`].
    pub fn read_next_single(&mut self, log_id: LogId, after: Lsn) -> (r: Result<
        ReadNextOutcome,
        Error,
    >)
        requires
            old(self).wf(),
            old(self).providers_published(),
            after.0 < u64::MAX,
            old(self).next_waiter_id < u64::MAX,
        ensures
            final(self).wf(),
            final(self).providers_published(),
            final(self).metadata == old(self).metadata,
            final(self).shutting_down == old(self).shutting_down,
            final(self).providers == old(self).providers,
            old(self).shutting_down ==> r == Err::<ReadNextOutcome, Error>(Error::Shutdown)
                && *final(self) == *old(self),
            !old(self).shutting_down && !old(self).spec_knows_log(log_id) ==> r == Err::<
                ReadNextOutcome,
                Error,
            >(Error::UnknownLogId(log_id)) && *final(self) == *old(self),
            !old(self).shutting_down && old(self).spec_knows_log(log_id) && !old(self).spec_registry().has_kind(old(self).spec_read_seg(log_id, after.0).config.kind) ==> r
                == Err::<ReadNextOutcome, Error>(
                Error::Disabled(old(self).spec_read_seg(log_id, after.0).config.kind),
            ) && *final(self) == *old(self),
            !old(self).shutting_down && old(self).spec_knows_log(log_id) && old(self).spec_registry().has_kind(old(self).spec_read_seg(log_id, after.0).config.kind) ==> {
                let seg = old(self).spec_read_seg(log_id, after.0);
                let v = old(self).spec_registry().loglet_view(seg.config);
                match v.read_next(Self::spec_local_after(seg, after.0) as nat) {
                    Option::None => {
                        &&& r == Ok::<ReadNextOutcome, Error>(
                            ReadNextOutcome::Registered(old(self).next_waiter_id),
                        )
                        &&& final(self).waiters@ == old(self).waiters@.push(
                            ReadWaiter {
                                id: old(self).next_waiter_id,
                                log_id,
                                threshold: (after.0 + 1) as u64,
                            },
                        )
                        &&& final(self).next_waiter_id == old(self).next_waiter_id + 1
                    },
                    Some(item) => {
                        &&& *final(self) == *old(self)
                        &&& match item.payload {
                            ReadPayloadView::Data(bytes) => if spec_decode_payload(
                                bytes,
                            ) is Some {
                                match r {
                                    Ok(ReadNextOutcome::Ready(rec)) => Self::lsn_item_matches(
                                        seg,
                                        item,
                                        rec,
                                    ),
                                    _ => false,
                                }
                            } else {
                                r == Err::<ReadNextOutcome, Error>(Error::LogletError)
                            },
                            ReadPayloadView::Gap { .. } => match r {
                                Ok(ReadNextOutcome::Ready(rec)) => Self::lsn_item_matches(
                                    seg,
                                    item,
                                    rec,
                                ),
                                _ => false,
                            },
                        }
                    },
                }
            },
    {
        match self.read_next_single_opt(log_id, after) {
            Ok(Some(record)) => Ok(ReadNextOutcome::Ready(record)),
            Ok(Option::None) => {
                let id = self.next_waiter_id;
                self.waiters.push(ReadWaiter { id, log_id, threshold: after.0 + 1 });
                self.next_waiter_id = id + 1;
                Ok(ReadNextOutcome::Registered(id))
            },
            Err(e) => Err(e),
        }
    }

    /// Remove and return the waiters of a log whose threshold the readable
    /// tail has reached: the writer's level-triggered wakeup after a
    /// successful commit. Waiters of other logs, and waiters still short of
    /// the tail, stay registered.
    pub fn take_woken(&mut self, log_id: LogId) -> (r: Vec<u64>)
        requires
            old(self).wf(),
            old(self).providers_published(),
        ensures
            final(self).wf(),
            final(self).providers_published(),
            final(self).metadata == old(self).metadata,
            final(self).shutting_down == old(self).shutting_down,
            final(self).providers == old(self).providers,
            final(self).next_waiter_id == old(self).next_waiter_id,
            final(self).waiters@ == old(self).waiters@.filter(
                |w: ReadWaiter| !old(self).spec_waiter_due(log_id, w),
            ),
            r@ == old(self).waiters@.filter(
                |w: ReadWaiter| old(self).spec_waiter_due(log_id, w),
            ).map_values(|w: ReadWaiter| w.id),
    {
        let ghost pre = *self;
        let ghost due = |w: ReadWaiter| pre.spec_waiter_due(log_id, w);
        let ghost not_due = |w: ReadWaiter| !pre.spec_waiter_due(log_id, w);
        let tail: Option<u64> = if self.shutting_down {
            Option::None
        } else {
            match self.find_tail(log_id, FindTailAttributes {}) {
                Ok(Some(t)) => Some(t.0),
                _ => Option::None,
            }
        };
        proof {
            assert(tail == pre.spec_wake_tail(log_id));
        }
        let mut kept: Vec<ReadWaiter> = Vec::new();
        let mut woken: Vec<u64> = Vec::new();
        let mut i: usize = 0;
        while i < self.waiters.len()
            invariant
                *self == pre,
                i <= self.waiters@.len(),
                tail == pre.spec_wake_tail(log_id),
                due == (|w: ReadWaiter| pre.spec_waiter_due(log_id, w)),
                not_due == (|w: ReadWaiter| !pre.spec_waiter_due(log_id, w)),
                kept@ == self.waiters@.take(i as int).filter(not_due),
                woken@ == self.waiters@.take(i as int).filter(due).map_values(
                    |w: ReadWaiter| w.id,
                ),
            decreases self.waiters@.len() - i,
        {
            let w = self.waiters[i];
            let is_due = match tail {
                Some(t) => w.log_id == log_id && w.threshold <= t,
                Option::None => false,
            };
            proof {
                reveal(Seq::filter);
                assert(self.waiters@.take(i + 1).drop_last() =~= self.waiters@.take(i as int));
                assert(self.waiters@.take(i + 1).last() == w);
                assert(is_due == due(w));
            }
            if is_due {
                woken.push(w.id);
                proof {
                    assert(woken@ =~= self.waiters@.take(i + 1).filter(due).map_values(
                        |w: ReadWaiter| w.id,
                    ));
                }
            } else {
                kept.push(w);
                proof {
                    assert(kept@ =~= self.waiters@.take(i + 1).filter(not_due));
                }
            }
            i = i + 1;
        }
        proof {
            assert(self.waiters@.take(self.waiters@.len() as int) =~= self.waiters@);
        }
        self.waiters = kept;
        woken
    }
}

/// The externally visible handle. Every operation is fenced by the
/// shutdown flag and routed per the current metadata snapshot. Unlike a
/// reference-counted handle, a clone of this value is an independent copy
/// of the core, not an alias of it: writers share one log by borrowing the
/// same handle, not by cloning it.
#[derive(Clone, Debug)]
pub struct Bifrost {
    pub inner: BifrostInner,
}

impl Bifrost {
    pub open spec fn wf(self) -> bool {
        &&& self.inner.wf()
        &&& self.inner.providers_published()
    }

    pub fn new(inner: BifrostInner) -> (r: Self)
        ensures
            r.inner == inner,
    {
        Bifrost { inner }
    }

    /// A started handle over in-memory loglets: the in-memory provider is
    /// created and published, as the watchdog would.
    pub fn init_in_memory(metadata: LogsMetadata) -> (r: Self)
        requires
            metadata.wf(),
        ensures
            r.wf(),
            !r.inner.shutting_down,
            r.inner.metadata == metadata,
            forall|config: LogletConfig|
                r.inner.spec_registry().loglet_view(config) == LogletView::empty(),
            r.inner.spec_registry().has_kind(ProviderKind::InMemory),
    {
        Self::init_with_factory(metadata, MemoryLogletProvider::new())
    }

    /// A started handle over a caller-configured in-memory provider (for
    /// example one with an initialization delay).
    pub fn init_with_factory(metadata: LogsMetadata, factory: MemoryLogletProvider) -> (r: Self)
        requires
            metadata.wf(),
            factory.wf(),
            forall|id: u64| factory.loglet_view(id) == LogletView::empty(),
        ensures
            r.wf(),
            !r.inner.shutting_down,
            r.inner.metadata == metadata,
            forall|config: LogletConfig|
                r.inner.spec_registry().loglet_view(config) == LogletView::empty(),
            r.inner.spec_registry().has_kind(ProviderKind::InMemory),
    {
        let mut inner = BifrostInner::new(metadata);
        let registry = ProviderRegistry::with_memory(factory);
        proof {
            assert forall|config: LogletConfig| registry.loglet_view(config)
                == LogletView::empty() by {
                match config.kind {
                    ProviderKind::InMemory => {},
                    ProviderKind::Local => {},
                }
            }
        }
        inner.publish_providers(registry);
        Bifrost { inner }
    }

    /// A started handle over the local persistent loglet: a fresh store,
    /// its writer, and the provider, created and published as the service
    /// start would.
    pub fn init_local(metadata: LogsMetadata) -> (r: Self)
        requires
            metadata.wf(),
        ensures
            r.wf(),
            !r.inner.shutting_down,
            r.inner.metadata == metadata,
            forall|config: LogletConfig|
                r.inner.spec_registry().loglet_view(config) == LogletView::empty(),
            r.inner.spec_registry().has_kind(ProviderKind::Local),
    {
        let mut inner = BifrostInner::new(metadata);
        let provider = crate::local_loglet::LocalLogletProvider::new();
        let registry = ProviderRegistry::with_local(provider);
        proof {
            assert forall|config: LogletConfig| registry.loglet_view(config)
                == LogletView::empty() by {
                match config.kind {
                    ProviderKind::InMemory => {},
                    ProviderKind::Local => {},
                }
            }
        }
        inner.publish_providers(registry);
        Bifrost { inner }
    }

    /// The core behind this handle.
    pub fn inner(&self) -> (r: &BifrostInner)
        ensures
            *r == self.inner,
    {
        &self.inner
    }

    /// The version of the currently observed logs metadata.
    pub fn version(&self) -> (r: Version)
        ensures
            r == self.inner.metadata.version,
    {
        self.inner.metadata.version
    }

    /// Append one record; see [`BifrostInner::append`].
    pub fn append(&mut self, log_id: LogId, payload: Payload) -> (r: Result<Lsn, Error>)
        requires
            old(self).wf(),
            old(self).inner.spec_knows_log(log_id) ==> old(self).inner.tail_lsn(log_id) < u64::MAX
                - 1,
        ensures
            final(self).wf(),
            final(self).inner.metadata == old(self).inner.metadata,
            final(self).inner.shutting_down == old(self).inner.shutting_down,
            forall|k: ProviderKind|
                final(self).inner.spec_registry().has_kind(k) == old(self).inner.spec_registry(
                ).has_kind(k),
            old(self).inner.shutting_down ==> r == Err::<Lsn, Error>(Error::Shutdown) && *final(self) == *old(self),
            !old(self).inner.shutting_down && !old(self).inner.spec_knows_log(log_id) ==> r
                == Err::<Lsn, Error>(Error::UnknownLogId(log_id)) && *final(self) == *old(self),
            !old(self).inner.shutting_down && old(self).inner.spec_knows_log(log_id) && !old(self).inner.spec_registry().has_kind(old(self).inner.tail_seg(log_id).config.kind) ==> r
                == Err::<Lsn, Error>(Error::Disabled(old(self).inner.tail_seg(log_id).config.kind))
                && *final(self) == *old(self),
            !old(self).inner.shutting_down && old(self).inner.spec_knows_log(log_id) && old(self).inner.spec_registry().has_kind(old(self).inner.tail_seg(log_id).config.kind) ==> {
                &&& r == Ok::<Lsn, Error>(Lsn((old(self).inner.tail_lsn(log_id) + 1) as u64))
                &&& final(self).inner.tail_view(log_id) == old(self).inner.tail_view(
                    log_id,
                ).after_append(spec_encode_payload(payload.body@))
                &&& final(self).inner.tail_lsn(log_id) == old(self).inner.tail_lsn(log_id) + 1
                &&& forall|c: LogletConfig|
                    c != old(self).inner.tail_seg(log_id).config ==> final(self).inner.spec_registry().loglet_view(c) == old(self).inner.spec_registry(
                    ).loglet_view(c)
            },
    {
        self.inner.append(log_id, payload)
    }

    /// Append a batch; see [`BifrostInner::append_batch`].
    pub fn append_batch(&mut self, log_id: LogId, payloads: &Vec<Payload>) -> (r: Result<
        Lsn,
        Error,
    >)
        requires
            old(self).wf(),
            payloads@.len() >= 1,
            old(self).inner.spec_knows_log(log_id) ==> old(self).inner.tail_lsn(log_id)
                + payloads@.len() <= u64::MAX - 1,
        ensures
            final(self).wf(),
            final(self).inner.metadata == old(self).inner.metadata,
            final(self).inner.shutting_down == old(self).inner.shutting_down,
            forall|k: ProviderKind|
                final(self).inner.spec_registry().has_kind(k) == old(self).inner.spec_registry(
                ).has_kind(k),
            old(self).inner.shutting_down ==> r == Err::<Lsn, Error>(Error::Shutdown) && *final(self) == *old(self),
            !old(self).inner.shutting_down && !old(self).inner.spec_knows_log(log_id) ==> r
                == Err::<Lsn, Error>(Error::UnknownLogId(log_id)) && *final(self) == *old(self),
            !old(self).inner.shutting_down && old(self).inner.spec_knows_log(log_id) && !old(self).inner.spec_registry().has_kind(old(self).inner.tail_seg(log_id).config.kind) ==> r
                == Err::<Lsn, Error>(Error::Disabled(old(self).inner.tail_seg(log_id).config.kind))
                && *final(self) == *old(self),
            !old(self).inner.shutting_down && old(self).inner.spec_knows_log(log_id) && old(self).inner.spec_registry().has_kind(old(self).inner.tail_seg(log_id).config.kind) ==> {
                &&& r == Ok::<Lsn, Error>(Lsn((old(self).inner.tail_lsn(log_id) + 1) as u64))
                &&& final(self).inner.tail_view(log_id) == old(self).inner.tail_view(
                    log_id,
                ).after_append_all(
                    payloads@.map_values(|p: Payload| spec_encode_payload(p.body@)),
                )
                &&& final(self).inner.tail_lsn(log_id) == old(self).inner.tail_lsn(log_id)
                    + payloads@.len()
            },
    {
        self.inner.append_batch(log_id, payloads)
    }

    /// Read without waiting; see [`BifrostInner::read_next_single_opt`].
    pub fn read_next_single_opt(&self, log_id: LogId, after: Lsn) -> (r: Result<
        Option<LogRecord>,
        Error,
    >)
        requires
            self.wf(),
            after.0 < u64::MAX,
        ensures
            self.inner.shutting_down ==> r == Err::<Option<LogRecord>, Error>(Error::Shutdown),
            !self.inner.shutting_down && !self.inner.spec_knows_log(log_id) ==> r == Err::<
                Option<LogRecord>,
                Error,
            >(Error::UnknownLogId(log_id)),
            !self.inner.shutting_down && self.inner.spec_knows_log(log_id)
                && !self.inner.spec_registry().has_kind(
                self.inner.spec_read_seg(log_id, after.0).config.kind,
            ) ==> r == Err::<Option<LogRecord>, Error>(
                Error::Disabled(self.inner.spec_read_seg(log_id, after.0).config.kind),
            ),
            !self.inner.shutting_down && self.inner.spec_knows_log(log_id)
                && self.inner.spec_registry().has_kind(
                self.inner.spec_read_seg(log_id, after.0).config.kind,
            ) ==> {
                let seg = self.inner.spec_read_seg(log_id, after.0);
                let v = self.inner.spec_registry().loglet_view(seg.config);
                match v.read_next(BifrostInner::spec_local_after(seg, after.0) as nat) {
                    Option::None => r == Ok::<Option<LogRecord>, Error>(Option::None),
                    Some(item) => match item.payload {
                        ReadPayloadView::Data(bytes) => if spec_decode_payload(bytes) is Some {
                            match r {
                                Ok(Some(rec)) => BifrostInner::lsn_item_matches(seg, item, rec),
                                _ => false,
                            }
                        } else {
                            r == Err::<Option<LogRecord>, Error>(Error::LogletError)
                        },
                        ReadPayloadView::Gap { .. } => match r {
                            Ok(Some(rec)) => BifrostInner::lsn_item_matches(seg, item, rec),
                            _ => false,
                        },
                    },
                }
            },
    {
        self.inner.read_next_single_opt(log_id, after)
    }

    /// Read, waiting where nothing is committed yet; see
    /// [`BifrostInner::read_next_single`].
    pub fn read_next_single(&mut self, log_id: LogId, after: Lsn) -> (r: Result<
        ReadNextOutcome,
        Error,
    >)
        requires
            old(self).wf(),
            after.0 < u64::MAX,
            old(self).inner.next_waiter_id < u64::MAX,
        ensures
            final(self).wf(),
            final(self).inner.metadata == old(self).inner.metadata,
            final(self).inner.shutting_down == old(self).inner.shutting_down,
            forall|k: ProviderKind|
                final(self).inner.spec_registry().has_kind(k) == old(self).inner.spec_registry(
                ).has_kind(k),
            final(self).inner.providers == old(self).inner.providers,
            old(self).inner.shutting_down ==> r == Err::<ReadNextOutcome, Error>(Error::Shutdown),
            !old(self).inner.shutting_down && !old(self).inner.spec_knows_log(log_id) ==> r
                == Err::<ReadNextOutcome, Error>(Error::UnknownLogId(log_id)),
            !old(self).inner.shutting_down && old(self).inner.spec_knows_log(log_id) && !old(self).inner.spec_registry().has_kind(
                old(self).inner.spec_read_seg(log_id, after.0).config.kind,
            ) ==> r == Err::<ReadNextOutcome, Error>(
                Error::Disabled(old(self).inner.spec_read_seg(log_id, after.0).config.kind),
            ),
            !old(self).inner.shutting_down && old(self).inner.spec_knows_log(log_id) && old(self).inner.spec_registry().has_kind(
                old(self).inner.spec_read_seg(log_id, after.0).config.kind,
            ) ==> {
                let seg = old(self).inner.spec_read_seg(log_id, after.0);
                let v = old(self).inner.spec_registry().loglet_view(seg.config);
                match v.read_next(BifrostInner::spec_local_after(seg, after.0) as nat) {
                    Option::None => {
                        &&& r == Ok::<ReadNextOutcome, Error>(
                            ReadNextOutcome::Registered(old(self).inner.next_waiter_id),
                        )
                        &&& final(self).inner.waiters@ == old(self).inner.waiters@.push(
                            ReadWaiter {
                                id: old(self).inner.next_waiter_id,
                                log_id,
                                threshold: (after.0 + 1) as u64,
                            },
                        )
                    },
                    Some(item) => match item.payload {
                        ReadPayloadView::Data(bytes) => if spec_decode_payload(bytes) is Some {
                            match r {
                                Ok(ReadNextOutcome::Ready(rec)) => BifrostInner::lsn_item_matches(
                                    seg,
                                    item,
                                    rec,
                                ),
                                _ => false,
                            }
                        } else {
                            r == Err::<ReadNextOutcome, Error>(Error::LogletError)
                        },
                        ReadPayloadView::Gap { .. } => match r {
                            Ok(ReadNextOutcome::Ready(rec)) => BifrostInner::lsn_item_matches(
                                seg,
                                item,
                                rec,
                            ),
                            _ => false,
                        },
                    },
                }
            },
    {
        self.inner.read_next_single(log_id, after)
    }

    /// The readable tail; see [`BifrostInner::find_tail`].
    pub fn find_tail(&self, log_id: LogId, attributes: FindTailAttributes) -> (r: Result<
        Option<Lsn>,
        Error,
    >)
        requires
            self.wf(),
        ensures
            self.inner.shutting_down ==> r == Err::<Option<Lsn>, Error>(Error::Shutdown),
            !self.inner.shutting_down && !self.inner.spec_knows_log(log_id) ==> r == Err::<
                Option<Lsn>,
                Error,
            >(Error::UnknownLogId(log_id)),
            !self.inner.shutting_down && self.inner.spec_knows_log(log_id)
                && !self.inner.spec_registry().has_kind(self.inner.tail_seg(log_id).config.kind)
                ==> r == Err::<Option<Lsn>, Error>(
                Error::Disabled(self.inner.tail_seg(log_id).config.kind),
            ),
            !self.inner.shutting_down && self.inner.spec_knows_log(log_id)
                && self.inner.spec_registry().has_kind(self.inner.tail_seg(log_id).config.kind)
                ==> r == Ok::<Option<Lsn>, Error>(
                match self.inner.tail_view(log_id).find_tail() {
                    Some(t) => Some(Lsn((self.inner.tail_seg(log_id).base_lsn.0 - 1 + t) as u64)),
                    Option::None => Option::None,
                },
            ),
    {
        self.inner.find_tail(log_id, attributes)
    }

    /// The trim point; see [`BifrostInner::get_trim_point`].
    pub fn get_trim_point(&self, log_id: LogId) -> (r: Result<Option<Lsn>, Error>)
        requires
            self.wf(),
        ensures
            self.inner.shutting_down ==> r == Err::<Option<Lsn>, Error>(Error::Shutdown),
            !self.inner.shutting_down && !self.inner.spec_knows_log(log_id) ==> r == Err::<
                Option<Lsn>,
                Error,
            >(Error::UnknownLogId(log_id)),
            !self.inner.shutting_down && self.inner.spec_knows_log(log_id)
                && self.inner.spec_walk_blocked(log_id) is None ==> r == Ok::<Option<Lsn>, Error>(
                self.inner.spec_trim_point(log_id),
            ),
            !self.inner.shutting_down && self.inner.spec_knows_log(log_id)
                && self.inner.spec_walk_blocked(log_id) is Some ==> r == Err::<
                Option<Lsn>,
                Error,
            >(
                Error::Disabled(
                    self.inner.spec_chain(log_id).segments@[self.inner.spec_walk_blocked(
                        log_id,
                    ).unwrap()].config.kind,
                ),
            ),
    {
        self.inner.get_trim_point(log_id)
    }

    /// Trim a log; see [`BifrostInner::trim`].
    pub fn trim(&mut self, log_id: LogId, trim_point: Lsn) -> (r: Result<(), Error>)
        requires
            old(self).wf(),
        ensures
            final(self).wf(),
            final(self).inner.metadata == old(self).inner.metadata,
            final(self).inner.shutting_down == old(self).inner.shutting_down,
            forall|k: ProviderKind|
                final(self).inner.spec_registry().has_kind(k) == old(self).inner.spec_registry(
                ).has_kind(k),
            old(self).inner.shutting_down ==> r == Err::<(), Error>(Error::Shutdown) && *final(self) == *old(self),
            !old(self).inner.shutting_down && !old(self).inner.spec_knows_log(log_id) ==> r
                == Err::<(), Error>(Error::UnknownLogId(log_id)) && *final(self) == *old(self),
            !old(self).inner.shutting_down && old(self).inner.spec_knows_log(log_id) && old(self).inner.spec_trim_blocked(log_id, trim_point.0) is Some ==> {
                let d = old(self).inner.spec_trim_blocked(log_id, trim_point.0).unwrap();
                let segs = old(self).inner.spec_chain(log_id).segments@;
                &&& r == Err::<(), Error>(Error::Disabled(segs[d].config.kind))
                &&& forall|si: int|
                    0 <= si < segs.len() ==> final(self).inner.spec_registry().loglet_view(
                        (#[trigger] segs[si]).config,
                    ) == {
                        let v = old(self).inner.spec_registry().loglet_view(segs[si].config);
                        if si < d {
                            v.after_trim((trim_point.0 - segs[si].base_lsn.0 + 1) as nat)
                        } else {
                            v
                        }
                    }
            },
            !old(self).inner.shutting_down && old(self).inner.spec_knows_log(log_id) && old(self).inner.spec_trim_blocked(log_id, trim_point.0) is None ==> {
                &&& r == Ok::<(), Error>(())
                &&& forall|si: int|
                    0 <= si < old(self).inner.spec_chain(log_id).segments@.len() ==> final(self).inner.spec_registry().loglet_view(
                        (#[trigger] old(self).inner.spec_chain(log_id).segments@[si]).config,
                    ) == {
                        let seg = old(self).inner.spec_chain(log_id).segments@[si];
                        let v = old(self).inner.spec_registry().loglet_view(seg.config);
                        if seg.base_lsn.0 <= trim_point.0 {
                            v.after_trim((trim_point.0 - seg.base_lsn.0 + 1) as nat)
                        } else {
                            v
                        }
                    }
            },
    {
        self.inner.trim(log_id, trim_point)
    }

    /// Create a lazy reader over `(after, until]`. Pass the greatest
    /// position as `until` for a tail-following reader, and the invalid
    /// position as `after` to read from the head. The stream re-resolves
    /// the serving segment between records, so it crosses segment
    /// boundaries as the chain advances.
    pub fn create_reader(&self, log_id: LogId, after: Lsn, until: Lsn) -> (r: Result<
        LogReadStream,
        Error,
    >)
        requires
            self.wf(),
        ensures
            self.inner.shutting_down ==> r == Err::<LogReadStream, Error>(Error::Shutdown),
            !self.inner.shutting_down && !self.inner.spec_knows_log(log_id) ==> r == Err::<
                LogReadStream,
                Error,
            >(Error::UnknownLogId(log_id)),
            !self.inner.shutting_down && self.inner.spec_knows_log(log_id) ==> match r {
                Ok(stream) => stream.log_id == log_id && stream.after == after.0 && stream.until
                    == until.0,
                Err(_) => false,
            },
    {
        if self.inner.shutting_down {
            return Err(Error::Shutdown);
        }
        match self.inner.metadata.get_chain(log_id) {
            Some(_) => Ok(LogReadStream { log_id, after: after.0, until: until.0 }),
            Option::None => Err(Error::UnknownLogId(log_id)),
        }
    }

    /// Whether a log is served by one segment from the head: its whole
    /// content lives in one loglet based at the first position.
    pub open spec fn single_headed(self, log_id: LogId) -> bool {
        &&& self.inner.spec_knows_log(log_id)
        &&& self.inner.spec_chain(log_id).segments@.len() == 1
        &&& self.inner.spec_chain(log_id).segments@[0].base_lsn.0 == 1
    }

    /// Read a full log from the head to its current tail: a log served by
    /// one segment from the head. The result is exactly the sequence a
    /// reader sees: at most one leading trim gap standing at the trim
    /// point, then every record past the trim point in order. A fully
    /// trimmed or empty log reads as nothing.
    pub fn read_all(&self, log_id: LogId) -> (r: Result<Vec<LogRecord>, Error>)
        requires
            self.wf(),
            !self.inner.shutting_down && self.inner.spec_knows_log(log_id) ==> self.single_headed(
                log_id,
            ),
        ensures
            self.inner.shutting_down ==> r == Err::<Vec<LogRecord>, Error>(Error::Shutdown),
            !self.inner.shutting_down && !self.inner.spec_knows_log(log_id) ==> r == Err::<
                Vec<LogRecord>,
                Error,
            >(Error::UnknownLogId(log_id)),
            !self.inner.shutting_down && self.single_headed(log_id)
                && !self.inner.spec_registry().has_kind(self.inner.tail_seg(log_id).config.kind)
                ==> r == Err::<Vec<LogRecord>, Error>(
                Error::Disabled(self.inner.tail_seg(log_id).config.kind),
            ),
            !self.inner.shutting_down && self.single_headed(log_id)
                && self.inner.spec_registry().has_kind(self.inner.tail_seg(log_id).config.kind)
                ==> {
                let seg = self.inner.tail_seg(log_id);
                let v = self.inner.spec_registry().loglet_view(seg.config);
                match v.find_tail() {
                    Option::None => match r {
                        Ok(out) => out@.len() == 0,
                        Err(_) => false,
                    },
                    Some(_) => match r {
                        Ok(out) => out@.len() == v.read_seq().len() && forall|i: int|
                            0 <= i < v.read_seq().len() ==> BifrostInner::lsn_item_matches(
                                seg,
                                #[trigger] v.read_seq()[i],
                                out@[i],
                            ),
                        Err(e) => e == Error::LogletError,
                    },
                }
            },
    {
        let tail: u64 = match self.find_tail(log_id, FindTailAttributes {}) {
            Ok(Some(t)) => t.0,
            Ok(Option::None) => {
                return Ok(Vec::new());
            },
            Err(e) => {
                return Err(e);
            },
        };
        let ghost cond = !self.inner.shutting_down && self.single_headed(log_id)
            && self.inner.spec_registry().has_kind(self.inner.tail_seg(log_id).config.kind);
        let ghost seg = self.inner.tail_seg(log_id);
        let ghost v = self.inner.spec_registry().loglet_view(seg.config);
        proof {
            let li = self.inner.metadata.spec_log_index(log_id).unwrap();
            let lastsi = self.inner.metadata.entries@[li].chain.segments@.len() - 1;
            assert(self.inner.seg_ok(self.inner.metadata.entries@[li].chain.segments@[lastsi]));
            let vv = self.inner.tail_view(log_id);
            assert(!self.inner.shutting_down);
            assert(self.inner.spec_knows_log(log_id));
            assert(self.inner.spec_registry().has_kind(self.inner.tail_seg(log_id).config.kind));
            assert(vv.find_tail() is Some);
            assert(vv.find_tail() == Some(vv.release_pointer()));
            assert(tail == self.inner.tail_seg(log_id).base_lsn.0 - 1 + vv.release_pointer());
            assert(tail <= u64::MAX - 1);
            if cond {
                crate::loglet::lemma_read_seq_continuity(v);
            }
        }
        let mut out: Vec<LogRecord> = Vec::new();
        let mut after: u64 = 0;
        while after < tail
            invariant
                self.wf(),
                self.inner.providers_published(),
                !self.inner.shutting_down,
                self.inner.spec_knows_log(log_id),
                cond == (!self.inner.shutting_down && self.single_headed(log_id)
                    && self.inner.spec_registry().has_kind(
                    self.inner.tail_seg(log_id).config.kind,
                )),
                seg == self.inner.tail_seg(log_id),
                v == self.inner.spec_registry().loglet_view(seg.config),
                cond ==> {
                    &&& tail == v.release_pointer()
                    &&& v.wf()
                    &&& after <= tail
                    &&& (after == 0 && v.trim_point > 0) ==> out@.len() == 0
                    &&& (v.trim_point == 0) ==> out@.len() == after
                    &&& (v.trim_point > 0 && after > 0) ==> (after >= v.trim_point && out@.len()
                        == 1 + after - v.trim_point)
                    &&& forall|i: int|
                        0 <= i < out@.len() ==> BifrostInner::lsn_item_matches(
                            seg,
                            #[trigger] v.read_seq()[i],
                            out@[i],
                        )
                },
                tail <= u64::MAX - 1,
            decreases u64::MAX - after,
        {
            proof {
                let li = self.inner.metadata.spec_log_index(log_id).unwrap();
                let chain = self.inner.spec_chain(log_id);
                crate::metadata::lemma_seg_index_for_lsn(chain.segments@, (after + 1) as u64);
                let si = seg_index_for_lsn(chain.segments@, (after + 1) as u64);
                assert(self.inner.seg_ok(self.inner.metadata.entries@[li].chain.segments@[si]));
            }
            match self.inner.read_next_single_opt(log_id, Lsn(after)) {
                Ok(Some(rec)) => {
                    match rec.record {
                        Record::TrimGap(gap) => {
                            proof {
                                if cond {
                                    assert(self.inner.spec_read_seg(log_id, after) == seg);
                                    assert(gap.until.0 == v.trim_point);
                                    assert(v.read_seq()[0] == (ReadItemView {
                                        offset: v.trim_point,
                                        payload: ReadPayloadView::Gap { until: v.trim_point },
                                    }));
                                }
                            }
                            let until = gap.until;
                            proof {
                                assert(until.0 > after);
                            }
                            out.push(LogRecord { offset: until, record: Record::TrimGap(gap) });
                            after = until.0;
                        },
                        Record::Data(payload) => {
                            proof {
                                if cond {
                                    assert(self.inner.spec_read_seg(log_id, after) == seg);
                                    assert(rec.offset.0 == after + 1);
                                    let k: int = if v.trim_point > 0 {
                                        1 + after - v.trim_point
                                    } else {
                                        after as int
                                    };
                                    assert(v.read_seq()[k] == (ReadItemView {
                                        offset: (after + 1) as nat,
                                        payload: ReadPayloadView::Data(v.records[after as int]),
                                    }));
                                }
                            }
                            let offset = rec.offset;
                            proof {
                                assert(offset.0 > after);
                            }
                            out.push(LogRecord { offset, record: Record::Data(payload) });
                            after = offset.0;
                        },
                    }
                },
                Ok(Option::None) => {
                    proof {
                        if cond {
                            assert(false);
                        }
                    }
                    return Ok(out);
                },
                Err(e) => {
                    return Err(e);
                },
            }
        }
        proof {
            if cond {
                assert(out@.len() == v.read_seq().len());
            }
        }
        Ok(out)
    }
}


/// A lazy, pull-based sequence of records over `(after, until]`. Between
/// records it re-resolves the serving segment for the next position, so it
/// naturally crosses segment boundaries. Crossing a trimmed prefix yields
/// one gap record, then reading continues directly past the gap. A reader
/// that caught up with the tail yields nothing until more is committed; it
/// terminates once `until` is passed.
#[derive(Clone, Copy, Debug, PartialEq, Eq, Structural)]
pub struct LogReadStream {
    pub log_id: LogId,
    /// Records at or below this position were already yielded.
    pub after: u64,
    /// The last position this stream will yield, inclusive.
    pub until: u64,
}

impl LogReadStream {
    /// Pull the next record. Yields `None` once `until` is passed, and
    /// `None` while nothing past `after` is committed yet.
    pub fn next(&mut self, bifrost: &Bifrost) -> (r: Result<Option<LogRecord>, Error>)
        requires
            bifrost.wf(),
            old(self).after < u64::MAX,
        ensures
            final(self).log_id == old(self).log_id,
            final(self).until == old(self).until,
            old(self).after >= old(self).until ==> r == Ok::<Option<LogRecord>, Error>(
                Option::None,
            ) && *final(self) == *old(self),
            bifrost.inner.shutting_down && old(self).after < old(self).until ==> r == Err::<
                Option<LogRecord>,
                Error,
            >(Error::Shutdown),
            !bifrost.inner.shutting_down && old(self).after < old(self).until
                && !bifrost.inner.spec_knows_log(old(self).log_id) ==> r == Err::<
                Option<LogRecord>,
                Error,
            >(Error::UnknownLogId(old(self).log_id)),
            !bifrost.inner.shutting_down && old(self).after < old(self).until
                && bifrost.inner.spec_knows_log(old(self).log_id)
                && bifrost.inner.spec_registry().has_kind(
                bifrost.inner.spec_read_seg(old(self).log_id, old(self).after).config.kind,
            ) ==> {
                let seg = bifrost.inner.spec_read_seg(old(self).log_id, old(self).after);
                let v = bifrost.inner.spec_registry().loglet_view(seg.config);
                match v.read_next(BifrostInner::spec_local_after(seg, old(self).after) as nat) {
                    Option::None => r == Ok::<Option<LogRecord>, Error>(Option::None) && *final(self)
                        == *old(self),
                    Some(item) => match item.payload {
                        ReadPayloadView::Data(bytes) => if spec_decode_payload(bytes) is Some {
                            match r {
                                Ok(Some(rec)) => BifrostInner::lsn_item_matches(seg, item, rec)
                                    && rec.offset.0 > old(self).after && final(self).after
                                    == rec.offset.0,
                                _ => false,
                            }
                        } else {
                            r == Err::<Option<LogRecord>, Error>(Error::LogletError)
                        },
                        ReadPayloadView::Gap { until } => match r {
                            Ok(Some(rec)) => BifrostInner::lsn_item_matches(seg, item, rec)
                                && rec.offset.0 > old(self).after && final(self).after == (
                            seg.base_lsn.0 - 1 + until) as u64 && final(self).after
                                >= rec.offset.0,
                            _ => false,
                        },
                    },
                }
            },
    {
        if self.after >= self.until {
            return Ok(Option::None);
        }
        let ghost pre_after = self.after;
        proof {
            if !bifrost.inner.shutting_down && bifrost.inner.spec_knows_log(self.log_id) {
                let li = bifrost.inner.metadata.spec_log_index(self.log_id).unwrap();
                let chain = bifrost.inner.spec_chain(self.log_id);
                crate::metadata::lemma_seg_index_for_lsn(
                    chain.segments@,
                    (pre_after + 1) as u64,
                );
                let si = seg_index_for_lsn(chain.segments@, (pre_after + 1) as u64);
                assert(bifrost.inner.seg_ok(
                    bifrost.inner.metadata.entries@[li].chain.segments@[si],
                ));
            }
        }
        match bifrost.inner.read_next_single_opt(self.log_id, Lsn(self.after)) {
            Ok(Some(rec)) => {
                match &rec.record {
                    Record::TrimGap(gap) => {
                        self.after = gap.until.0;
                    },
                    Record::Data(_) => {
                        self.after = rec.offset.0;
                    },
                }
                Ok(Some(rec))
            },
            Ok(Option::None) => Ok(Option::None),
            Err(e) => Err(e),
        }
    }
}

} // verus!
