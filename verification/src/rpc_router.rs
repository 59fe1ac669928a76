//! The RPC correlation router: request/response over a one-way message bus.
//!
//! A caller obtains a token for its correlation id — refused when the id is
//! already in flight, duplicates are caller errors and never replace an
//! entry. An incoming message whose id matches an in-flight entry removes
//! the entry and is delivered to the token; an unmatched message is handed
//! back for fallback handling. Receiving, abandoning, or cancelling a token
//! leaves no entry behind: the tracker never leaks.
//!
//! The in-flight table is a concurrent map shared with the message handler;
//! its contents are axiomatized as a mathematical map.

use vstd::prelude::*;

use dashmap::DashMap;

verus! {

/// The concurrent map type of the in-flight table.
#[verifier::external_type_specification]
#[verifier::external_body]
#[verifier::reject_recursive_types(K)]
#[verifier::reject_recursive_types(V)]
#[verifier::reject_recursive_types(S)]
pub struct ExDashMap<K, V, S>(DashMap<K, V, S>);

/// What the in-flight table holds: each in-flight correlation id, mapped to
/// the delivery slot of its token.
pub uninterp spec fn dash_contents(m: DashMap<u64, u64>) -> Map<u64, u64>;

/// Relies on dashmap::DashMap::new. Nothing is assumed of the fresh map;
/// it is cleared before use.
#[verifier::external_body]
fn dash_new() -> (r: DashMap<u64, u64>) {
    DashMap::new()
}

/// Relies on dashmap::DashMap::clear: removes every entry.
#[verifier::external_body]
fn dash_clear(m: &mut DashMap<u64, u64>)
    ensures
        dash_contents(*final(m)) == dash_contents(*old(m)).remove_keys(
            dash_contents(*old(m)).dom(),
        ),
        dash_contents(*final(m)).dom() == Set::<u64>::empty(),
{
    m.clear()
}

/// Relies on dashmap::DashMap::len: the number of entries in the map.
#[verifier::external_body]
fn dash_len(m: &DashMap<u64, u64>) -> (n: usize)
    ensures
        dash_contents(*m).dom().finite() ==> n == dash_contents(*m).dom().len(),
{
    m.len()
}

/// Relies on dashmap::DashMap::contains_key: whether the key has an entry.
#[verifier::external_body]
fn dash_contains(m: &DashMap<u64, u64>, key: u64) -> (r: bool)
    ensures
        r == dash_contents(*m).dom().contains(key),
{
    m.contains_key(&key)
}

/// Relies on dashmap::DashMap::insert: maps the key to the value and
/// returns the value it replaced, if any.
#[verifier::external_body]
fn dash_insert(m: &mut DashMap<u64, u64>, key: u64, value: u64) -> (r: Option<u64>)
    ensures
        dash_contents(*final(m)) == dash_contents(*old(m)).insert(key, value),
        r == if dash_contents(*old(m)).dom().contains(key) {
            Some(dash_contents(*old(m))[key])
        } else {
            Option::<u64>::None
        },
{
    m.insert(key, value)
}

/// Relies on dashmap::DashMap::remove: removes the key's entry and returns
/// it, if one existed.
#[verifier::external_body]
fn dash_remove(m: &mut DashMap<u64, u64>, key: u64) -> (r: Option<(u64, u64)>)
    ensures
        dash_contents(*final(m)) == dash_contents(*old(m)).remove(key),
        r == if dash_contents(*old(m)).dom().contains(key) {
            Some((key, dash_contents(*old(m))[key]))
        } else {
            Option::<(u64, u64)>::None
        },
{
    m.remove(&key)
}

/// The error surface of an RPC call.
#[derive(Clone, Copy, Debug, PartialEq, Eq, Structural)]
pub enum RpcError {
    /// The correlation id is already in flight: a caller error.
    CorrelationIdExists(u64),
    /// The message could not be sent.
    SendError,
    /// The process is draining.
    Shutdown,
}

/// The caller-side handle of one in-flight request.
#[derive(Debug)]
pub struct RpcToken {
    pub correlation_id: u64,
    pub slot: u64,
}

impl RpcToken {
    /// The correlation id this token awaits.
    pub fn correlation_id(&self) -> (r: u64)
        ensures
            r == self.correlation_id,
    {
        self.correlation_id
    }
}

/// What one step of waiting on a token yields.
pub enum RecvOutcome<M> {
    /// The response arrived; the in-flight entry was already removed on
    /// delivery, nothing is left behind.
    Received(M),
    /// Cancellation won the race; the entry was cleaned up.
    Shutdown,
    /// Nothing yet: the token is handed back and the caller retries.
    Pending(RpcToken),
}

/// The tracker of in-flight requests: the concurrent correlation-id table,
/// plus the delivered responses awaiting their tokens.
pub struct ResponseTracker<M> {
    in_flight: DashMap<u64, u64>,
    delivered: Vec<(u64, M)>,
    next_slot: u64,
}

impl<M> ResponseTracker<M> {
    /// The set of in-flight correlation ids.
    pub open spec fn in_flight_ids(&self) -> Set<u64> {
        self.in_flight_map().dom()
    }

    /// The in-flight table: correlation id to delivery slot.
    pub closed spec fn in_flight_map(&self) -> Map<u64, u64> {
        dash_contents(self.in_flight)
    }

    /// The delivered responses, keyed by delivery slot.
    pub closed spec fn delivered_view(&self) -> Seq<(u64, M)> {
        self.delivered@
    }

    pub open spec fn wf(&self) -> bool {
        self.in_flight_ids().finite()
    }

    /// How many requests are in flight.
    pub fn num_in_flight(&self) -> (n: usize)
        requires
            self.wf(),
        ensures
            n == self.in_flight_ids().len(),
    {
        dash_len(&self.in_flight)
    }

    /// Attempt to register a request: returns the token, or nothing when an
    /// in-flight request already holds the same correlation id — the
    /// existing entry is never replaced.
    pub fn new_token(&mut self, correlation_id: u64) -> (r: Option<RpcToken>)
        requires
            old(self).wf(),
            old(self).next_slot_view() < u64::MAX,
        ensures
            final(self).wf(),
            old(self).in_flight_ids().contains(correlation_id) ==> r is None && final(self).in_flight_map() == old(self).in_flight_map() && final(self).delivered_view() == old(self).delivered_view(),
            !old(self).in_flight_ids().contains(correlation_id) ==> match r {
                Some(token) => {
                    &&& token.correlation_id == correlation_id
                    &&& token.slot == old(self).next_slot_view()
                    &&& final(self).in_flight_map() == old(self).in_flight_map().insert(
                        correlation_id,
                        old(self).next_slot_view(),
                    )
                    &&& final(self).delivered_view() == old(self).delivered_view()
                    &&& final(self).next_slot_view() == old(self).next_slot_view() + 1
                },
                Option::None => false,
            },
    {
        if dash_contains(&self.in_flight, correlation_id) {
            return Option::None;
        }
        let slot = self.next_slot;
        let _existing = dash_insert(&mut self.in_flight, correlation_id, slot);
        self.next_slot = slot + 1;
        Some(RpcToken { correlation_id, slot })
    }

    /// Register a request under the default correlation id.
    pub fn generate_token(&mut self) -> (r: Option<RpcToken>)
        requires
            old(self).wf(),
            old(self).next_slot_view() < u64::MAX,
        ensures
            final(self).wf(),
            old(self).in_flight_ids().contains(0u64) ==> r is None && final(self).in_flight_map()
                == old(self).in_flight_map() && final(self).delivered_view() == old(self).delivered_view(),
            !old(self).in_flight_ids().contains(0u64) ==> match r {
                Some(token) => {
                    &&& token.correlation_id == 0u64
                    &&& token.slot == old(self).next_slot_view()
                    &&& final(self).in_flight_map() == old(self).in_flight_map().insert(
                        0u64,
                        old(self).next_slot_view(),
                    )
                    &&& final(self).delivered_view() == old(self).delivered_view()
                    &&& final(self).next_slot_view() == old(self).next_slot_view() + 1
                },
                Option::None => false,
            },
    {
        self.new_token(0)
    }

    /// Handle an incoming message: a matching in-flight entry is removed
    /// and the message delivered to its token's slot; an unmatched message
    /// is handed back to the caller.
    pub fn handle_message(&mut self, correlation_id: u64, message: M) -> (r: Option<M>)
        requires
            old(self).wf(),
        ensures
            final(self).wf(),
            final(self).next_slot_view() == old(self).next_slot_view(),
            old(self).in_flight_ids().contains(correlation_id) ==> {
                &&& r is None
                &&& final(self).in_flight_map() == old(self).in_flight_map().remove(correlation_id)
                &&& final(self).delivered_view() == old(self).delivered_view().push(
                    (old(self).in_flight_map()[correlation_id], message),
                )
            },
            !old(self).in_flight_ids().contains(correlation_id) ==> match r {
                Some(m) => m == message && final(self).in_flight_map() == old(self).in_flight_map()
                    && final(self).delivered_view() == old(self).delivered_view(),
                Option::None => false,
            },
    {
        match dash_remove(&mut self.in_flight, correlation_id) {
            Some((_cid, slot)) => {
                self.delivered.push((slot, message));
                Option::None
            },
            Option::None => Some(message),
        }
    }

    /// Drop a token without receiving: the in-flight entry, where it is
    /// still this token's, and any undelivered response are removed; a late
    /// response is then unmatched and handed back harmlessly.
    pub fn abandon(&mut self, token: RpcToken)
        requires
            old(self).wf(),
        ensures
            final(self).wf(),
            final(self).next_slot_view() == old(self).next_slot_view(),
            final(self).in_flight_map() == if old(self).in_flight_map().contains_pair(
                token.correlation_id,
                token.slot,
            ) {
                old(self).in_flight_map().remove(token.correlation_id)
            } else {
                old(self).in_flight_map()
            },
            final(self).delivered_view() == old(self).delivered_view().filter(
                |e: (u64, M)| e.0 != token.slot,
            ),
            !final(self).in_flight_map().contains_pair(token.correlation_id, token.slot),
    {
        let ghost pre = *self;
        if dash_contains(&self.in_flight, token.correlation_id) {
            match dash_remove(&mut self.in_flight, token.correlation_id) {
                Some((_cid, slot)) => {
                    if slot != token.slot {
                        // Another token's entry under a reissued id: restore it.
                        dash_insert(&mut self.in_flight, token.correlation_id, slot);
                        proof {
                            assert(self.in_flight_map() =~= pre.in_flight_map());
                        }
                    }
                },
                Option::None => {
                },
            }
        }
        self.remove_delivered(token.slot);
    }

    /// Remove every delivered response of one slot.
    fn remove_delivered(&mut self, slot: u64)
        requires
            old(self).wf(),
        ensures
            final(self).wf(),
            final(self).in_flight_map() == old(self).in_flight_map(),
            final(self).next_slot_view() == old(self).next_slot_view(),
            final(self).delivered_view() == old(self).delivered_view().filter(
                |e: (u64, M)| e.0 != slot,
            ),
    {
        let ghost keep = |e: (u64, M)| e.0 != slot;
        let mut kept: Vec<(u64, M)> = Vec::new();
        let ghost pre = old(self).delivered@;
        while self.delivered.len() > 0
            invariant
                keep == (|e: (u64, M)| e.0 != slot),
                pre == old(self).delivered@,
                self.in_flight == old(self).in_flight,
                self.next_slot == old(self).next_slot_view(),
                self.delivered@.len() <= pre.len(),
                kept@ == pre.take(pre.len() - self.delivered@.len()).filter(keep),
                self.delivered@ == pre.skip(pre.len() - self.delivered@.len()),
            decreases self.delivered@.len(),
        {
            let ghost done: int = pre.len() - self.delivered@.len();
            let entry = self.delivered.remove(0);
            proof {
                reveal(Seq::filter);
                assert(0 <= done);
                assert(done + 1 <= pre.len());
                assert(pre.skip(done)[0] == entry);
                assert(pre.take(done + 1).len() == done + 1);
                assert(forall|k: int| 0 <= k < done + 1 ==> #[trigger] pre.take(done + 1)[k] == pre[k]);
                assert(pre.take(done + 1).drop_last() =~= pre.take(done));
                assert(pre.take(done + 1).last() == pre[done]);
                assert(pre[done] == entry);
                assert(self.delivered@ =~= pre.skip(done + 1));
            }
            if entry.0 != slot {
                kept.push(entry);
            }
            proof {
                assert(kept@ =~= pre.take(done + 1).filter(keep));
            }
        }
        proof {
            assert(pre.take(pre.len() as int) =~= pre);
            assert(kept@ == pre.filter(keep));
            assert(pre.filter(keep) == pre.filter(|e: (u64, M)| e.0 != slot));
        }
        self.delivered = kept;
    }

    /// Find and remove the delivered response of one slot, if any.
    fn take_delivered(&mut self, slot: u64) -> (r: Option<M>)
        requires
            old(self).wf(),
        ensures
            final(self).wf(),
            final(self).in_flight_map() == old(self).in_flight_map(),
            final(self).next_slot_view() == old(self).next_slot_view(),
            match r {
                Some(m) => exists|i: int|
                    {
                        &&& 0 <= i < old(self).delivered_view().len()
                        &&& #[trigger] old(self).delivered_view()[i] == (slot, m)
                        &&& final(self).delivered_view() == old(self).delivered_view().remove(i)
                    },
                Option::None => final(self).delivered_view() == old(self).delivered_view()
                    && forall|i: int|
                    0 <= i < old(self).delivered_view().len() ==> (
                    #[trigger] old(self).delivered_view()[i]).0 != slot,
            },
    {
        let mut i: usize = 0;
        while i < self.delivered.len()
            invariant
                old(self).wf(),
                *self == *old(self),
                i <= self.delivered@.len(),
                forall|j: int| 0 <= j < i ==> (#[trigger] self.delivered@[j]).0 != slot,
            decreases self.delivered@.len() - i,
        {
            if self.delivered[i].0 == slot {
                let ghost gi = i as int;
                let entry = self.delivered.remove(i);
                proof {
                    assert(old(self).delivered_view()[gi] == entry);
                    assert(entry == (entry.0, entry.1));
                    assert(old(self).delivered_view()[gi] == (slot, entry.1));
                    assert(self.delivered@ == old(self).delivered@.remove(gi));
                    assert(self.in_flight == old(self).in_flight);
                }
                return Some(entry.1);
            }
            i = i + 1;
        }
        Option::None
    }
}

impl RpcToken {
    /// Await the response. Cancellation-safe: if cancellation won, the
    /// tracker is cleaned up and `Shutdown` returned; on a successful
    /// receive nothing is left behind, because delivery already removed the
    /// in-flight entry; otherwise the token is handed back for the next
    /// poll.
    pub fn recv<M>(self, tracker: &mut ResponseTracker<M>, cancelled: bool) -> (r: RecvOutcome<M>)
        requires
            old(tracker).wf(),
        ensures
            final(tracker).wf(),
            final(tracker).next_slot_view() == old(tracker).next_slot_view(),
            cancelled ==> (r is Shutdown && final(tracker).in_flight_map() == (
            if old(tracker).in_flight_map().contains_pair(self.correlation_id, self.slot) {
                old(tracker).in_flight_map().remove(self.correlation_id)
            } else {
                old(tracker).in_flight_map()
            }) && !final(tracker).in_flight_map().contains_pair(self.correlation_id, self.slot)),
            !cancelled ==> final(tracker).in_flight_map() == old(tracker).in_flight_map(),
            !cancelled ==> match r {
                RecvOutcome::Received(m) => exists|i: int|
                    {
                        &&& 0 <= i < old(tracker).delivered_view().len()
                        &&& #[trigger] old(tracker).delivered_view()[i] == (self.slot, m)
                        &&& final(tracker).delivered_view() == old(tracker).delivered_view().remove(i)
                    },
                RecvOutcome::Pending(token) => token.correlation_id == self.correlation_id
                    && token.slot == self.slot && final(tracker).delivered_view() == old(tracker).delivered_view()
                    && forall|i: int|
                    0 <= i < old(tracker).delivered_view().len() ==> (
                    #[trigger] old(tracker).delivered_view()[i]).0 != self.slot,
                RecvOutcome::Shutdown => false,
            },
    {
        if cancelled {
            tracker.abandon(self);
            return RecvOutcome::Shutdown;
        }
        match tracker.take_delivered(self.slot) {
            Some(message) => RecvOutcome::Received(message),
            Option::None => RecvOutcome::Pending(self),
        }
    }
}

/// A tracker that drives an incoming message stream itself: messages that
/// match an in-flight request are delivered to their tokens, the rest are
/// surfaced to the owner.
pub struct StreamingResponseTracker<M> {
    pub flight_tracker: ResponseTracker<M>,
    /// The messages not yet taken from the stream, oldest first, each with
    /// its correlation id.
    pub incoming_messages: Vec<(u64, M)>,
}

impl<M> StreamingResponseTracker<M> {
    pub open spec fn wf(&self) -> bool {
        self.flight_tracker.wf()
    }

    pub fn new(incoming_messages: Vec<(u64, M)>) -> (r: Self)
        ensures
            r.wf(),
            r.flight_tracker.in_flight_map() == Map::<u64, u64>::empty(),
            r.incoming_messages@ == incoming_messages@,
    {
        StreamingResponseTracker { flight_tracker: ResponseTracker::new(), incoming_messages }
    }

    /// Register a request; refused when the id is in flight.
    pub fn new_token(&mut self, correlation_id: u64) -> (r: Option<RpcToken>)
        requires
            old(self).wf(),
            old(self).flight_tracker.next_slot_view() < u64::MAX,
        ensures
            final(self).wf(),
            final(self).incoming_messages@ == old(self).incoming_messages@,
            old(self).flight_tracker.in_flight_ids().contains(correlation_id) ==> r is None
                && final(self).flight_tracker.in_flight_map() == old(self).flight_tracker.in_flight_map() && final(self).flight_tracker.delivered_view() == old(self).flight_tracker.delivered_view(),
            !old(self).flight_tracker.in_flight_ids().contains(correlation_id) ==> match r {
                Some(token) => {
                    &&& token.correlation_id == correlation_id
                    &&& token.slot == old(self).flight_tracker.next_slot_view()
                    &&& final(self).flight_tracker.in_flight_map() == old(self).flight_tracker.in_flight_map().insert(
                        correlation_id,
                        old(self).flight_tracker.next_slot_view(),
                    )
                    &&& final(self).flight_tracker.delivered_view() == old(self).flight_tracker.delivered_view()
                    &&& final(self).flight_tracker.next_slot_view() == old(self).flight_tracker.next_slot_view() + 1
                },
                Option::None => false,
            },
    {
        self.flight_tracker.new_token(correlation_id)
    }

    /// Register a request under the default correlation id.
    pub fn generate_token(&mut self) -> (r: Option<RpcToken>)
        requires
            old(self).wf(),
            old(self).flight_tracker.next_slot_view() < u64::MAX,
        ensures
            final(self).wf(),
            final(self).incoming_messages@ == old(self).incoming_messages@,
            old(self).flight_tracker.in_flight_ids().contains(0u64) ==> r is None && final(self).flight_tracker.in_flight_map() == old(self).flight_tracker.in_flight_map() && final(self).flight_tracker.delivered_view() == old(self).flight_tracker.delivered_view(),
            !old(self).flight_tracker.in_flight_ids().contains(0u64) ==> match r {
                Some(token) => {
                    &&& token.correlation_id == 0u64
                    &&& token.slot == old(self).flight_tracker.next_slot_view()
                    &&& final(self).flight_tracker.in_flight_map() == old(self).flight_tracker.in_flight_map().insert(
                        0u64,
                        old(self).flight_tracker.next_slot_view(),
                    )
                    &&& final(self).flight_tracker.delivered_view() == old(self).flight_tracker.delivered_view()
                    &&& final(self).flight_tracker.next_slot_view() == old(self).flight_tracker.next_slot_view() + 1
                },
                Option::None => false,
            },
    {
        self.flight_tracker.generate_token()
    }

    /// Handle the next incoming message: it is returned if no correlated
    /// request is in flight, otherwise it is delivered to the matching
    /// token. Yields nothing when cancelled or when the stream is drained.
    pub fn handle_next_or_get(&mut self, cancelled: bool) -> (r: Option<(u64, M)>)
        requires
            old(self).wf(),
        ensures
            final(self).wf(),
            cancelled ==> r is None && *final(self) == *old(self),
            !cancelled && old(self).incoming_messages@.len() == 0 ==> r is None && *final(self)
                == *old(self),
            !cancelled && old(self).incoming_messages@.len() > 0 ==> {
                let head = old(self).incoming_messages@[0];
                &&& final(self).incoming_messages@ == old(self).incoming_messages@.drop_first()
                &&& old(self).flight_tracker.in_flight_ids().contains(head.0) ==> r is None
                    && final(self).flight_tracker.in_flight_map() == old(self).flight_tracker.in_flight_map().remove(head.0)
                &&& !old(self).flight_tracker.in_flight_ids().contains(head.0) ==> match r {
                    Some(e) => e == head && final(self).flight_tracker.in_flight_map() == old(self).flight_tracker.in_flight_map(),
                    Option::None => false,
                }
            },
    {
        if cancelled {
            return Option::None;
        }
        if self.incoming_messages.len() == 0 {
            return Option::None;
        }
        let (correlation_id, message) = self.incoming_messages.remove(0);
        match self.flight_tracker.handle_message(correlation_id, message) {
            Some(m) => Some((correlation_id, m)),
            Option::None => Option::None,
        }
    }
}

impl<M> ResponseTracker<M> {
    /// The next delivery slot to hand out.
    pub closed spec fn next_slot_view(&self) -> u64 {
        self.next_slot
    }

    /// A fresh tracker with nothing in flight.
    pub fn new() -> (r: Self)
        ensures
            r.wf(),
            r.in_flight_map() == Map::<u64, u64>::empty(),
            r.delivered_view() == Seq::<(u64, M)>::empty(),
            r.next_slot_view() == 0,
    {
        let mut in_flight = dash_new();
        dash_clear(&mut in_flight);
        ResponseTracker { in_flight, delivered: Vec::new(), next_slot: 0 }
    }
}

impl<M> Default for ResponseTracker<M> {
    /// A fresh tracker with nothing in flight.
    fn default() -> (r: Self)
        ensures
            r.wf(),
            r.in_flight_map() == Map::<u64, u64>::empty(),
            r.delivered_view() == Seq::<(u64, M)>::empty(),
    {
        ResponseTracker::new()
    }
}

/// The in-flight ids after registering a run of requests.
pub open spec fn ids_after_inserts(s: Set<u64>, cids: Seq<u64>) -> Set<u64>
    decreases cids.len(),
{
    if cids.len() == 0 {
        s
    } else {
        ids_after_inserts(s.insert(cids[0]), cids.drop_first())
    }
}

/// The in-flight ids after every one of a run of requests was delivered,
/// dropped, or cancelled.
pub open spec fn ids_after_removes(s: Set<u64>, cids: Seq<u64>) -> Set<u64>
    decreases cids.len(),
{
    if cids.len() == 0 {
        s
    } else {
        ids_after_removes(s.remove(cids[0]), cids.drop_first())
    }
}

/// Registering a run of ids adds exactly those ids.
pub proof fn lemma_ids_after_inserts(s: Set<u64>, cids: Seq<u64>)
    ensures
        ids_after_inserts(s, cids) == s + cids.to_set(),
    decreases cids.len(),
{
    if cids.len() == 0 {
        assert(cids.to_set() =~= Set::<u64>::empty());
        assert(ids_after_inserts(s, cids) =~= s + cids.to_set());
    } else {
        lemma_ids_after_inserts(s.insert(cids[0]), cids.drop_first());
        assert forall|x: u64| cids.to_set().contains(x) implies (s.insert(cids[0])
            + cids.drop_first().to_set()).contains(x) || x == cids[0] by {
            let i = choose|i: int| 0 <= i < cids.len() && cids[i] == x;
            if i > 0 {
                assert(cids.drop_first()[i - 1] == x);
            }
        }
        assert forall|x: u64| cids.drop_first().to_set().contains(x) implies cids.to_set().contains(
            x,
        ) by {
            let i = choose|i: int| 0 <= i < cids.drop_first().len() && cids.drop_first()[i] == x;
            assert(cids[i + 1] == x);
        }
        assert(cids.to_set().contains(cids[0]));
        assert(s.insert(cids[0]) + cids.drop_first().to_set() =~= s + cids.to_set());
    }
}

/// Ending a run of ids takes away at least those ids.
pub proof fn lemma_ids_after_removes(s: Set<u64>, cids: Seq<u64>)
    ensures
        ids_after_removes(s, cids).subset_of(s),
        forall|x: u64| cids.to_set().contains(x) ==> !ids_after_removes(s, cids).contains(x),
    decreases cids.len(),
{
    if cids.len() > 0 {
        lemma_ids_after_removes(s.remove(cids[0]), cids.drop_first());
        assert forall|x: u64| cids.to_set().contains(x) implies !ids_after_removes(
            s,
            cids,
        ).contains(x) by {
            let i = choose|i: int| 0 <= i < cids.len() && cids[i] == x;
            if i > 0 {
                assert(cids.drop_first()[i - 1] == x);
                assert(cids.drop_first().to_set().contains(x));
            } else {
                assert(!s.remove(cids[0]).contains(x));
            }
        }
    }
}

/// Law: the tracker is leak-free. For any run of token registrations, once
/// every registered id was delivered, dropped, or cancelled — each of which
/// removes the id, as the contracts of [`ResponseTracker::handle_message`],
/// [`ResponseTracker::abandon`] and [`RpcToken::recv`] state — nothing is
/// in flight any more.
pub proof fn lemma_tracker_leakproof(cids: Seq<u64>)
    ensures
        ids_after_removes(ids_after_inserts(Set::<u64>::empty(), cids), cids) =~= Set::<
            u64,
        >::empty(),
{
    lemma_ids_after_inserts(Set::<u64>::empty(), cids);
    lemma_ids_after_removes(ids_after_inserts(Set::<u64>::empty(), cids), cids);
    let leftover = ids_after_removes(ids_after_inserts(Set::<u64>::empty(), cids), cids);
    assert forall|x: u64| !leftover.contains(x) by {
        if leftover.contains(x) {
            assert((Set::<u64>::empty() + cids.to_set()).contains(x));
            assert(cids.to_set().contains(x));
        }
    }
}

} // verus!
