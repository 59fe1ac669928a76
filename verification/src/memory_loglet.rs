//! The in-memory loglet: the loglet contract over in-process storage.
//!
//! Appends are durable the moment they return, so the release pointer always
//! equals the number of stored records. The provider can be configured with
//! an initialization delay so that callers exercising lazy loglet creation
//! see appends queue behind the delay rather than fail.

use vstd::prelude::*;

use crate::loglet::LogletView;
use crate::loglet::ReadItemView;
use crate::loglet::ReadPayloadView;

verus! {

/// What one read yields: stored bytes, or a gap left by trimming.
#[derive(Clone, Debug)]
pub enum LogletPayload {
    Data(Vec<u8>),
    Gap { until: u64 },
}

impl LogletPayload {
    pub open spec fn view(self) -> ReadPayloadView {
        match self {
            LogletPayload::Data(bytes) => ReadPayloadView::Data(bytes@),
            LogletPayload::Gap { until } => ReadPayloadView::Gap { until: until as nat },
        }
    }
}

/// A read result: a loglet-local offset and what stands there.
#[derive(Clone, Debug)]
pub struct LogletReadItem {
    pub offset: u64,
    pub payload: LogletPayload,
}

impl LogletReadItem {
    pub open spec fn view(self) -> ReadItemView {
        ReadItemView { offset: self.offset as nat, payload: self.payload.view() }
    }
}

/// One in-memory loglet: its records and its trim point.
#[derive(Clone, Debug)]
pub struct MemoryLoglet {
    /// The loglet parameters this loglet was materialized for.
    pub params_id: u64,
    /// Record at 1-based offset `o` is `records[o - 1]`.
    pub records: Vec<Vec<u8>>,
    /// Highest trimmed offset; `0` when nothing was trimmed.
    pub trim_point: u64,
}

impl MemoryLoglet {
    /// The abstract state this loglet presents.
    pub open spec fn view(self) -> LogletView {
        LogletView {
            records: self.records@.map_values(|r: Vec<u8>| r@),
            trim_point: self.trim_point as nat,
        }
    }

    pub open spec fn wf(self) -> bool {
        &&& self.view().wf()
        &&& self.records@.len() < u64::MAX
    }

    /// An empty loglet for the given parameters.
    pub fn open(params_id: u64) -> (r: Self)
        ensures
            r.wf(),
            r.view() == LogletView::empty(),
            r.params_id == params_id,
    {
        let r = MemoryLoglet { params_id, records: Vec::new(), trim_point: 0 };
        proof {
            assert(r.view().records =~= Seq::<Seq<u8>>::empty());
            assert(r.view() =~= LogletView::empty());
        }
        r
    }

    /// Append one record; it is immediately durable and readable. Returns
    /// the offset it was stored at: directly after the previous tail.
    pub fn append(&mut self, bytes: Vec<u8>) -> (offset: u64)
        requires
            old(self).wf(),
            old(self).records@.len() + 1 < u64::MAX,
        ensures
            final(self).wf(),
            final(self).params_id == old(self).params_id,
            final(self).view() == old(self).view().after_append(bytes@),
            offset == old(self).view().release_pointer() + 1,
    {
        let ghost prior = self.view();
        let ghost pushed = bytes@;
        let offset = self.records.len() as u64 + 1;
        self.records.push(bytes);
        proof {
            assert(self.view().records =~= prior.records.push(pushed));
            assert(self.view() =~= prior.after_append(pushed));
        }
        offset
    }

    /// The readable tail, if any record is readable.
    pub fn find_tail(&self) -> (r: Option<u64>)
        requires
            self.wf(),
        ensures
            match r {
                Some(tail) => self.view().find_tail() == Some(tail as nat),
                Option::None => self.view().find_tail() is None,
            },
    {
        if self.records.len() as u64 > self.trim_point {
            Some(self.records.len() as u64)
        } else {
            Option::None
        }
    }

    /// The trim point, if anything was ever trimmed.
    pub fn get_trim_point(&self) -> (r: Option<u64>)
        requires
            self.wf(),
        ensures
            match r {
                Some(t) => self.view().get_trim_point() == Some(t as nat),
                Option::None => self.view().get_trim_point() is None,
            },
    {
        if self.trim_point > 0 {
            Some(self.trim_point)
        } else {
            Option::None
        }
    }

    /// Trim up to `t`, clamped by the release pointer; the trim point never
    /// moves backwards.
    pub fn trim(&mut self, t: u64)
        requires
            old(self).wf(),
        ensures
            final(self).wf(),
            final(self).params_id == old(self).params_id,
            final(self).view() == old(self).view().after_trim(t as nat),
    {
        let release = self.records.len() as u64;
        let clamped = if t <= release {
            t
        } else {
            release
        };
        if clamped > self.trim_point {
            self.trim_point = clamped;
        }
        proof {
            assert(self.view() =~= old(self).view().after_trim(t as nat));
        }
    }

    /// Read the next record after offset `after`: a gap while `after` lies
    /// below the trim point, data up to the release pointer, nothing past it.
    pub fn read_next_single_opt(&self, after: u64) -> (r: Option<LogletReadItem>)
        requires
            self.wf(),
        ensures
            match r {
                Some(item) => self.view().read_next(after as nat) == Some(item.view()),
                Option::None => self.view().read_next(after as nat) is None,
            },
    {
        if after < self.trim_point {
            Some(
                LogletReadItem {
                    offset: after + 1,
                    payload: LogletPayload::Gap { until: self.trim_point },
                },
            )
        } else if after < self.records.len() as u64 {
            let bytes = self.records[after as usize].clone();
            proof {
                assert(self.view().records[after as int] == self.records@[after as int]@);
            }
            Some(LogletReadItem { offset: after + 1, payload: LogletPayload::Data(bytes) })
        } else {
            Option::None
        }
    }
}

/// The in-memory loglet provider: materializes a loglet lazily on first
/// reference for its parameters and caches it. A configurable
/// initialization delay (in ticks, applied by the driver) exercises lazy
/// creation under concurrent appends: appends queue behind the delay, they
/// do not fail.
#[derive(Clone, Debug)]
pub struct MemoryLogletProvider {
    pub loglets: Vec<MemoryLoglet>,
    pub init_delay_ticks: u64,
}

impl MemoryLogletProvider {
    /// Loglet parameters are unique within the provider and every loglet is
    /// well formed.
    pub open spec fn wf(self) -> bool {
        &&& forall|i: int, j: int|
            #![trigger self.loglets@[i].params_id, self.loglets@[j].params_id]
            0 <= i < j < self.loglets@.len() ==> self.loglets@[i].params_id
                != self.loglets@[j].params_id
        &&& forall|i: int| 0 <= i < self.loglets@.len() ==> (#[trigger] self.loglets@[i]).wf()
    }

    /// Whether a loglet for `params_id` was materialized.
    pub open spec fn has_loglet(self, params_id: u64) -> bool {
        exists|i: int| 0 <= i < self.loglets@.len() && self.loglets@[i].params_id == params_id
    }

    /// The abstract state of the loglet for `params_id`. A loglet that was
    /// never materialized is empty; materializing it changes nothing
    /// abstractly.
    pub open spec fn loglet_view(self, params_id: u64) -> LogletView {
        if self.has_loglet(params_id) {
            self.loglets@[self.spec_index_of(params_id)].view()
        } else {
            LogletView::empty()
        }
    }

    pub open spec fn spec_index_of(self, params_id: u64) -> int {
        choose|i: int| 0 <= i < self.loglets@.len() && self.loglets@[i].params_id == params_id
    }

    /// The loglet at a position with matching parameters is the one the view
    /// speaks of.
    pub proof fn lemma_view_at(self, i: int)
        requires
            self.wf(),
            0 <= i < self.loglets@.len(),
        ensures
            self.has_loglet(self.loglets@[i].params_id),
            self.spec_index_of(self.loglets@[i].params_id) == i,
            self.loglet_view(self.loglets@[i].params_id) == self.loglets@[i].view(),
    {
        let id = self.loglets@[i].params_id;
        assert(0 <= i < self.loglets@.len() && self.loglets@[i].params_id == id);
        let j = self.spec_index_of(id);
        if j < i {
            assert(self.loglets@[j].params_id != self.loglets@[i].params_id);
        } else if j > i {
            assert(self.loglets@[i].params_id != self.loglets@[j].params_id);
        }
    }

    /// A fresh provider with no materialized loglets.
    pub fn new() -> (r: Self)
        ensures
            r.wf(),
            r.init_delay_ticks == 0,
            forall|id: u64| r.loglet_view(id) == LogletView::empty(),
            forall|id: u64| !r.has_loglet(id),
    {
        MemoryLogletProvider { loglets: Vec::new(), init_delay_ticks: 0 }
    }

    /// A fresh provider whose loglet materialization takes `delay_ticks`
    /// ticks of the driving loop; appends issued meanwhile queue, they do
    /// not fail.
    pub fn with_init_delay(delay_ticks: u64) -> (r: Self)
        ensures
            r.wf(),
            r.init_delay_ticks == delay_ticks,
            forall|id: u64| r.loglet_view(id) == LogletView::empty(),
            forall|id: u64| !r.has_loglet(id),
    {
        MemoryLogletProvider { loglets: Vec::new(), init_delay_ticks: delay_ticks }
    }

    /// Find the cached loglet for `params_id`.
    fn find_index(&self, params_id: u64) -> (r: Option<usize>)
        requires
            self.wf(),
        ensures
            match r {
                Some(i) => i < self.loglets@.len() && self.loglets@[i as int].params_id == params_id
                    && self.spec_index_of(params_id) == i && self.has_loglet(params_id),
                Option::None => !self.has_loglet(params_id),
            },
    {
        let mut i: usize = 0;
        while i < self.loglets.len()
            invariant
                self.wf(),
                i <= self.loglets@.len(),
                forall|j: int| 0 <= j < i ==> (#[trigger] self.loglets@[j]).params_id != params_id,
            decreases self.loglets@.len() - i,
        {
            if self.loglets[i].params_id == params_id {
                proof {
                    self.lemma_view_at(i as int);
                }
                return Some(i);
            }
            i = i + 1;
        }
        Option::None
    }

    /// Materialize the loglet for `params_id` if it is not cached yet.
    /// Abstractly a no-op: every loglet view is unchanged.
    fn get_or_create(&mut self, params_id: u64) -> (idx: usize)
        requires
            old(self).wf(),
        ensures
            final(self).wf(),
            final(self).init_delay_ticks == old(self).init_delay_ticks,
            idx < final(self).loglets@.len(),
            final(self).loglets@[idx as int].params_id == params_id,
            final(self).spec_index_of(params_id) == idx,
            final(self).has_loglet(params_id),
            forall|id: u64| final(self).loglet_view(id) == old(self).loglet_view(id),
            forall|id: u64| id != params_id ==> final(self).has_loglet(id) == old(self).has_loglet(
                id,
            ),
            forall|i: int|
                0 <= i < old(self).loglets@.len() ==> final(self).loglets@[i] == old(self).loglets@[i],
    {
        match self.find_index(params_id) {
            Some(i) => i,
            Option::None => {
                let idx = self.loglets.len();
                let fresh = MemoryLoglet::open(params_id);
                self.loglets.push(fresh);
                proof {
                    assert forall|i: int, j: int|
                        0 <= i < j < self.loglets@.len() implies self.loglets@[i].params_id
                        != self.loglets@[j].params_id by {
                        if j < self.loglets@.len() - 1 {
                            assert(old(self).loglets@[i].params_id != old(self).loglets@[j].params_id);
                        } else {
                            assert(!old(self).has_loglet(params_id));
                        }
                    }
                    self.lemma_view_at(idx as int);
                    assert forall|id: u64| id != params_id implies #[trigger] self.has_loglet(id)
                        == old(self).has_loglet(id) by {
                        if old(self).has_loglet(id) {
                            let i = old(self).spec_index_of(id);
                            assert(0 <= i < old(self).loglets@.len() && old(self).loglets@[i].params_id == id);
                            assert(self.loglets@[i].params_id == id);
                        }
                        if self.has_loglet(id) {
                            let i = self.spec_index_of(id);
                            assert(0 <= i < self.loglets@.len() && self.loglets@[i].params_id
                                == id);
                            assert(i < self.loglets@.len() - 1);
                        }
                    }
                    assert forall|id: u64| #[trigger]
                        self.loglet_view(id) == old(self).loglet_view(id) by {
                        if id == params_id {
                            assert(self.loglet_view(id) == LogletView::empty());
                        } else {
                            if old(self).has_loglet(id) {
                                let i = old(self).spec_index_of(id);
                                old(self).lemma_view_at(i);
                                self.lemma_view_at(i);
                            } else {
                                if self.has_loglet(id) {
                                    let i = self.spec_index_of(id);
                                    assert(0 <= i < self.loglets@.len()
                                        && self.loglets@[i].params_id == id);
                                    assert(i < self.loglets@.len() - 1);
                                }
                            }
                        }
                    }
                }
                idx
            },
        }
    }

    /// Replacing one cached loglet by a well-formed one with the same
    /// parameters leaves every other loglet's view untouched.
    pub proof fn lemma_frame_update(pre: Self, post: Self, idx: int)
        requires
            pre.wf(),
            0 <= idx < pre.loglets@.len(),
            post.loglets@.len() == pre.loglets@.len(),
            post.loglets@[idx].params_id == pre.loglets@[idx].params_id,
            forall|i: int|
                0 <= i < pre.loglets@.len() && i != idx ==> post.loglets@[i]
                    == #[trigger] pre.loglets@[i],
            post.init_delay_ticks == pre.init_delay_ticks,
            post.loglets@[idx].wf(),
        ensures
            post.wf(),
            forall|id: u64| post.has_loglet(id) == pre.has_loglet(id),
            forall|id: u64|
                id != pre.loglets@[idx].params_id ==> post.loglet_view(id) == pre.loglet_view(id),
            post.loglet_view(pre.loglets@[idx].params_id) == post.loglets@[idx].view(),
    {
        assert forall|i: int, j: int|
            0 <= i < j < post.loglets@.len() implies post.loglets@[i].params_id
            != post.loglets@[j].params_id by {
            assert(pre.loglets@[i].params_id != pre.loglets@[j].params_id);
            assert(post.loglets@[i].params_id == pre.loglets@[i].params_id);
            assert(post.loglets@[j].params_id == pre.loglets@[j].params_id);
        }
        assert forall|i: int| 0 <= i < post.loglets@.len() implies (
        #[trigger] post.loglets@[i]).wf() by {
            if i != idx {
                assert(post.loglets@[i] == pre.loglets@[i]);
            }
        }
        assert forall|id: u64| #[trigger] post.has_loglet(id) == pre.has_loglet(id) by {
            if pre.has_loglet(id) {
                let i = pre.spec_index_of(id);
                assert(post.loglets@[i].params_id == pre.loglets@[i].params_id);
            }
            if post.has_loglet(id) {
                let i = post.spec_index_of(id);
                assert(pre.loglets@[i].params_id == post.loglets@[i].params_id);
            }
        }
        assert forall|id: u64| id != pre.loglets@[idx].params_id implies #[trigger] post.loglet_view(
            id,
        ) == pre.loglet_view(id) by {
            if pre.has_loglet(id) {
                let i = pre.spec_index_of(id);
                pre.lemma_view_at(i);
                assert(post.loglets@[i].params_id == id);
                post.lemma_view_at(i);
                assert(i != idx);
            }
        }
        post.lemma_view_at(idx);
    }

    /// Append one record to the loglet for `params_id`, materializing it if
    /// needed. Returns the assigned loglet-local offset: directly after that
    /// loglet's previous tail.
    pub fn append_to(&mut self, params_id: u64, bytes: Vec<u8>) -> (offset: u64)
        requires
            old(self).wf(),
            old(self).loglet_view(params_id).release_pointer() + 1 < u64::MAX,
        ensures
            final(self).wf(),
            final(self).init_delay_ticks == old(self).init_delay_ticks,
            offset == old(self).loglet_view(params_id).release_pointer() + 1,
            final(self).loglet_view(params_id) == old(self).loglet_view(params_id).after_append(
                bytes@,
            ),
            forall|id: u64|
                id != params_id ==> final(self).loglet_view(id) == old(self).loglet_view(id),
            forall|id: u64|
                id != params_id ==> final(self).has_loglet(id) == old(self).has_loglet(id),
    {
        let idx = self.get_or_create(params_id);
        let ghost mid = *self;
        proof {
            mid.lemma_view_at(idx as int);
        }
        let loglet = &mut self.loglets[idx];
        let offset = loglet.append(bytes);
        proof {
            Self::lemma_frame_update(mid, *self, idx as int);
        }
        offset
    }

    /// Trim the loglet for `params_id` up to `t` (loglet-local), clamped by
    /// its release pointer.
    pub fn trim_to(&mut self, params_id: u64, t: u64)
        requires
            old(self).wf(),
        ensures
            final(self).wf(),
            final(self).init_delay_ticks == old(self).init_delay_ticks,
            final(self).loglet_view(params_id) == old(self).loglet_view(params_id).after_trim(
                t as nat,
            ),
            forall|id: u64|
                id != params_id ==> final(self).loglet_view(id) == old(self).loglet_view(id),
            forall|id: u64|
                id != params_id ==> final(self).has_loglet(id) == old(self).has_loglet(id),
    {
        let idx = self.get_or_create(params_id);
        let ghost mid = *self;
        proof {
            mid.lemma_view_at(idx as int);
        }
        let loglet = &mut self.loglets[idx];
        loglet.trim(t);
        proof {
            Self::lemma_frame_update(mid, *self, idx as int);
        }
    }

    /// Read the next record of the loglet for `params_id` after the
    /// loglet-local offset `after`. A loglet never referenced reads as
    /// empty.
    pub fn read_from(&self, params_id: u64, after: u64) -> (r: Option<LogletReadItem>)
        requires
            self.wf(),
        ensures
            match r {
                Some(item) => self.loglet_view(params_id).read_next(after as nat) == Some(
                    item.view(),
                ),
                Option::None => self.loglet_view(params_id).read_next(after as nat) is None,
            },
    {
        match self.find_index(params_id) {
            Some(i) => self.loglets[i].read_next_single_opt(after),
            Option::None => Option::None,
        }
    }

    /// The readable tail of the loglet for `params_id`.
    pub fn find_tail_of(&self, params_id: u64) -> (r: Option<u64>)
        requires
            self.wf(),
        ensures
            match r {
                Some(tail) => self.loglet_view(params_id).find_tail() == Some(tail as nat),
                Option::None => self.loglet_view(params_id).find_tail() is None,
            },
    {
        match self.find_index(params_id) {
            Some(i) => self.loglets[i].find_tail(),
            Option::None => Option::None,
        }
    }

    /// The trim point of the loglet for `params_id`, if anything was
    /// trimmed.
    pub fn get_trim_point_of(&self, params_id: u64) -> (r: Option<u64>)
        requires
            self.wf(),
        ensures
            match r {
                Some(t) => self.loglet_view(params_id).get_trim_point() == Some(t as nat),
                Option::None => self.loglet_view(params_id).get_trim_point() is None,
            },
    {
        match self.find_index(params_id) {
            Some(i) => self.loglets[i].get_trim_point(),
            Option::None => Option::None,
        }
    }
}

} // verus!
