//! Fan-out of freshly computed aggregates to independent subscribers.
//!
//! Each subscriber owns a bounded queue. Publishing never blocks and
//! never fails: a queue already at capacity evicts its oldest entry to
//! admit the new one (drop-oldest), so a slow subscriber observes only
//! the most recent aggregates and can never stall the merge engine.

use crate::merge::{AggregatedSummary, SummaryView};
use vstd::prelude::*;

verus! {

/// One subscriber: an opaque handle and its pending aggregates,
/// oldest first.
pub struct Subscriber {
    pub id: u64,
    pub queue: Vec<AggregatedSummary>,
}

/// The views of the queued aggregates, oldest first.
pub open spec fn queue_view(q: Seq<AggregatedSummary>) -> Seq<SummaryView> {
    q.map_values(|s: AggregatedSummary| s@)
}

/// Two subscribers with the same handle and the same queue.
pub open spec fn sub_eq(a: Subscriber, b: Subscriber) -> bool {
    a.id == b.id && a.queue@ == b.queue@
}

/// Pointwise [`sub_eq`] over two registries.
pub open spec fn subs_eq(a: Seq<Subscriber>, b: Seq<Subscriber>) -> bool {
    a.len() == b.len() && forall|k: int| 0 <= k < a.len() ==> sub_eq(#[trigger] a[k], b[k])
}

/// What one bounded queue holds after a publish: the new aggregate is
/// appended, and the oldest entry is evicted first if the queue is
/// already at capacity.
pub open spec fn after_publish(q: Seq<SummaryView>, s: SummaryView, cap: nat) -> Seq<SummaryView> {
    if q.len() < cap {
        q.push(s)
    } else {
        q.drop_first().push(s)
    }
}

/// Does some subscriber carry this handle?
pub open spec fn has_handle(subs: Seq<Subscriber>, h: u64) -> bool {
    exists|p: int| 0 <= p < subs.len() && (#[trigger] subs[p]).id == h
}

/// The index of the subscriber carrying this handle (unique, since
/// handles are issued in strictly increasing order).
pub open spec fn handle_idx(subs: Seq<Subscriber>, h: u64) -> int {
    choose|p: int| 0 <= p < subs.len() && (#[trigger] subs[p]).id == h
}

/// What `take_next` leaves and returns when the handle is registered:
/// the head of that subscriber's queue comes off, every other
/// subscriber is untouched.
pub open spec fn take_next_post(
    pre: Seq<Subscriber>,
    post: Seq<Subscriber>,
    h: u64,
    r: Option<AggregatedSummary>,
) -> bool {
    &&& post.len() == pre.len()
    &&& forall|k: int|
        0 <= k < pre.len() && k != handle_idx(pre, h) ==> sub_eq(#[trigger] post[k], pre[k])
    &&& post[handle_idx(pre, h)].id == h
    &&& if pre[handle_idx(pre, h)].queue@.len() == 0 {
        r is None && post[handle_idx(pre, h)].queue@ == pre[handle_idx(pre, h)].queue@
    } else {
        r is Some && (r->Some_0)@ == pre[handle_idx(pre, h)].queue@[0]@ && queue_view(
            post[handle_idx(pre, h)].queue@,
        ) == queue_view(pre[handle_idx(pre, h)].queue@).drop_first()
    }
}

/// The fan-out registry: every registered subscriber receives each
/// published aggregate in its own bounded queue.
pub struct Distributor {
    subs: Vec<Subscriber>,
    next_id: u64,
    capacity: usize,
}

impl Distributor {
    pub closed spec fn subscribers(self) -> Seq<Subscriber> {
        self.subs@
    }

    pub closed spec fn capacity_spec(self) -> nat {
        self.capacity as nat
    }

    pub closed spec fn next_id_spec(self) -> u64 {
        self.next_id
    }

    /// Handles are issued in strictly increasing order, every queue is
    /// within capacity, and no issued handle reaches the counter.
    pub open spec fn wf(self) -> bool {
        &&& self.capacity_spec() >= 1
        &&& forall|p: int, q: int|
            #![trigger self.subscribers()[p], self.subscribers()[q]]
            0 <= p < q < self.subscribers().len() ==> self.subscribers()[p].id
                < self.subscribers()[q].id
        &&& forall|p: int|
            0 <= p < self.subscribers().len() ==> (#[trigger] self.subscribers()[p]).id
                < self.next_id_spec()
        &&& forall|p: int|
            0 <= p < self.subscribers().len() ==> (#[trigger] self.subscribers()[p]).queue@.len()
                <= self.capacity_spec()
    }

    /// A fresh handle can still be issued.
    pub open spec fn can_register(self) -> bool {
        self.next_id_spec() < u64::MAX
    }

    pub fn new(capacity: usize) -> (r: Distributor)
        requires
            capacity >= 1,
        ensures
            r.wf(),
            r.subscribers().len() == 0,
            r.capacity_spec() == capacity,
            r.can_register(),
    {
        Distributor { subs: Vec::new(), next_id: 0, capacity }
    }

    /// Add a subscriber with an empty queue; returns its fresh opaque
    /// handle.
    pub fn register(&mut self) -> (h: u64)
        requires
            old(self).wf(),
            old(self).can_register(),
        ensures
            final(self).wf(),
            final(self).capacity_spec() == old(self).capacity_spec(),
            final(self).subscribers().len() == old(self).subscribers().len() + 1,
            forall|k: int|
                0 <= k < old(self).subscribers().len() ==> sub_eq(
                    #[trigger] final(self).subscribers()[k],
                    old(self).subscribers()[k],
                ),
            final(self).subscribers().last().id == h,
            final(self).subscribers().last().queue@.len() == 0,
            !has_handle(old(self).subscribers(), h),
    {
        let h = self.next_id;
        self.subs.push(Subscriber { id: h, queue: Vec::new() });
        self.next_id = self.next_id + 1;
        h
    }

    /// Drop the subscriber carrying this handle, if any; reports
    /// whether one was found. A consumer that stopped reading is
    /// reported here by the transport; it is never an error.
    pub fn unregister(&mut self, h: u64) -> (found: bool)
        requires
            old(self).wf(),
        ensures
            final(self).wf(),
            final(self).capacity_spec() == old(self).capacity_spec(),
            found == has_handle(old(self).subscribers(), h),
            found ==> final(self).subscribers() == old(self).subscribers().remove(
                handle_idx(old(self).subscribers(), h),
            ),
            !found ==> final(self).subscribers() == old(self).subscribers(),
    {
        let ghost pre = self.subs@;
        let mut idx: usize = 0;
        let mut found: bool = false;
        while !found && idx < self.subs.len()
            invariant
                idx <= pre.len(),
                self.subs@ == pre,
                !found ==> forall|k: int| 0 <= k < idx ==> (#[trigger] pre[k]).id != h,
                found ==> idx < pre.len() && pre[idx as int].id == h,
            decreases (if found { 0int } else { 1int }), pre.len() - idx,
        {
            if self.subs[idx].id == h {
                found = true;
            } else {
                idx += 1;
            }
        }
        if found {
            proof {
                lemma_handle_idx_unique(pre, h, idx as int, *old(self));
            }
            self.subs.remove(idx);
            proof {
                assert forall|p: int, q: int|
                    0 <= p < q < self.subs@.len() implies self.subs@[p].id < self.subs@[q].id by {
                    assert(self.subs@ == pre.remove(idx as int));
                }
            }
            true
        } else {
            false
        }
    }

    /// Push one aggregate to every subscriber's queue, evicting the
    /// oldest queued entry wherever a queue is already at capacity.
    /// Never blocks and never fails, whatever the consumers do.
    pub fn publish(&mut self, s: &AggregatedSummary)
        requires
            old(self).wf(),
        ensures
            final(self).wf(),
            final(self).capacity_spec() == old(self).capacity_spec(),
            final(self).subscribers().len() == old(self).subscribers().len(),
            forall|k: int|
                0 <= k < old(self).subscribers().len() ==> (#[trigger] final(self).subscribers()[k]).id
                    == old(self).subscribers()[k].id,
            forall|k: int|
                0 <= k < old(self).subscribers().len() ==> queue_view(
                    (#[trigger] final(self).subscribers()[k]).queue@,
                ) == after_publish(
                    queue_view(old(self).subscribers()[k].queue@),
                    s@,
                    old(self).capacity_spec(),
                ),
    {
        let ghost orig = self.subs@;
        let n = self.subs.len();
        let mut updated: Vec<Subscriber> = Vec::new();
        let mut k: usize = 0;
        while k < n
            invariant
                k <= n,
                n == orig.len(),
                self.subs@ == orig,
                self.capacity >= 1,
                forall|p: int|
                    0 <= p < orig.len() ==> (#[trigger] orig[p]).queue@.len() <= self.capacity,
                updated@.len() == k,
                forall|p: int|
                    0 <= p < k ==> (#[trigger] updated@[p]).id == orig[p].id && updated@[p].queue@.len()
                        <= self.capacity && queue_view(updated@[p].queue@) == after_publish(
                        queue_view(orig[p].queue@),
                        s@,
                        self.capacity as nat,
                    ),
            decreases n - k,
        {
            let sub = &self.subs[k];
            let ghost oldq = sub.queue@;
            let mut q = copy_queue(&sub.queue);
            if q.len() >= self.capacity {
                q.remove(0);
                proof {
                    assert(queue_view(q@) =~= queue_view(oldq).drop_first());
                }
            }
            q.push(s.duplicate());
            proof {
                assert(queue_view(q@) =~= after_publish(
                    queue_view(oldq),
                    s@,
                    self.capacity as nat,
                ));
            }
            updated.push(Subscriber { id: sub.id, queue: q });
            k += 1;
        }
        self.subs = updated;
    }

    /// Hand the subscriber with this handle the oldest aggregate still
    /// queued for it, if the handle is registered and anything is
    /// pending.
    pub fn take_next(&mut self, h: u64) -> (r: Option<AggregatedSummary>)
        requires
            old(self).wf(),
        ensures
            final(self).wf(),
            final(self).capacity_spec() == old(self).capacity_spec(),
            !has_handle(old(self).subscribers(), h) ==> r is None && final(self).subscribers()
                == old(self).subscribers(),
            has_handle(old(self).subscribers(), h) ==> take_next_post(
                old(self).subscribers(),
                final(self).subscribers(),
                h,
                r,
            ),
    {
        let ghost pre = self.subs@;
        let mut idx: usize = 0;
        let mut found: bool = false;
        while !found && idx < self.subs.len()
            invariant
                idx <= pre.len(),
                self.subs@ == pre,
                !found ==> forall|k: int| 0 <= k < idx ==> (#[trigger] pre[k]).id != h,
                found ==> idx < pre.len() && pre[idx as int].id == h,
            decreases (if found { 0int } else { 1int }), pre.len() - idx,
        {
            if self.subs[idx].id == h {
                found = true;
            } else {
                idx += 1;
            }
        }
        if !found {
            return None;
        }
        proof {
            lemma_handle_idx_unique(pre, h, idx as int, *old(self));
        }
        let mut sub = self.subs.remove(idx);
        let ghost oldq = sub.queue@;
        let r = if sub.queue.len() > 0 {
            let head = sub.queue.remove(0);
            proof {
                assert(sub.queue@ =~= oldq.drop_first());
                assert(queue_view(sub.queue@) =~= queue_view(oldq).drop_first());
            }
            Some(head)
        } else {
            None
        };
        self.subs.insert(idx, sub);
        proof {
            assert(self.subs@ =~= pre.update(idx as int, self.subs@[idx as int]));
            assert forall|p: int, q: int|
                0 <= p < q < self.subs@.len() implies self.subs@[p].id < self.subs@[q].id by {
                assert(pre[p].id < pre[q].id);
            }
        }
        r
    }
}

/// The found index of a handle is the unique one `handle_idx` names.
proof fn lemma_handle_idx_unique(subs: Seq<Subscriber>, h: u64, at: int, d: Distributor)
    requires
        d.wf(),
        d.subscribers() == subs,
        0 <= at < subs.len(),
        subs[at].id == h,
    ensures
        has_handle(subs, h),
        handle_idx(subs, h) == at,
{
    assert(has_handle(subs, h));
    let p = handle_idx(subs, h);
    assert(0 <= p < subs.len() && subs[p].id == h);
    if p < at {
        assert(subs[p].id < subs[at].id);
    } else if at < p {
        assert(subs[at].id < subs[p].id);
    }
}

fn copy_queue(v: &Vec<AggregatedSummary>) -> (r: Vec<AggregatedSummary>)
    ensures
        r@.len() == v@.len(),
        forall|k: int| 0 <= k < v@.len() ==> (#[trigger] r@[k])@ == v@[k]@,
{
    let mut r: Vec<AggregatedSummary> = Vec::new();
    let mut i: usize = 0;
    while i < v.len()
        invariant
            i <= v@.len(),
            r@.len() == i,
            forall|k: int| 0 <= k < i ==> (#[trigger] r@[k])@ == v@[k]@,
        decreases v@.len() - i,
    {
        r.push(v[i].duplicate());
        i += 1;
    }
    r
}

} // verus!
