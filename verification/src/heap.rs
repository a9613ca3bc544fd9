//! The collected heap: reachability-managed allocation, heap statistics,
//! and the collection-enable counter with its round-trip discipline.

use vstd::prelude::*;
use crate::state::{has_block, has_obj, Collector, ObjRec, RefEdge};

verus! {

impl Collector {
    /// Allocates `size` bytes on the collected heap. The object starts
    /// zero-initialized — it holds no pointers — and is reclaimed only by
    /// reachability: no explicit release exists for it. Returns the
    /// object's handle, or the null handle when the engine cannot satisfy
    /// the request — in which case nothing changes apart from the
    /// out-of-memory signal.
    pub fn gc_allocate(&mut self, size: usize) -> (r: usize)
        requires
            old(self).wf(),
        ensures
            final(self).wf(),
            old(self).can_allocate(size) ==> {
                &&& r == old(self).next_id && r != 0
                &&& final(self).objects@ == old(self).objects@.push(ObjRec { id: r, size: size })
                &&& final(self).refs@ == old(self).refs@
                &&& final(self).records@ == old(self).records@
                &&& final(self).fired@ == old(self).fired@
                &&& final(self).next_id == old(self).next_id + 1
                &&& final(self).heap_bytes == old(self).heap_after_alloc(size)
                &&& final(self).free_bytes_lb == old(self).free_after_alloc(size)
                &&& final(self).total_alloc_bytes == old(self).total_alloc_bytes + size
                &&& final(self).since_gc_bytes == old(self).since_gc_bytes + size
                &&& old(self).same_adapter(*final(self))
                &&& old(self).same_gating(*final(self))
                &&& final(self).oom_events@ == old(self).oom_events@
            },
            !old(self).can_allocate(size) ==> r == 0 && old(self).oom_signalled(
                *final(self),
                size,
            ),
    {
        if self.next_id == usize::MAX {
            return self.signal_oom(size);
        }
        if self.free_bytes_lb < size {
            let grow = size - self.free_bytes_lb;
            if grow > usize::MAX - self.heap_bytes {
                return self.signal_oom(size);
            }
        }
        if size > usize::MAX - self.total_alloc_bytes {
            return self.signal_oom(size);
        }
        if size > usize::MAX - self.since_gc_bytes {
            return self.signal_oom(size);
        }
        let ghost pre = *self;
        let id = self.next_id;
        self.next_id = self.next_id + 1;
        if self.free_bytes_lb >= size {
            self.free_bytes_lb = self.free_bytes_lb - size;
        } else {
            self.heap_bytes = self.heap_bytes + (size - self.free_bytes_lb);
            self.free_bytes_lb = 0;
        }
        self.total_alloc_bytes = self.total_alloc_bytes + size;
        self.since_gc_bytes = self.since_gc_bytes + size;
        self.objects.push(ObjRec { id: id, size: size });
        proof {
            assert forall|i: int|
                0 <= i < self.block_ptrs@.len() implies has_block(
                self.blocks@,
                (#[trigger] self.block_ptrs@[i]).block,
            ) && has_obj(self.objects@, self.block_ptrs@[i].ptr) by {
                assert(has_obj(pre.objects@, pre.block_ptrs@[i].ptr));
                let t = choose|t: int|
                    0 <= t < pre.objects@.len() && (#[trigger] pre.objects@[t]).id
                        == pre.block_ptrs@[i].ptr;
                assert(self.objects@[t] == pre.objects@[t]);
            }
            assert forall|i: int|
                0 <= i < self.refs@.len() implies has_obj(
                self.objects@,
                (#[trigger] self.refs@[i]).src,
            ) && has_obj(self.objects@, self.refs@[i].dst) by {
                let ts = choose|t: int|
                    0 <= t < pre.objects@.len() && (#[trigger] pre.objects@[t]).id
                        == pre.refs@[i].src;
                assert(self.objects@[ts] == pre.objects@[ts]);
                let td = choose|t: int|
                    0 <= t < pre.objects@.len() && (#[trigger] pre.objects@[t]).id
                        == pre.refs@[i].dst;
                assert(self.objects@[td] == pre.objects@[td]);
            }
            assert forall|i: int|
                0 <= i < self.records@.len() implies has_obj(
                self.objects@,
                (#[trigger] self.records@[i]).target,
            ) by {
                let t = choose|t: int|
                    0 <= t < pre.objects@.len() && (#[trigger] pre.objects@[t]).id
                        == pre.records@[i].target;
                assert(self.objects@[t] == pre.objects@[t]);
            }
        }
        id
    }

    /// Stores a pointer from one collected object into another: what the
    /// host runtime does when it writes a GC'd pointer into a collected
    /// object's memory.
    pub fn store_ref(&mut self, src: usize, dst: usize)
        requires
            old(self).wf(),
            has_obj(old(self).objects@, src),
            has_obj(old(self).objects@, dst),
        ensures
            final(self).wf(),
            final(self).refs@ == old(self).refs@.push(RefEdge { src: src, dst: dst }),
            final(self).objects@ == old(self).objects@,
            final(self).records@ == old(self).records@,
            final(self).fired@ == old(self).fired@,
            final(self).next_id == old(self).next_id,
            old(self).same_adapter(*final(self)),
            old(self).same_gating(*final(self)),
            old(self).same_stats(*final(self)),
            final(self).oom_events@ == old(self).oom_events@,
    {
        self.refs.push(RefEdge { src: src, dst: dst });
    }

    /// The number of bytes in the managed heap, empty blocks and
    /// fragmentation loss included.
    pub fn heap_size(&self) -> (r: usize)
        ensures
            r == self.heap_bytes,
    {
        self.heap_bytes
    }

    /// A conservative lower bound on the free bytes of the heap — never
    /// an exact figure, and never more than the heap itself holds.
    pub fn free_bytes(&self) -> (r: usize)
        requires
            self.wf(),
        ensures
            r == self.free_bytes_lb,
            r <= self.heap_bytes,
    {
        self.free_bytes_lb
    }

    /// The number of bytes allocated since the last collection pass —
    /// never more than the process has allocated overall.
    pub fn bytes_since_gc(&self) -> (r: usize)
        requires
            self.wf(),
        ensures
            r == self.since_gc_bytes,
            r <= self.total_alloc_bytes,
    {
        self.since_gc_bytes
    }

    /// The total number of bytes allocated in this process.
    pub fn total_bytes(&self) -> (r: usize)
        ensures
            r == self.total_alloc_bytes,
    {
        self.total_alloc_bytes
    }

    /// Lowers the collection-enable counter by one. Collection is
    /// permitted again once the counter returns to zero: each disable
    /// must be matched by exactly one enable, and nothing auto-balances
    /// the pair. The counter goes negative when enable calls outnumber
    /// disable calls.
    pub fn gc_enable(&mut self)
        requires
            old(self).wf(),
            old(self).disable_depth > i64::MIN,
        ensures
            final(self).wf(),
            final(self).disable_depth == old(self).disable_depth - 1,
            final(self).collection_enabled() <==> old(self).disable_depth == 1,
            old(self).same_adapter(*final(self)),
            old(self).same_heap_objects(*final(self)),
            old(self).same_stats(*final(self)),
            final(self).oom_events@ == old(self).oom_events@,
            final(self).oom_handler == old(self).oom_handler,
            final(self).next_id == old(self).next_id,
    {
        self.disable_depth = self.disable_depth - 1;
    }

    /// Raises the collection-enable counter by one, preventing any
    /// collection — including a forced pass — from reclaiming memory
    /// until a matching `gc_enable` brings the counter back to zero.
    pub fn gc_disable(&mut self)
        requires
            old(self).wf(),
            old(self).disable_depth < i64::MAX,
        ensures
            final(self).wf(),
            final(self).disable_depth == old(self).disable_depth + 1,
            final(self).collection_enabled() <==> old(self).disable_depth == -1,
            old(self).same_adapter(*final(self)),
            old(self).same_heap_objects(*final(self)),
            old(self).same_stats(*final(self)),
            final(self).oom_events@ == old(self).oom_events@,
            final(self).oom_handler == old(self).oom_handler,
            final(self).next_id == old(self).next_id,
    {
        self.disable_depth = self.disable_depth + 1;
    }

    /// Installs the process-wide out-of-memory handler, replacing any
    /// previous one. The handler receives the number of bytes that could
    /// not be satisfied; it must not allocate, and it is expected not to
    /// return — the engine tolerates a return only in ways this system
    /// does not support, so a return is to be documented as an abort.
    /// Once set, the slot is never cleared, only replaced.
    pub fn set_oom_fn(&mut self, handler: usize)
        requires
            old(self).wf(),
        ensures
            final(self).wf(),
            final(self).oom_handler == Some(handler),
            final(self).disable_depth == old(self).disable_depth,
            old(self).same_adapter(*final(self)),
            old(self).same_heap_objects(*final(self)),
            old(self).same_stats(*final(self)),
            final(self).oom_events@ == old(self).oom_events@,
            final(self).next_id == old(self).next_id,
    {
        self.oom_handler = Some(handler);
    }
}

/// The collection-enable counter after a sequence of gate calls, each
/// `true` a disable and each `false` an enable: the spec-level mirror of
/// `gc_disable` and `gc_enable`.
pub open spec fn depth_after(start: int, calls: Seq<bool>) -> int
    decreases calls.len(),
{
    if calls.len() == 0 {
        start
    } else {
        depth_after(start, calls.drop_last()) + (if calls.last() {
            1int
        } else {
            -1int
        })
    }
}

/// A run of equal gate calls.
pub open spec fn gate_calls(disable: bool, n: nat) -> Seq<bool> {
    Seq::new(n, |i: int| disable)
}

/// A run of `n` equal gate calls moves the counter by `n`.
pub proof fn lemma_depth_after_run(start: int, disable: bool, n: nat)
    ensures
        depth_after(start, gate_calls(disable, n)) == if disable {
            start + n
        } else {
            start - n
        },
    decreases n,
{
    if n > 0 {
        assert(gate_calls(disable, n).drop_last() =~= gate_calls(disable, (n - 1) as nat));
        lemma_depth_after_run(start, disable, (n - 1) as nat);
    }
}

/// Splitting a call sequence splits the counter computation.
pub proof fn lemma_depth_after_add(start: int, a: Seq<bool>, b: Seq<bool>)
    ensures
        depth_after(start, a + b) == depth_after(depth_after(start, a), b),
    decreases b.len(),
{
    if b.len() == 0 {
        assert(a + b =~= a);
    } else {
        assert((a + b).drop_last() =~= a + b.drop_last());
        assert((a + b).last() == b.last());
        lemma_depth_after_add(start, a, b.drop_last());
    }
}

/// The round-trip law of the collection gate: from an enabled state,
/// `n` disable calls followed by `n - 1` enable calls leave collection
/// disabled, and one further enable call re-enables it.
pub proof fn lemma_gate_round_trip(n: nat)
    requires
        n >= 1,
    ensures
        depth_after(0, gate_calls(true, n) + gate_calls(false, (n - 1) as nat)) == 1,
        depth_after(0, gate_calls(true, n) + gate_calls(false, n)) == 0,
{
    lemma_depth_after_run(0, true, n);
    lemma_depth_after_add(0, gate_calls(true, n), gate_calls(false, (n - 1) as nat));
    lemma_depth_after_run(n as int, false, (n - 1) as nat);
    lemma_depth_after_add(0, gate_calls(true, n), gate_calls(false, n));
    lemma_depth_after_run(n as int, false, n);
}

} // verus!
