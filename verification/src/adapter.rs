//! The allocation adapter: scanned-but-uncollected blocks for the host
//! runtime's ordinary heap traffic, with the byte accounting of the
//! engine behind it.

use vstd::prelude::*;
use crate::state::{
    blk_for, block_ids_unique, drop_block, drop_entries, has_block, has_obj,
    lemma_blk_for_index, lemma_drop_block_membership, lemma_drop_block_unique,
    lemma_drop_entries_membership, lemma_retag_entries_membership, retag_entries, BlockRec,
    Collector, OomEvent, RootEntry,
};

verus! {

impl Collector {
    /// Whether the engine can satisfy a request of `size` bytes: a fresh
    /// handle remains and no byte counter would overflow the machine word.
    pub open spec fn can_allocate(self, size: usize) -> bool {
        &&& self.next_id < usize::MAX
        &&& (self.free_bytes_lb >= size || self.heap_bytes + (size - self.free_bytes_lb)
            <= usize::MAX)
        &&& self.total_alloc_bytes + size <= usize::MAX
        &&& self.since_gc_bytes + size <= usize::MAX
    }

    /// Heap size after carving `size` bytes out of the free pool; the
    /// heap grows by the shortfall when the pool runs short.
    pub open spec fn heap_after_alloc(self, size: usize) -> int {
        if self.free_bytes_lb >= size {
            self.heap_bytes as int
        } else {
            self.heap_bytes + (size - self.free_bytes_lb)
        }
    }

    /// Free-pool lower bound after carving `size` bytes out of it.
    pub open spec fn free_after_alloc(self, size: usize) -> int {
        if self.free_bytes_lb >= size {
            self.free_bytes_lb - size
        } else {
            0
        }
    }

    /// Free-pool lower bound after handing `size` bytes back, kept a
    /// conservative bound by capping it at the heap size.
    pub open spec fn free_after_release(self, size: usize) -> int {
        if self.free_bytes_lb + size <= self.heap_bytes {
            self.free_bytes_lb + size
        } else {
            self.heap_bytes as int
        }
    }

    /// The collected heap is untouched: objects, references, finalizer
    /// records and the finalization log.
    pub open spec fn same_heap_objects(self, post: Collector) -> bool {
        &&& post.objects@ == self.objects@
        &&& post.refs@ == self.refs@
        &&& post.records@ == self.records@
        &&& post.fired@ == self.fired@
    }

    /// The gating state is untouched: enable counter and handler slot.
    pub open spec fn same_gating(self, post: Collector) -> bool {
        &&& post.disable_depth == self.disable_depth
        &&& post.oom_handler == self.oom_handler
    }

    /// The adapter's blocks and stored pointers are untouched.
    pub open spec fn same_adapter(self, post: Collector) -> bool {
        &&& post.blocks@ == self.blocks@
        &&& post.block_ptrs@ == self.block_ptrs@
    }

    /// The byte counters are untouched.
    pub open spec fn same_stats(self, post: Collector) -> bool {
        &&& post.heap_bytes == self.heap_bytes
        &&& post.free_bytes_lb == self.free_bytes_lb
        &&& post.since_gc_bytes == self.since_gc_bytes
        &&& post.total_alloc_bytes == self.total_alloc_bytes
    }

    /// What a refused request does: nothing at all, except that the
    /// installed out-of-memory handler — if any — is invoked with the
    /// number of bytes that could not be satisfied.
    pub open spec fn oom_signalled(self, post: Collector, size: usize) -> bool {
        &&& post.oom_events@ == (if self.oom_handler.is_some() {
            self.oom_events@.push(OomEvent { handler: self.oom_handler.unwrap(), bytes: size })
        } else {
            self.oom_events@
        })
        &&& self.same_heap_objects(post)
        &&& self.same_gating(post)
        &&& self.same_adapter(post)
        &&& self.same_stats(post)
        &&& post.next_id == self.next_id
    }

    /// Refuses a request: invokes the out-of-memory handler if one is
    /// installed and returns the null handle.
    pub(crate) fn signal_oom(&mut self, size: usize) -> (r: usize)
        requires
            old(self).wf(),
        ensures
            r == 0,
            final(self).wf(),
            old(self).oom_signalled(*final(self), size),
    {
        match self.oom_handler {
            Some(h) => {
                self.oom_events.push(OomEvent { handler: h, bytes: size });
            },
            None => {},
        }
        0
    }

    /// Hands out a scanned block of `size` bytes for the host runtime's
    /// manual heap traffic. The block is never reclaimed by tracing, and
    /// its contents are scanned for collected pointers, which count as
    /// roots. Returns the block's handle, or the null handle when the
    /// engine cannot satisfy the request — in which case nothing changes
    /// apart from the out-of-memory signal.
    pub fn allocate(&mut self, size: usize, _align: usize) -> (r: usize)
        requires
            old(self).wf(),
        ensures
            final(self).wf(),
            old(self).can_allocate(size) ==> {
                &&& r == old(self).next_id && r != 0
                &&& final(self).blocks@ == old(self).blocks@.push(BlockRec { id: r, size: size })
                &&& final(self).block_ptrs@ == old(self).block_ptrs@
                &&& final(self).next_id == old(self).next_id + 1
                &&& final(self).heap_bytes == old(self).heap_after_alloc(size)
                &&& final(self).free_bytes_lb == old(self).free_after_alloc(size)
                &&& final(self).total_alloc_bytes == old(self).total_alloc_bytes + size
                &&& final(self).since_gc_bytes == old(self).since_gc_bytes + size
                &&& old(self).same_heap_objects(*final(self))
                &&& old(self).same_gating(*final(self))
                &&& final(self).oom_events@ == old(self).oom_events@
            },
            !old(self).can_allocate(size) ==> r == 0 && old(self).oom_signalled(
                *final(self),
                size,
            ),
    {
        if self.next_id == usize::MAX {
            return self.signal_oom(size);
        }
        if self.free_bytes_lb < size {
            let grow = size - self.free_bytes_lb;
            if grow > usize::MAX - self.heap_bytes {
                return self.signal_oom(size);
            }
        }
        if size > usize::MAX - self.total_alloc_bytes {
            return self.signal_oom(size);
        }
        if size > usize::MAX - self.since_gc_bytes {
            return self.signal_oom(size);
        }
        let ghost pre = *self;
        let id = self.next_id;
        self.next_id = self.next_id + 1;
        if self.free_bytes_lb >= size {
            self.free_bytes_lb = self.free_bytes_lb - size;
        } else {
            self.heap_bytes = self.heap_bytes + (size - self.free_bytes_lb);
            self.free_bytes_lb = 0;
        }
        self.total_alloc_bytes = self.total_alloc_bytes + size;
        self.since_gc_bytes = self.since_gc_bytes + size;
        self.blocks.push(BlockRec { id: id, size: size });
        proof {
            assert forall|i: int|
                0 <= i < self.block_ptrs@.len() implies has_block(
                self.blocks@,
                (#[trigger] self.block_ptrs@[i]).block,
            ) && has_obj(self.objects@, self.block_ptrs@[i].ptr) by {
                assert(has_block(pre.blocks@, pre.block_ptrs@[i].block));
                let t = choose|t: int|
                    0 <= t < pre.blocks@.len() && (#[trigger] pre.blocks@[t]).id
                        == pre.block_ptrs@[i].block;
                assert(self.blocks@[t] == pre.blocks@[t]);
            }
        }
        id
    }

    /// Reports the usable size of an allocation of `size` bytes: exactly
    /// the requested size. The adapter promises nothing about slack or
    /// internal fragmentation beyond "at least what was asked for".
    pub fn usable_size(&self, size: usize, _align: usize) -> (r: usize)
        ensures
            r == size,
            r >= size,
    {
        size
    }

    /// Stores a collected pointer into a scanned block: what the host
    /// runtime does when it writes a GC'd pointer into adapter memory.
    /// From here until the block is released, the pointer is a root.
    pub fn store_in_block(&mut self, block: usize, ptr: usize)
        requires
            old(self).wf(),
            has_block(old(self).blocks@, block),
            has_obj(old(self).objects@, ptr),
        ensures
            final(self).wf(),
            final(self).block_ptrs@ == old(self).block_ptrs@.push(
                RootEntry { block: block, ptr: ptr },
            ),
            final(self).blocks@ == old(self).blocks@,
            final(self).next_id == old(self).next_id,
            old(self).same_heap_objects(*final(self)),
            old(self).same_gating(*final(self)),
            old(self).same_stats(*final(self)),
            final(self).oom_events@ == old(self).oom_events@,
    {
        self.block_ptrs.push(RootEntry { block: block, ptr: ptr });
    }

    /// Releases a block previously handed out by the adapter, together
    /// with its stored pointers' root status. Releasing a block twice, or
    /// releasing something the adapter never handed out, is excluded by
    /// contract: the engine declares it undefined.
    pub fn deallocate(&mut self, block: usize, _size: usize, _align: usize)
        requires
            old(self).wf(),
            has_block(old(self).blocks@, block),
        ensures
            final(self).wf(),
            final(self).blocks@ == drop_block(old(self).blocks@, block),
            final(self).block_ptrs@ == drop_entries(old(self).block_ptrs@, block),
            final(self).free_bytes_lb == old(self).free_after_release(
                blk_for(old(self).blocks@, block).unwrap().size,
            ),
            final(self).heap_bytes == old(self).heap_bytes,
            final(self).next_id == old(self).next_id,
            final(self).since_gc_bytes == old(self).since_gc_bytes,
            final(self).total_alloc_bytes == old(self).total_alloc_bytes,
            old(self).same_heap_objects(*final(self)),
            old(self).same_gating(*final(self)),
            final(self).oom_events@ == old(self).oom_events@,
    {
        let ghost pre = *self;
        let mut kept: Vec<BlockRec> = Vec::new();
        let mut freed: Option<usize> = None;
        let mut i: usize = 0;
        while i < self.blocks.len()
            invariant
                pre == *self,
                old(self).wf(),
                i <= self.blocks@.len(),
                kept@ == drop_block(self.blocks@.subrange(0, i as int), block),
                match freed {
                    Some(sz) => blk_for(self.blocks@, block) matches Some(b) && b.size == sz,
                    None => !has_block(self.blocks@.subrange(0, i as int), block),
                },
            decreases self.blocks@.len() - i,
        {
            let b = self.blocks[i];
            proof {
                assert(self.blocks@.subrange(0, i + 1).drop_last() =~= self.blocks@.subrange(
                    0,
                    i as int,
                ));
                assert(self.blocks@.subrange(0, i + 1).last() == self.blocks@[i as int]);
            }
            if b.id != block {
                kept.push(b);
                proof {
                    if !has_block(self.blocks@.subrange(0, i as int), block) {
                        assert forall|t: int|
                            0 <= t < i + 1 implies (#[trigger] self.blocks@.subrange(
                            0,
                            i + 1,
                        )[t]).id != block by {}
                    }
                }
            } else {
                freed = Some(b.size);
                proof {
                    lemma_blk_for_index(self.blocks@, i as int);
                }
            }
            i += 1;
        }
        proof {
            assert(self.blocks@.subrange(0, self.blocks@.len() as int) =~= self.blocks@);
        }
        let sz = match freed {
            Some(sz) => sz,
            None => vstd::pervasive::unreached(),
        };
        let mut kept_entries: Vec<RootEntry> = Vec::new();
        let mut j: usize = 0;
        while j < self.block_ptrs.len()
            invariant
                pre == *self,
                j <= self.block_ptrs@.len(),
                kept_entries@ == drop_entries(self.block_ptrs@.subrange(0, j as int), block),
            decreases self.block_ptrs@.len() - j,
        {
            let e = self.block_ptrs[j];
            proof {
                assert(self.block_ptrs@.subrange(0, j + 1).drop_last()
                    =~= self.block_ptrs@.subrange(0, j as int));
                assert(self.block_ptrs@.subrange(0, j + 1).last() == self.block_ptrs@[j as int]);
            }
            if e.block != block {
                kept_entries.push(e);
            }
            j += 1;
        }
        proof {
            assert(self.block_ptrs@.subrange(0, self.block_ptrs@.len() as int)
                =~= self.block_ptrs@);
        }
        self.blocks = kept;
        self.block_ptrs = kept_entries;
        if sz <= self.heap_bytes - self.free_bytes_lb {
            self.free_bytes_lb = self.free_bytes_lb + sz;
        } else {
            self.free_bytes_lb = self.heap_bytes;
        }
        proof {
            lemma_drop_block_unique(pre.blocks@, block);
            assert forall|i: int|
                0 <= i < self.blocks@.len() implies 0 < (#[trigger] self.blocks@[i]).id
                < self.next_id by {
                assert(self.blocks@.contains(self.blocks@[i]));
                lemma_drop_block_membership(pre.blocks@, block, self.blocks@[i]);
                let t = choose|t: int|
                    0 <= t < pre.blocks@.len() && pre.blocks@[t] == self.blocks@[i];
            }
            assert forall|i: int|
                0 <= i < self.block_ptrs@.len() implies has_block(
                self.blocks@,
                (#[trigger] self.block_ptrs@[i]).block,
            ) && has_obj(self.objects@, self.block_ptrs@[i].ptr) by {
                assert(self.block_ptrs@.contains(self.block_ptrs@[i]));
                lemma_drop_entries_membership(pre.block_ptrs@, block, self.block_ptrs@[i]);
                let t = choose|t: int|
                    0 <= t < pre.block_ptrs@.len() && pre.block_ptrs@[t] == self.block_ptrs@[i];
                assert(has_block(pre.blocks@, self.block_ptrs@[i].block));
                let u = choose|u: int|
                    0 <= u < pre.blocks@.len() && (#[trigger] pre.blocks@[u]).id
                        == self.block_ptrs@[i].block;
                lemma_drop_block_membership(pre.blocks@, block, pre.blocks@[u]);
                assert(pre.blocks@[u].id != block);
                assert(self.blocks@.contains(pre.blocks@[u]));
            }
        }
    }

    /// Whether the engine can resize a block of the adapter to
    /// `new_size` bytes: as `can_allocate`, with the block's own bytes
    /// first handed back to the free pool.
    pub open spec fn can_reallocate(self, block: usize, new_size: usize) -> bool {
        let fm = self.free_after_release(blk_for(self.blocks@, block).unwrap().size);
        &&& self.next_id < usize::MAX
        &&& (fm >= new_size || self.heap_bytes + (new_size - fm) <= usize::MAX)
        &&& self.total_alloc_bytes + new_size <= usize::MAX
        &&& self.since_gc_bytes + new_size <= usize::MAX
    }

    /// Heap size after resizing the block to `new_size` bytes.
    pub open spec fn heap_after_realloc(self, block: usize, new_size: usize) -> int {
        let fm = self.free_after_release(blk_for(self.blocks@, block).unwrap().size);
        if fm >= new_size {
            self.heap_bytes as int
        } else {
            self.heap_bytes + (new_size - fm)
        }
    }

    /// Free-pool lower bound after resizing the block to `new_size` bytes.
    pub open spec fn free_after_realloc(self, block: usize, new_size: usize) -> int {
        let fm = self.free_after_release(blk_for(self.blocks@, block).unwrap().size);
        if fm >= new_size {
            fm - new_size
        } else {
            0
        }
    }

    /// Resizes a block, possibly moving it: the returned handle replaces
    /// the old one and the old handle must not be used afterwards. Every
    /// pointer stored in the block stays scan-visible under the new
    /// handle — scan visibility never lapses across a resize. Returns the
    /// null handle, leaving the block untouched, when the engine cannot
    /// satisfy the request.
    pub fn reallocate(&mut self, block: usize, _old_size: usize, new_size: usize, _align: usize) -> (r:
        usize)
        requires
            old(self).wf(),
            has_block(old(self).blocks@, block),
        ensures
            final(self).wf(),
            old(self).can_reallocate(block, new_size) ==> {
                &&& r == old(self).next_id && r != 0
                &&& final(self).blocks@ == drop_block(old(self).blocks@, block).push(
                    BlockRec { id: r, size: new_size },
                )
                &&& final(self).block_ptrs@ == retag_entries(old(self).block_ptrs@, block, r)
                &&& final(self).next_id == old(self).next_id + 1
                &&& final(self).heap_bytes == old(self).heap_after_realloc(block, new_size)
                &&& final(self).free_bytes_lb == old(self).free_after_realloc(block, new_size)
                &&& final(self).total_alloc_bytes == old(self).total_alloc_bytes + new_size
                &&& final(self).since_gc_bytes == old(self).since_gc_bytes + new_size
                &&& old(self).same_heap_objects(*final(self))
                &&& old(self).same_gating(*final(self))
                &&& final(self).oom_events@ == old(self).oom_events@
            },
            !old(self).can_reallocate(block, new_size) ==> r == 0 && old(self).oom_signalled(
                *final(self),
                new_size,
            ),
    {
        let ghost pre = *self;
        let mut sz_found: Option<usize> = None;
        let mut i: usize = 0;
        while i < self.blocks.len()
            invariant
                pre == *self,
                old(self).wf(),
                i <= self.blocks@.len(),
                match sz_found {
                    Some(sz) => blk_for(self.blocks@, block) matches Some(b) && b.size == sz,
                    None => !has_block(self.blocks@.subrange(0, i as int), block),
                },
            decreases self.blocks@.len() - i,
        {
            let b = self.blocks[i];
            proof {
                assert(self.blocks@.subrange(0, i + 1).drop_last() =~= self.blocks@.subrange(
                    0,
                    i as int,
                ));
                assert(self.blocks@.subrange(0, i + 1).last() == self.blocks@[i as int]);
            }
            if b.id == block {
                sz_found = Some(b.size);
                proof {
                    lemma_blk_for_index(self.blocks@, i as int);
                }
            } else {
                proof {
                    if !has_block(self.blocks@.subrange(0, i as int), block) {
                        assert forall|t: int|
                            0 <= t < i + 1 implies (#[trigger] self.blocks@.subrange(
                            0,
                            i + 1,
                        )[t]).id != block by {}
                    }
                }
            }
            i += 1;
        }
        proof {
            assert(self.blocks@.subrange(0, self.blocks@.len() as int) =~= self.blocks@);
        }
        let sz = match sz_found {
            Some(sz) => sz,
            None => vstd::pervasive::unreached(),
        };
        let fm = if sz <= self.heap_bytes - self.free_bytes_lb {
            self.free_bytes_lb + sz
        } else {
            self.heap_bytes
        };
        if self.next_id == usize::MAX {
            return self.signal_oom(new_size);
        }
        if fm < new_size {
            let grow = new_size - fm;
            if grow > usize::MAX - self.heap_bytes {
                return self.signal_oom(new_size);
            }
        }
        if new_size > usize::MAX - self.total_alloc_bytes {
            return self.signal_oom(new_size);
        }
        if new_size > usize::MAX - self.since_gc_bytes {
            return self.signal_oom(new_size);
        }
        let id = self.next_id;
        self.next_id = self.next_id + 1;
        let mut kept: Vec<BlockRec> = Vec::new();
        let mut j: usize = 0;
        while j < self.blocks.len()
            invariant
                self.blocks@ == pre.blocks@,
                j <= self.blocks@.len(),
                kept@ == drop_block(self.blocks@.subrange(0, j as int), block),
            decreases self.blocks@.len() - j,
        {
            let b = self.blocks[j];
            proof {
                assert(self.blocks@.subrange(0, j + 1).drop_last() =~= self.blocks@.subrange(
                    0,
                    j as int,
                ));
                assert(self.blocks@.subrange(0, j + 1).last() == self.blocks@[j as int]);
            }
            if b.id != block {
                kept.push(b);
            }
            j += 1;
        }
        kept.push(BlockRec { id: id, size: new_size });
        let mut moved: Vec<RootEntry> = Vec::new();
        let mut k: usize = 0;
        while k < self.block_ptrs.len()
            invariant
                self.block_ptrs@ == pre.block_ptrs@,
                k <= self.block_ptrs@.len(),
                moved@ == retag_entries(self.block_ptrs@.subrange(0, k as int), block, id),
            decreases self.block_ptrs@.len() - k,
        {
            let e = self.block_ptrs[k];
            proof {
                assert(self.block_ptrs@.subrange(0, k + 1).drop_last()
                    =~= self.block_ptrs@.subrange(0, k as int));
                assert(self.block_ptrs@.subrange(0, k + 1).last() == self.block_ptrs@[k as int]);
            }
            if e.block == block {
                moved.push(RootEntry { block: id, ptr: e.ptr });
            } else {
                moved.push(e);
            }
            k += 1;
        }
        proof {
            assert(self.blocks@.subrange(0, self.blocks@.len() as int) =~= self.blocks@);
            assert(self.block_ptrs@.subrange(0, self.block_ptrs@.len() as int)
                =~= self.block_ptrs@);
        }
        self.blocks = kept;
        self.block_ptrs = moved;
        if fm >= new_size {
            self.free_bytes_lb = fm - new_size;
        } else {
            self.heap_bytes = self.heap_bytes + (new_size - fm);
            self.free_bytes_lb = 0;
        }
        self.total_alloc_bytes = self.total_alloc_bytes + new_size;
        self.since_gc_bytes = self.since_gc_bytes + new_size;
        proof {
            let base = drop_block(pre.blocks@, block);
            lemma_drop_block_unique(pre.blocks@, block);
            assert forall|t: int|
                0 <= t < base.len() implies 0 < (#[trigger] base[t]).id < pre.next_id by {
                assert(base.contains(base[t]));
                lemma_drop_block_membership(pre.blocks@, block, base[t]);
                let u = choose|u: int| 0 <= u < pre.blocks@.len() && pre.blocks@[u] == base[t];
            }
            assert(self.blocks@ == base.push(BlockRec { id: id, size: new_size }));
            assert forall|t: int|
                0 <= t < self.blocks@.len() implies 0 < (#[trigger] self.blocks@[t]).id
                < self.next_id by {
                if t < base.len() {
                    assert(self.blocks@[t] == base[t]);
                }
            }
            assert(block_ids_unique(self.blocks@)) by {
                assert forall|t: int, u: int|
                    0 <= t < u < self.blocks@.len() implies (#[trigger] self.blocks@[t]).id != (
                #[trigger] self.blocks@[u]).id by {
                    if u < base.len() {
                        assert(self.blocks@[t] == base[t] && self.blocks@[u] == base[u]);
                    } else {
                        assert(self.blocks@[u].id == id);
                        assert(self.blocks@[t] == base[t]);
                    }
                }
            }
            assert(has_block(self.blocks@, id)) by {
                assert(self.blocks@[base.len() as int].id == id);
            }
            assert forall|t: int|
                0 <= t < self.block_ptrs@.len() implies has_block(
                self.blocks@,
                (#[trigger] self.block_ptrs@[t]).block,
            ) && has_obj(self.objects@, self.block_ptrs@[t].ptr) by {
                assert(self.block_ptrs@.contains(self.block_ptrs@[t]));
                lemma_retag_entries_membership(pre.block_ptrs@, block, id, self.block_ptrs@[t]);
                if self.block_ptrs@[t].block == id && exists|u: int|
                    0 <= u < pre.block_ptrs@.len() && (#[trigger] pre.block_ptrs@[u]).ptr
                        == self.block_ptrs@[t].ptr {
                    let u = choose|u: int|
                        0 <= u < pre.block_ptrs@.len() && (#[trigger] pre.block_ptrs@[u]).ptr
                            == self.block_ptrs@[t].ptr;
                    assert(has_obj(pre.objects@, pre.block_ptrs@[u].ptr));
                } else {
                    let e = self.block_ptrs@[t];
                    assert(e.block != block && pre.block_ptrs@.contains(e));
                    let u = choose|u: int|
                        0 <= u < pre.block_ptrs@.len() && pre.block_ptrs@[u] == e;
                    assert(has_block(pre.blocks@, e.block));
                    let v = choose|v: int|
                        0 <= v < pre.blocks@.len() && (#[trigger] pre.blocks@[v]).id == e.block;
                    lemma_drop_block_membership(pre.blocks@, block, pre.blocks@[v]);
                    assert(base.contains(pre.blocks@[v]));
                    let w = choose|w: int| 0 <= w < base.len() && base[w] == pre.blocks@[v];
                    assert(self.blocks@[w] == base[w]);
                }
            }
        }
        id
    }

    /// Resizes a block exactly as `reallocate` does. The name promises
    /// more than the engine delivers: the underlying primitive does not
    /// guarantee address stability, so "in place" is a documented
    /// misnomer inherited from the boundary, and callers must treat the
    /// returned handle as a move here too.
    pub fn reallocate_in_place(
        &mut self,
        block: usize,
        old_size: usize,
        new_size: usize,
        align: usize,
    ) -> (r: usize)
        requires
            old(self).wf(),
            has_block(old(self).blocks@, block),
        ensures
            final(self).wf(),
            old(self).can_reallocate(block, new_size) ==> {
                &&& r == old(self).next_id && r != 0
                &&& final(self).blocks@ == drop_block(old(self).blocks@, block).push(
                    BlockRec { id: r, size: new_size },
                )
                &&& final(self).block_ptrs@ == retag_entries(old(self).block_ptrs@, block, r)
                &&& final(self).next_id == old(self).next_id + 1
                &&& final(self).heap_bytes == old(self).heap_after_realloc(block, new_size)
                &&& final(self).free_bytes_lb == old(self).free_after_realloc(block, new_size)
                &&& final(self).total_alloc_bytes == old(self).total_alloc_bytes + new_size
                &&& final(self).since_gc_bytes == old(self).since_gc_bytes + new_size
                &&& old(self).same_heap_objects(*final(self))
                &&& old(self).same_gating(*final(self))
                &&& final(self).oom_events@ == old(self).oom_events@
            },
            !old(self).can_reallocate(block, new_size) ==> r == 0 && old(self).oom_signalled(
                *final(self),
                new_size,
            ),
    {
        self.reallocate(block, old_size, new_size, align)
    }
}

} // verus!
