//! The model state: blocks, objects, roots, references, finalizer records,
//! counters — together with its well-formedness invariant and the basic
//! spec-level operations on the record sequences.

use vstd::prelude::*;

verus! {

/// Cycle-handling policy used when the engine orders finalizers.
///
/// The engine builds the graph of registered, no-longer-reachable objects
/// and finalizes them in dependency order. The policy decides what happens
/// to objects that sit on a cycle of that graph.
#[derive(Clone, Copy, Debug, PartialEq, Eq, Structural)]
pub enum FinalizerMode {
    /// Strict dependency order: an object participating in a cycle —
    /// including an object pointing to itself — is never finalized.
    Standard,
    /// Like `Standard`, but an object's pointer to itself is not treated
    /// as a cycle edge, so self-referential objects are finalized.
    IgnoreSelf,
    /// Every registered unreachable object is finalized, with no ordering
    /// guarantee and no cycle exclusion.
    NoOrder,
}

/// A manually managed block handed out by the allocation adapter.
/// Its lifetime is the caller's; its contents are scanned for roots.
#[derive(Clone, Copy, Debug, PartialEq, Eq, Structural)]
pub struct BlockRec {
    /// Nonzero handle standing in for the block's address.
    pub id: usize,
    /// Size in bytes that was requested for the block.
    pub size: usize,
}

/// An object on the collected heap; reclaimed only by reachability.
#[derive(Clone, Copy, Debug, PartialEq, Eq, Structural)]
pub struct ObjRec {
    /// Nonzero handle standing in for the collected pointer.
    pub id: usize,
    /// Size in bytes that was requested for the object.
    pub size: usize,
}

/// A collected pointer stored inside a scanned block: a root.
#[derive(Clone, Copy, Debug, PartialEq, Eq, Structural)]
pub struct RootEntry {
    /// The scanned block the pointer is stored in.
    pub block: usize,
    /// The collected object the stored pointer designates.
    pub ptr: usize,
}

/// A pointer from one collected object to another.
#[derive(Clone, Copy, Debug, PartialEq, Eq, Structural)]
pub struct RefEdge {
    /// The object holding the pointer.
    pub src: usize,
    /// The object pointed to.
    pub dst: usize,
}

/// The cleanup callback registered for one collected object, with its
/// opaque data word and ordering policy. At most one record exists per
/// object at any time.
#[derive(Clone, Copy, Debug, PartialEq, Eq, Structural)]
pub struct FinalizerRecord {
    /// The collected object the record is attached to.
    pub target: usize,
    /// Handle for the callback function.
    pub callback: usize,
    /// Opaque word handed to the callback alongside the target.
    pub data: usize,
    /// How the ordering pass treats cycles involving this object.
    pub mode: FinalizerMode,
}

/// One finalizer invocation, as recorded by a collection pass.
#[derive(Clone, Copy, Debug, PartialEq, Eq, Structural)]
pub struct FiredEvent {
    /// The callback that was invoked.
    pub callback: usize,
    /// The object being finalized; first argument of the callback.
    pub target: usize,
    /// The opaque data word; second argument of the callback.
    pub data: usize,
}

/// One invocation of the out-of-memory handler.
#[derive(Clone, Copy, Debug, PartialEq, Eq, Structural)]
pub struct OomEvent {
    /// The handler that was invoked.
    pub handler: usize,
    /// The number of bytes that could not be satisfied.
    pub bytes: usize,
}

/// The whole model state: the engine's bookkeeping as one explicit owner,
/// in place of the process-wide mutable state of a real engine.
pub struct Collector {
    /// Scanned blocks handed out by the adapter and not yet deallocated.
    pub blocks: Vec<BlockRec>,
    /// Collected pointers currently stored inside scanned blocks.
    pub block_ptrs: Vec<RootEntry>,
    /// Live objects of the collected heap.
    pub objects: Vec<ObjRec>,
    /// Pointers between collected objects.
    pub refs: Vec<RefEdge>,
    /// Active finalizer records, at most one per object.
    pub records: Vec<FinalizerRecord>,
    /// Every finalizer invocation so far, in invocation order.
    pub fired: Vec<FiredEvent>,
    /// Every out-of-memory handler invocation so far.
    pub oom_events: Vec<OomEvent>,
    /// The process-wide out-of-memory handler; unset until first set,
    /// then only ever replaced.
    pub oom_handler: Option<usize>,
    /// The collection-enable counter: disable calls minus enable calls.
    /// Collection is permitted exactly when it is zero; it goes negative
    /// when enable calls outnumber disable calls.
    pub disable_depth: i64,
    /// Bytes in the managed heap, empty space included.
    pub heap_bytes: usize,
    /// Conservative lower bound on the free bytes of the heap.
    pub free_bytes_lb: usize,
    /// Bytes allocated since the last collection pass.
    pub since_gc_bytes: usize,
    /// Bytes allocated over the life of the process.
    pub total_alloc_bytes: usize,
    /// Next fresh handle; all existing handles are smaller.
    pub next_id: usize,
}

impl Collector {
    /// A fresh engine: no blocks, no objects, no records, counter zero,
    /// no out-of-memory handler installed.
    pub fn new() -> (c: Collector)
        ensures
            c.wf(),
            c.blocks@ == Seq::<BlockRec>::empty(),
            c.block_ptrs@ == Seq::<RootEntry>::empty(),
            c.objects@ == Seq::<ObjRec>::empty(),
            c.refs@ == Seq::<RefEdge>::empty(),
            c.records@ == Seq::<FinalizerRecord>::empty(),
            c.fired@ == Seq::<FiredEvent>::empty(),
            c.oom_events@ == Seq::<OomEvent>::empty(),
            c.oom_handler == Option::<usize>::None,
            c.disable_depth == 0i64,
            c.heap_bytes == 0usize,
            c.free_bytes_lb == 0usize,
            c.since_gc_bytes == 0usize,
            c.total_alloc_bytes == 0usize,
            c.next_id == 1usize,
    {
        Collector {
            blocks: Vec::new(),
            block_ptrs: Vec::new(),
            objects: Vec::new(),
            refs: Vec::new(),
            records: Vec::new(),
            fired: Vec::new(),
            oom_events: Vec::new(),
            oom_handler: None,
            disable_depth: 0,
            heap_bytes: 0,
            free_bytes_lb: 0,
            since_gc_bytes: 0,
            total_alloc_bytes: 0,
            next_id: 1,
        }
    }

    /// Well-formedness: handles are nonzero, below the freshness bound and
    /// unique; every root entry names an existing block and object; every
    /// reference edge joins existing objects; every record targets an
    /// existing object, one record per object; the free-byte lower bound
    /// never exceeds the heap size; and the bytes allocated since the
    /// last collection never exceed the bytes allocated overall.
    pub open spec fn wf(self) -> bool {
        &&& self.next_id >= 1
        &&& forall|i: int|
            0 <= i < self.blocks@.len() ==> 0 < (#[trigger] self.blocks@[i]).id < self.next_id
        &&& forall|i: int|
            0 <= i < self.objects@.len() ==> 0 < (#[trigger] self.objects@[i]).id < self.next_id
        &&& block_ids_unique(self.blocks@)
        &&& obj_ids_unique(self.objects@)
        &&& forall|i: int|
            0 <= i < self.block_ptrs@.len() ==> has_block(
                self.blocks@,
                (#[trigger] self.block_ptrs@[i]).block,
            ) && has_obj(self.objects@, self.block_ptrs@[i].ptr)
        &&& forall|i: int|
            0 <= i < self.refs@.len() ==> has_obj(self.objects@, (#[trigger] self.refs@[i]).src)
                && has_obj(self.objects@, self.refs@[i].dst)
        &&& forall|i: int|
            0 <= i < self.records@.len() ==> has_obj(
                self.objects@,
                (#[trigger] self.records@[i]).target,
            )
        &&& targets_unique(self.records@)
        &&& self.free_bytes_lb <= self.heap_bytes
        &&& self.since_gc_bytes <= self.total_alloc_bytes
    }

    /// Collection is permitted exactly when the counter is zero.
    pub open spec fn collection_enabled(self) -> bool {
        self.disable_depth == 0
    }
}

/// Some block carries this handle.
pub open spec fn has_block(blocks: Seq<BlockRec>, id: usize) -> bool {
    exists|i: int| 0 <= i < blocks.len() && (#[trigger] blocks[i]).id == id
}

/// Some object carries this handle.
pub open spec fn has_obj(objs: Seq<ObjRec>, id: usize) -> bool {
    exists|i: int| 0 <= i < objs.len() && (#[trigger] objs[i]).id == id
}

/// Some record targets this handle.
pub open spec fn has_record(recs: Seq<FinalizerRecord>, id: usize) -> bool {
    exists|i: int| 0 <= i < recs.len() && (#[trigger] recs[i]).target == id
}

/// No two blocks share a handle.
pub open spec fn block_ids_unique(blocks: Seq<BlockRec>) -> bool {
    forall|i: int, j: int|
        0 <= i < j < blocks.len() ==> (#[trigger] blocks[i]).id != (#[trigger] blocks[j]).id
}

/// No two objects share a handle.
pub open spec fn obj_ids_unique(objs: Seq<ObjRec>) -> bool {
    forall|i: int, j: int|
        0 <= i < j < objs.len() ==> (#[trigger] objs[i]).id != (#[trigger] objs[j]).id
}

/// No two records target the same object.
pub open spec fn targets_unique(recs: Seq<FinalizerRecord>) -> bool {
    forall|i: int, j: int|
        0 <= i < j < recs.len() ==> (#[trigger] recs[i]).target != (#[trigger] recs[j]).target
}

/// The block carrying this handle, if any.
pub open spec fn blk_for(blocks: Seq<BlockRec>, id: usize) -> Option<BlockRec>
    decreases blocks.len(),
{
    if blocks.len() == 0 {
        None
    } else if blocks.last().id == id {
        Some(blocks.last())
    } else {
        blk_for(blocks.drop_last(), id)
    }
}

/// The record targeting this handle, if any.
pub open spec fn rec_for(recs: Seq<FinalizerRecord>, id: usize) -> Option<FinalizerRecord>
    decreases recs.len(),
{
    if recs.len() == 0 {
        None
    } else if recs.last().target == id {
        Some(recs.last())
    } else {
        rec_for(recs.drop_last(), id)
    }
}

/// The blocks with this handle removed.
pub open spec fn drop_block(blocks: Seq<BlockRec>, id: usize) -> Seq<BlockRec>
    decreases blocks.len(),
{
    if blocks.len() == 0 {
        blocks
    } else if blocks.last().id == id {
        drop_block(blocks.drop_last(), id)
    } else {
        drop_block(blocks.drop_last(), id).push(blocks.last())
    }
}

/// The records with this target removed.
pub open spec fn drop_record(recs: Seq<FinalizerRecord>, id: usize) -> Seq<FinalizerRecord>
    decreases recs.len(),
{
    if recs.len() == 0 {
        recs
    } else if recs.last().target == id {
        drop_record(recs.drop_last(), id)
    } else {
        drop_record(recs.drop_last(), id).push(recs.last())
    }
}

/// The root entries with this block's entries removed.
pub open spec fn drop_entries(entries: Seq<RootEntry>, block: usize) -> Seq<RootEntry>
    decreases entries.len(),
{
    if entries.len() == 0 {
        entries
    } else if entries.last().block == block {
        drop_entries(entries.drop_last(), block)
    } else {
        drop_entries(entries.drop_last(), block).push(entries.last())
    }
}

/// The root entries with every entry of one block moved to another block:
/// what a resize that changes the block's address does to scan visibility.
pub open spec fn retag_entries(entries: Seq<RootEntry>, from: usize, to: usize) -> Seq<RootEntry>
    decreases entries.len(),
{
    if entries.len() == 0 {
        entries
    } else if entries.last().block == from {
        retag_entries(entries.drop_last(), from, to).push(
            RootEntry { block: to, ptr: entries.last().ptr },
        )
    } else {
        retag_entries(entries.drop_last(), from, to).push(entries.last())
    }
}

/// The collected pointers stored in scanned memory, in storage order:
/// the engine's root set.
pub open spec fn root_ids(entries: Seq<RootEntry>) -> Seq<usize>
    decreases entries.len(),
{
    if entries.len() == 0 {
        Seq::empty()
    } else {
        root_ids(entries.drop_last()).push(entries.last().ptr)
    }
}

/// On a handle-unique sequence, `blk_for` returns the block at any index
/// carrying the handle.
pub proof fn lemma_blk_for_index(blocks: Seq<BlockRec>, i: int)
    requires
        block_ids_unique(blocks),
        0 <= i < blocks.len(),
    ensures
        blk_for(blocks, blocks[i].id) == Some(blocks[i]),
    decreases blocks.len(),
{
    if i == blocks.len() - 1 {
    } else {
        assert(blocks.drop_last()[i] == blocks[i]);
        lemma_blk_for_index(blocks.drop_last(), i);
    }
}

/// `rec_for` finds a record exactly when one targets the handle.
pub proof fn lemma_rec_for_some(recs: Seq<FinalizerRecord>, id: usize)
    ensures
        rec_for(recs, id).is_some() <==> has_record(recs, id),
        rec_for(recs, id).is_some() ==> recs.contains(rec_for(recs, id).unwrap())
            && rec_for(recs, id).unwrap().target == id,
    decreases recs.len(),
{
    if recs.len() > 0 {
        lemma_rec_for_some(recs.drop_last(), id);
        if recs.last().target != id {
            if has_record(recs, id) {
                let i = choose|i: int| 0 <= i < recs.len() && (#[trigger] recs[i]).target == id;
                assert(recs.drop_last()[i] == recs[i]);
            }
            if rec_for(recs.drop_last(), id).is_some() {
                let r = rec_for(recs.drop_last(), id).unwrap();
                let i = choose|i: int| 0 <= i < recs.drop_last().len() && recs.drop_last()[i] == r;
                assert(recs[i] == r);
            }
        }
    }
}

/// On a target-unique sequence, `rec_for` returns the record at any index
/// targeting the handle.
pub proof fn lemma_rec_for_index(recs: Seq<FinalizerRecord>, i: int)
    requires
        targets_unique(recs),
        0 <= i < recs.len(),
    ensures
        rec_for(recs, recs[i].target) == Some(recs[i]),
    decreases recs.len(),
{
    if i == recs.len() - 1 {
    } else {
        assert(recs.drop_last()[i] == recs[i]);
        lemma_rec_for_index(recs.drop_last(), i);
    }
}


/// Membership in `drop_block`: everything but the dropped handle survives.
pub proof fn lemma_drop_block_membership(blocks: Seq<BlockRec>, id: usize, b: BlockRec)
    ensures
        drop_block(blocks, id).contains(b) <==> blocks.contains(b) && b.id != id,
    decreases blocks.len(),
{
    if blocks.len() > 0 {
        let dl = blocks.drop_last();
        let last = blocks.last();
        lemma_drop_block_membership(dl, id, b);
        assert(blocks[blocks.len() - 1] == last);
        if blocks.contains(b) && b != last {
            let i = choose|i: int| 0 <= i < blocks.len() && blocks[i] == b;
            assert(dl[i] == b);
        }
        if dl.contains(b) {
            let i = choose|i: int| 0 <= i < dl.len() && dl[i] == b;
            assert(blocks[i] == b);
        }
        if last.id != id {
            vstd::seq_lib::lemma_seq_contains_after_push(drop_block(dl, id), last, b);
        }
    }
}

/// Dropping a handle preserves handle uniqueness.
pub proof fn lemma_drop_block_unique(blocks: Seq<BlockRec>, id: usize)
    requires
        block_ids_unique(blocks),
    ensures
        block_ids_unique(drop_block(blocks, id)),
    decreases blocks.len(),
{
    if blocks.len() > 0 {
        let dl = blocks.drop_last();
        let last = blocks.last();
        assert(block_ids_unique(dl)) by {
            assert(forall|i: int| 0 <= i < dl.len() ==> dl[i] == blocks[i]);
        }
        lemma_drop_block_unique(dl, id);
        if last.id != id {
            let d = drop_block(dl, id);
            assert(blocks[blocks.len() - 1] == last);
            assert forall|i: int, j: int| 0 <= i < j < d.push(last).len() implies (
            #[trigger] d.push(last)[i]).id != (#[trigger] d.push(last)[j]).id by {
                if j == d.len() {
                    assert(d.contains(d[i]));
                    lemma_drop_block_membership(dl, id, d[i]);
                    let k = choose|k: int| 0 <= k < dl.len() && dl[k] == d[i];
                    assert(blocks[k] == d[i]);
                }
            }
        }
    }
}

/// Membership in `drop_record`: everything but the dropped target survives.
pub proof fn lemma_drop_record_membership(recs: Seq<FinalizerRecord>, id: usize, r: FinalizerRecord)
    ensures
        drop_record(recs, id).contains(r) <==> recs.contains(r) && r.target != id,
    decreases recs.len(),
{
    if recs.len() > 0 {
        let dl = recs.drop_last();
        let last = recs.last();
        lemma_drop_record_membership(dl, id, r);
        assert(recs[recs.len() - 1] == last);
        if recs.contains(r) && r != last {
            let i = choose|i: int| 0 <= i < recs.len() && recs[i] == r;
            assert(dl[i] == r);
        }
        if dl.contains(r) {
            let i = choose|i: int| 0 <= i < dl.len() && dl[i] == r;
            assert(recs[i] == r);
        }
        if last.target != id {
            vstd::seq_lib::lemma_seq_contains_after_push(drop_record(dl, id), last, r);
        }
    }
}

/// Dropping a target preserves target uniqueness.
pub proof fn lemma_drop_record_unique(recs: Seq<FinalizerRecord>, id: usize)
    requires
        targets_unique(recs),
    ensures
        targets_unique(drop_record(recs, id)),
        forall|i: int|
            0 <= i < drop_record(recs, id).len() ==> (#[trigger] drop_record(recs, id)[i]).target
                != id,
    decreases recs.len(),
{
    assert forall|i: int|
        0 <= i < drop_record(recs, id).len() implies (#[trigger] drop_record(recs, id)[i]).target
        != id by {
        assert(drop_record(recs, id).contains(drop_record(recs, id)[i]));
        lemma_drop_record_membership(recs, id, drop_record(recs, id)[i]);
    }
    if recs.len() > 0 {
        let dl = recs.drop_last();
        let last = recs.last();
        assert(targets_unique(dl)) by {
            assert(forall|i: int| 0 <= i < dl.len() ==> dl[i] == recs[i]);
        }
        lemma_drop_record_unique(dl, id);
        if last.target != id {
            let d = drop_record(dl, id);
            assert(recs[recs.len() - 1] == last);
            assert forall|i: int, j: int| 0 <= i < j < d.push(last).len() implies (
            #[trigger] d.push(last)[i]).target != (#[trigger] d.push(last)[j]).target by {
                if j == d.len() {
                    assert(d.contains(d[i]));
                    lemma_drop_record_membership(dl, id, d[i]);
                    let k = choose|k: int| 0 <= k < dl.len() && dl[k] == d[i];
                    assert(recs[k] == d[i]);
                }
            }
        }
    }
}

/// Membership in `drop_entries`: entries of other blocks survive.
pub proof fn lemma_drop_entries_membership(entries: Seq<RootEntry>, block: usize, e: RootEntry)
    ensures
        drop_entries(entries, block).contains(e) <==> entries.contains(e) && e.block != block,
    decreases entries.len(),
{
    if entries.len() > 0 {
        let dl = entries.drop_last();
        let last = entries.last();
        lemma_drop_entries_membership(dl, block, e);
        assert(entries[entries.len() - 1] == last);
        if entries.contains(e) && e != last {
            let i = choose|i: int| 0 <= i < entries.len() && entries[i] == e;
            assert(dl[i] == e);
        }
        if dl.contains(e) {
            let i = choose|i: int| 0 <= i < dl.len() && dl[i] == e;
            assert(entries[i] == e);
        }
        if last.block != block {
            vstd::seq_lib::lemma_seq_contains_after_push(drop_entries(dl, block), last, e);
        }
    }
}

/// Every retagged entry comes from an original entry: an entry of the
/// moved block, now under the new handle, or an untouched entry of
/// another block.
pub proof fn lemma_retag_entries_membership(
    entries: Seq<RootEntry>,
    from: usize,
    to: usize,
    e: RootEntry,
)
    requires
        retag_entries(entries, from, to).contains(e),
    ensures
        (e.block == to && exists|i: int|
            0 <= i < entries.len() && (#[trigger] entries[i]).ptr == e.ptr) || (e.block != from
            && entries.contains(e)),
    decreases entries.len(),
{
    if entries.len() > 0 {
        let dl = entries.drop_last();
        let last = entries.last();
        let pushed = if last.block == from {
            RootEntry { block: to, ptr: last.ptr }
        } else {
            last
        };
        let d = retag_entries(dl, from, to);
        vstd::seq_lib::lemma_seq_contains_after_push(d, pushed, e);
        assert(entries[entries.len() - 1] == last);
        if e == pushed {
            if last.block == from {
                assert((entries[entries.len() - 1]).ptr == e.ptr);
            }
        } else {
            lemma_retag_entries_membership(dl, from, to, e);
            if e.block == to && exists|i: int| 0 <= i < dl.len() && (#[trigger] dl[i]).ptr
                == e.ptr {
                let i = choose|i: int| 0 <= i < dl.len() && (#[trigger] dl[i]).ptr == e.ptr;
                assert((entries[i]).ptr == e.ptr);
            }
            if e.block != from && dl.contains(e) {
                let i = choose|i: int| 0 <= i < dl.len() && dl[i] == e;
                assert(entries[i] == e);
            }
        }
    }
}

/// A pointer stored in the moved block stays stored — under the new
/// handle — after retagging: scan visibility does not lapse on resize.
pub proof fn lemma_retag_entries_keeps(entries: Seq<RootEntry>, from: usize, to: usize, i: int)
    requires
        0 <= i < entries.len(),
        entries[i].block == from,
    ensures
        retag_entries(entries, from, to).contains(RootEntry { block: to, ptr: entries[i].ptr }),
    decreases entries.len(),
{
    let dl = entries.drop_last();
    let last = entries.last();
    let pushed = if last.block == from {
        RootEntry { block: to, ptr: last.ptr }
    } else {
        last
    };
    let d = retag_entries(dl, from, to);
    let e = RootEntry { block: to, ptr: entries[i].ptr };
    vstd::seq_lib::lemma_seq_contains_after_push(d, pushed, e);
    if i == entries.len() - 1 {
        assert(entries[entries.len() - 1] == last);
    } else {
        assert(dl[i] == entries[i]);
        lemma_retag_entries_keeps(dl, from, to, i);
    }
}

/// Membership in the root set: exactly the stored pointers.
pub proof fn lemma_root_ids_membership(entries: Seq<RootEntry>, p: usize)
    ensures
        root_ids(entries).contains(p) <==> exists|i: int|
            0 <= i < entries.len() && (#[trigger] entries[i]).ptr == p,
    decreases entries.len(),
{
    if entries.len() > 0 {
        let dl = entries.drop_last();
        let last = entries.last();
        lemma_root_ids_membership(dl, p);
        vstd::seq_lib::lemma_seq_contains_after_push(root_ids(dl), last.ptr, p);
        assert(entries[entries.len() - 1] == last);
        if exists|i: int| 0 <= i < entries.len() && (#[trigger] entries[i]).ptr == p {
            let i = choose|i: int| 0 <= i < entries.len() && (#[trigger] entries[i]).ptr == p;
            if i < entries.len() - 1 {
                assert((dl[i]).ptr == p);
            }
        }
        if exists|i: int| 0 <= i < dl.len() && (#[trigger] dl[i]).ptr == p {
            let i = choose|i: int| 0 <= i < dl.len() && (#[trigger] dl[i]).ptr == p;
            assert((entries[i]).ptr == p);
        }
    }
}

} // verus!
