//! The collection pass: a forced, synchronous, stop-the-world trace of
//! the modelled heap. Scanned blocks root what they store; unreachable
//! objects are reclaimed; registered unreachable objects are finalized
//! according to their cycle policy, in dependency order: under the
//! ordering policies a pass finalizes only objects that no other
//! registered unreachable object reaches, deferring and retaining the
//! rest — so chains finalize top-down across passes, and cycle-bound
//! objects, mutually deferred, never fire at all.

use vstd::prelude::*;
use crate::reach::{
    find_obj, lemma_reach_empty, lemma_reach_no_incoming, lemma_reach_root, lemma_reach_step,
    lemma_reachable_mono, mark_from, reach_n, reachable,
};
use crate::state::{
    has_block, has_obj, has_record, obj_ids_unique, rec_for, root_ids, targets_unique,
    lemma_rec_for_index, lemma_rec_for_some, lemma_root_ids_membership, Collector, FinalizerMode,
    FinalizerRecord, FiredEvent, ObjRec, RefEdge, RootEntry,
};

verus! {

impl Collector {
    /// The engine's root set: every collected pointer stored in scanned
    /// memory, the only roots this model traces from.
    pub open spec fn roots(self) -> Seq<usize> {
        root_ids(self.block_ptrs@)
    }

    /// An object is live when a trace from the roots discovers it.
    pub open spec fn live(self, id: usize) -> bool {
        reachable(self.refs@, self.roots(), id)
    }

    /// Present on the heap but no longer reachable: due for reclamation.
    pub open spec fn doomed(self, id: usize) -> bool {
        has_obj(self.objects@, id) && !self.live(id)
    }

    /// Due for reclamation and carrying a finalizer record.
    pub open spec fn doomed_registered(self, id: usize) -> bool {
        self.doomed(id) && has_record(self.records@, id)
    }

    /// The finalizer graph the ordering pass works on: the references
    /// that join two registered, unreachable objects.
    pub open spec fn fin_edges(self) -> Seq<RefEdge> {
        fin_edges_of(self, self.refs@)
    }

    /// An object sits on a cycle of the finalizer graph: it reaches
    /// itself through at least one finalizer-graph edge. With
    /// `ignore_self`, its own direct pointer to itself is not counted as
    /// a first step.
    pub open spec fn on_cycle(self, x: usize, ignore_self: bool) -> bool {
        reachable(self.fin_edges(), cycle_starts_of(self, self.refs@, x, ignore_self), x)
    }

    /// Another registered, unreachable object reaches this one through
    /// the finalizer graph: its finalization must wait until that
    /// predecessor — whose callback may still access it — has been
    /// finalized and reclaimed in an earlier pass.
    pub open spec fn preceded(self, x: usize) -> bool {
        reachable(self.fin_edges(), other_doomed_ids_of(self, self.objects@, x), x)
    }

    /// Whether a collection pass runs this record's callback: its target
    /// must be unreachable, and under the two ordering policies — which
    /// finalize in an order consistent with a topological sort of the
    /// finalizer graph — the target must have no other registered
    /// unreachable object reaching it (such a predecessor is finalized
    /// in an earlier pass, so one pass's invocations are dependency-free
    /// and chains finalize top-down across passes), nor sit on a cycle —
    /// its own self-pointer counting as one under `Standard` but not
    /// under `IgnoreSelf`. Under `NoOrder` every registered unreachable
    /// object is finalized at once.
    pub open spec fn fires(self, r: FinalizerRecord) -> bool {
        self.doomed(r.target) && (r.mode == FinalizerMode::NoOrder || (!self.on_cycle(
            r.target,
            r.mode == FinalizerMode::IgnoreSelf,
        ) && !self.preceded(r.target)))
    }

    /// Withheld from finalization this pass, by cycle policy or by
    /// dependency order: such an object is neither finalized nor
    /// reclaimed — the engine retains it with its record. A deferred
    /// object fires in a later pass, once its predecessors are gone; a
    /// cycle-bound one never does, cycle exclusion being mutual
    /// deferral.
    pub open spec fn withheld(self, id: usize) -> bool {
        self.doomed_registered(id) && !self.fires(rec_for(self.records@, id).unwrap())
    }

    /// The roots of the survival trace: the stored pointers, plus the
    /// withheld objects, which stay and keep what they reference alive.
    pub open spec fn survival_roots(self) -> Seq<usize> {
        self.roots() + withheld_ids_of(self, self.objects@)
    }

    /// An object survives the pass: reachable from the stored pointers,
    /// or retained as withheld, or referenced by something retained —
    /// an unreachable, unregistered object referenced by a withheld one
    /// survives too, as it must under a conservative engine, since live
    /// memory still holds a pointer to it. Reclamation is therefore not
    /// blanket removal of the unreachable: what a retained object keeps
    /// reachable stays.
    pub open spec fn kept(self, id: usize) -> bool {
        reachable(self.refs@, self.survival_roots(), id)
    }

    /// What one enabled collection pass does: unreachable objects go —
    /// except the withheld, which stay with their records — and with
    /// them their outgoing references; the selected finalizers are
    /// invoked once each, in record order — a harmless order, since no
    /// selected target depends on another — and their records
    /// destroyed; scanned blocks are untouched; the since-collection
    /// counter restarts and the free-byte bound can only grow.
    pub open spec fn collect_post(self, post: Collector) -> bool {
        &&& post.objects@ == kept_objects_of(self, self.objects@)
        &&& post.refs@ == kept_edges_of(self, self.refs@)
        &&& post.records@ == surviving_records_of(self, self.records@)
        &&& post.fired@ == self.fired@ + fired_events_of(self, self.records@)
        &&& self.same_adapter(post)
        &&& self.same_gating(post)
        &&& post.oom_events@ == self.oom_events@
        &&& post.next_id == self.next_id
        &&& post.heap_bytes == self.heap_bytes
        &&& post.free_bytes_lb >= self.free_bytes_lb
        &&& post.since_gc_bytes == 0
        &&& post.total_alloc_bytes == self.total_alloc_bytes
    }

    /// Nothing at all changed.
    pub open spec fn same_state(self, post: Collector) -> bool {
        &&& self.same_adapter(post)
        &&& self.same_heap_objects(post)
        &&& self.same_gating(post)
        &&& self.same_stats(post)
        &&& post.oom_events@ == self.oom_events@
        &&& post.next_id == self.next_id
    }
}

/// The edges of `edges` joining two registered, unreachable objects.
pub open spec fn fin_edges_of(s: Collector, edges: Seq<RefEdge>) -> Seq<RefEdge>
    decreases edges.len(),
{
    if edges.len() == 0 {
        edges
    } else {
        let rest = fin_edges_of(s, edges.drop_last());
        if s.doomed_registered(edges.last().src) && s.doomed_registered(edges.last().dst) {
            rest.push(edges.last())
        } else {
            rest
        }
    }
}

/// The finalizer-graph successors of `x` among `edges`: the first steps
/// of any cycle through `x`. With `ignore_self`, `x` itself is not one.
pub open spec fn cycle_starts_of(s: Collector, edges: Seq<RefEdge>, x: usize, ignore_self: bool) -> Seq<
    usize,
>
    decreases edges.len(),
{
    if edges.len() == 0 {
        Seq::empty()
    } else {
        let rest = cycle_starts_of(s, edges.drop_last(), x, ignore_self);
        let e = edges.last();
        if e.src == x && s.doomed_registered(e.dst) && (!ignore_self || e.dst != x) {
            rest.push(e.dst)
        } else {
            rest
        }
    }
}

/// The handles of the registered, unreachable objects among `objs`
/// other than `x`: the possible predecessors of `x` in the finalizer
/// graph.
pub open spec fn other_doomed_ids_of(s: Collector, objs: Seq<ObjRec>, x: usize) -> Seq<usize>
    decreases objs.len(),
{
    if objs.len() == 0 {
        Seq::empty()
    } else {
        let rest = other_doomed_ids_of(s, objs.drop_last(), x);
        if s.doomed_registered(objs.last().id) && objs.last().id != x {
            rest.push(objs.last().id)
        } else {
            rest
        }
    }
}

/// The handles of the withheld objects among `objs`.
pub open spec fn withheld_ids_of(s: Collector, objs: Seq<ObjRec>) -> Seq<usize>
    decreases objs.len(),
{
    if objs.len() == 0 {
        Seq::empty()
    } else {
        let rest = withheld_ids_of(s, objs.drop_last());
        if s.withheld(objs.last().id) {
            rest.push(objs.last().id)
        } else {
            rest
        }
    }
}

/// The objects of `objs` that survive the pass, in order.
pub open spec fn kept_objects_of(s: Collector, objs: Seq<ObjRec>) -> Seq<ObjRec>
    decreases objs.len(),
{
    if objs.len() == 0 {
        objs
    } else {
        let rest = kept_objects_of(s, objs.drop_last());
        if s.kept(objs.last().id) {
            rest.push(objs.last())
        } else {
            rest
        }
    }
}

/// The references of `edges` whose holder survives the pass, in order.
pub open spec fn kept_edges_of(s: Collector, edges: Seq<RefEdge>) -> Seq<RefEdge>
    decreases edges.len(),
{
    if edges.len() == 0 {
        edges
    } else {
        let rest = kept_edges_of(s, edges.drop_last());
        if s.kept(edges.last().src) {
            rest.push(edges.last())
        } else {
            rest
        }
    }
}

/// The records of `recs` whose callback the pass does not run, in order.
pub open spec fn surviving_records_of(s: Collector, recs: Seq<FinalizerRecord>) -> Seq<
    FinalizerRecord,
>
    decreases recs.len(),
{
    if recs.len() == 0 {
        recs
    } else {
        let rest = surviving_records_of(s, recs.drop_last());
        if s.fires(recs.last()) {
            rest
        } else {
            rest.push(recs.last())
        }
    }
}

/// The finalizer invocations of the pass, in record order: each selected
/// record's callback, applied to its target and data, exactly once.
pub open spec fn fired_events_of(s: Collector, recs: Seq<FinalizerRecord>) -> Seq<FiredEvent>
    decreases recs.len(),
{
    if recs.len() == 0 {
        Seq::empty()
    } else {
        let rest = fired_events_of(s, recs.drop_last());
        if s.fires(recs.last()) {
            rest.push(
                FiredEvent {
                    callback: recs.last().callback,
                    target: recs.last().target,
                    data: recs.last().data,
                },
            )
        } else {
            rest
        }
    }
}

/// Membership in the finalizer graph.
pub proof fn lemma_fin_edges_membership(s: Collector, edges: Seq<RefEdge>, e: RefEdge)
    ensures
        fin_edges_of(s, edges).contains(e) <==> edges.contains(e) && s.doomed_registered(e.src)
            && s.doomed_registered(e.dst),
    decreases edges.len(),
{
    if edges.len() > 0 {
        let dl = edges.drop_last();
        let last = edges.last();
        lemma_fin_edges_membership(s, dl, e);
        assert(edges[edges.len() - 1] == last);
        if edges.contains(e) && e != last {
            let i = choose|i: int| 0 <= i < edges.len() && edges[i] == e;
            assert(dl[i] == e);
        }
        if dl.contains(e) {
            let i = choose|i: int| 0 <= i < dl.len() && dl[i] == e;
            assert(edges[i] == e);
        }
        if s.doomed_registered(last.src) && s.doomed_registered(last.dst) {
            vstd::seq_lib::lemma_seq_contains_after_push(fin_edges_of(s, dl), last, e);
        }
    }
}

/// Membership among the cycle starts of `x`.
pub proof fn lemma_cycle_starts_membership(
    s: Collector,
    edges: Seq<RefEdge>,
    x: usize,
    ignore_self: bool,
    d: usize,
)
    ensures
        cycle_starts_of(s, edges, x, ignore_self).contains(d) <==> exists|i: int|
            0 <= i < edges.len() && (#[trigger] edges[i]).src == x && edges[i].dst == d
                && s.doomed_registered(d) && (!ignore_self || d != x),
    decreases edges.len(),
{
    if edges.len() > 0 {
        let dl = edges.drop_last();
        let last = edges.last();
        lemma_cycle_starts_membership(s, dl, x, ignore_self, d);
        assert(edges[edges.len() - 1] == last);
        let rest = cycle_starts_of(s, dl, x, ignore_self);
        if last.src == x && s.doomed_registered(last.dst) && (!ignore_self || last.dst != x) {
            vstd::seq_lib::lemma_seq_contains_after_push(rest, last.dst, d);
        }
        if exists|i: int|
            0 <= i < edges.len() && (#[trigger] edges[i]).src == x && edges[i].dst == d
                && s.doomed_registered(d) && (!ignore_self || d != x) {
            let i = choose|i: int|
                0 <= i < edges.len() && (#[trigger] edges[i]).src == x && edges[i].dst == d
                    && s.doomed_registered(d) && (!ignore_self || d != x);
            if i < edges.len() - 1 {
                assert(dl[i] == edges[i]);
            }
        }
        if exists|i: int|
            0 <= i < dl.len() && (#[trigger] dl[i]).src == x && dl[i].dst == d
                && s.doomed_registered(d) && (!ignore_self || d != x) {
            let i = choose|i: int|
                0 <= i < dl.len() && (#[trigger] dl[i]).src == x && dl[i].dst == d
                    && s.doomed_registered(d) && (!ignore_self || d != x);
            assert(edges[i] == dl[i]);
        }
    }
}

/// Membership among the possible predecessors of `x`.
pub proof fn lemma_other_doomed_ids_membership(s: Collector, objs: Seq<ObjRec>, x: usize, z: usize)
    ensures
        other_doomed_ids_of(s, objs, x).contains(z) <==> exists|i: int|
            0 <= i < objs.len() && (#[trigger] objs[i]).id == z && s.doomed_registered(z) && z
                != x,
    decreases objs.len(),
{
    if objs.len() > 0 {
        let dl = objs.drop_last();
        let last = objs.last();
        lemma_other_doomed_ids_membership(s, dl, x, z);
        assert(objs[objs.len() - 1] == last);
        if s.doomed_registered(last.id) && last.id != x {
            vstd::seq_lib::lemma_seq_contains_after_push(
                other_doomed_ids_of(s, dl, x),
                last.id,
                z,
            );
        }
        if exists|i: int|
            0 <= i < objs.len() && (#[trigger] objs[i]).id == z && s.doomed_registered(z) && z
                != x {
            let i = choose|i: int|
                0 <= i < objs.len() && (#[trigger] objs[i]).id == z && s.doomed_registered(z)
                    && z != x;
            if i < objs.len() - 1 {
                assert(dl[i] == objs[i]);
            }
        }
        if exists|i: int|
            0 <= i < dl.len() && (#[trigger] dl[i]).id == z && s.doomed_registered(z) && z != x {
            let i = choose|i: int|
                0 <= i < dl.len() && (#[trigger] dl[i]).id == z && s.doomed_registered(z) && z
                    != x;
            assert(objs[i] == dl[i]);
        }
    }
}

/// Membership among the withheld handles.
pub proof fn lemma_withheld_ids_membership(s: Collector, objs: Seq<ObjRec>, x: usize)
    ensures
        withheld_ids_of(s, objs).contains(x) <==> exists|i: int|
            0 <= i < objs.len() && (#[trigger] objs[i]).id == x && s.withheld(x),
    decreases objs.len(),
{
    if objs.len() > 0 {
        let dl = objs.drop_last();
        let last = objs.last();
        lemma_withheld_ids_membership(s, dl, x);
        assert(objs[objs.len() - 1] == last);
        if s.withheld(last.id) {
            vstd::seq_lib::lemma_seq_contains_after_push(withheld_ids_of(s, dl), last.id, x);
        }
        if exists|i: int| 0 <= i < objs.len() && (#[trigger] objs[i]).id == x && s.withheld(x) {
            let i = choose|i: int|
                0 <= i < objs.len() && (#[trigger] objs[i]).id == x && s.withheld(x);
            if i < objs.len() - 1 {
                assert(dl[i] == objs[i]);
            }
        }
        if exists|i: int| 0 <= i < dl.len() && (#[trigger] dl[i]).id == x && s.withheld(x) {
            let i = choose|i: int| 0 <= i < dl.len() && (#[trigger] dl[i]).id == x && s.withheld(x);
            assert(objs[i] == dl[i]);
        }
    }
}

/// Membership among the surviving objects.
pub proof fn lemma_kept_objects_membership(s: Collector, objs: Seq<ObjRec>, o: ObjRec)
    ensures
        kept_objects_of(s, objs).contains(o) <==> objs.contains(o) && s.kept(o.id),
    decreases objs.len(),
{
    if objs.len() > 0 {
        let dl = objs.drop_last();
        let last = objs.last();
        lemma_kept_objects_membership(s, dl, o);
        assert(objs[objs.len() - 1] == last);
        if objs.contains(o) && o != last {
            let i = choose|i: int| 0 <= i < objs.len() && objs[i] == o;
            assert(dl[i] == o);
        }
        if dl.contains(o) {
            let i = choose|i: int| 0 <= i < dl.len() && dl[i] == o;
            assert(objs[i] == o);
        }
        if s.kept(last.id) {
            vstd::seq_lib::lemma_seq_contains_after_push(kept_objects_of(s, dl), last, o);
        }
    }
}

/// Survival preserves handle uniqueness.
pub proof fn lemma_kept_objects_unique(s: Collector, objs: Seq<ObjRec>)
    requires
        obj_ids_unique(objs),
    ensures
        obj_ids_unique(kept_objects_of(s, objs)),
    decreases objs.len(),
{
    if objs.len() > 0 {
        let dl = objs.drop_last();
        let last = objs.last();
        assert(obj_ids_unique(dl)) by {
            assert(forall|i: int| 0 <= i < dl.len() ==> dl[i] == objs[i]);
        }
        lemma_kept_objects_unique(s, dl);
        if s.kept(last.id) {
            let d = kept_objects_of(s, dl);
            assert(objs[objs.len() - 1] == last);
            assert forall|i: int, j: int|
                0 <= i < j < d.push(last).len() implies (#[trigger] d.push(last)[i]).id != (
            #[trigger] d.push(last)[j]).id by {
                if j == d.len() {
                    assert(d.contains(d[i]));
                    lemma_kept_objects_membership(s, dl, d[i]);
                    let k = choose|k: int| 0 <= k < dl.len() && dl[k] == d[i];
                    assert(objs[k] == d[i]);
                }
            }
        }
    }
}

/// Membership among the surviving references.
pub proof fn lemma_kept_edges_membership(s: Collector, edges: Seq<RefEdge>, e: RefEdge)
    ensures
        kept_edges_of(s, edges).contains(e) <==> edges.contains(e) && s.kept(e.src),
    decreases edges.len(),
{
    if edges.len() > 0 {
        let dl = edges.drop_last();
        let last = edges.last();
        lemma_kept_edges_membership(s, dl, e);
        assert(edges[edges.len() - 1] == last);
        if edges.contains(e) && e != last {
            let i = choose|i: int| 0 <= i < edges.len() && edges[i] == e;
            assert(dl[i] == e);
        }
        if dl.contains(e) {
            let i = choose|i: int| 0 <= i < dl.len() && dl[i] == e;
            assert(edges[i] == e);
        }
        if s.kept(last.src) {
            vstd::seq_lib::lemma_seq_contains_after_push(kept_edges_of(s, dl), last, e);
        }
    }
}

/// Membership among the surviving records.
pub proof fn lemma_surviving_records_membership(
    s: Collector,
    recs: Seq<FinalizerRecord>,
    r: FinalizerRecord,
)
    ensures
        surviving_records_of(s, recs).contains(r) <==> recs.contains(r) && !s.fires(r),
    decreases recs.len(),
{
    if recs.len() > 0 {
        let dl = recs.drop_last();
        let last = recs.last();
        lemma_surviving_records_membership(s, dl, r);
        assert(recs[recs.len() - 1] == last);
        if recs.contains(r) && r != last {
            let i = choose|i: int| 0 <= i < recs.len() && recs[i] == r;
            assert(dl[i] == r);
        }
        if dl.contains(r) {
            let i = choose|i: int| 0 <= i < dl.len() && dl[i] == r;
            assert(recs[i] == r);
        }
        if !s.fires(last) {
            vstd::seq_lib::lemma_seq_contains_after_push(surviving_records_of(s, dl), last, r);
        }
    }
}

/// Survival preserves target uniqueness.
pub proof fn lemma_surviving_records_unique(s: Collector, recs: Seq<FinalizerRecord>)
    requires
        targets_unique(recs),
    ensures
        targets_unique(surviving_records_of(s, recs)),
    decreases recs.len(),
{
    if recs.len() > 0 {
        let dl = recs.drop_last();
        let last = recs.last();
        assert(targets_unique(dl)) by {
            assert(forall|i: int| 0 <= i < dl.len() ==> dl[i] == recs[i]);
        }
        lemma_surviving_records_unique(s, dl);
        if !s.fires(last) {
            let d = surviving_records_of(s, dl);
            assert(recs[recs.len() - 1] == last);
            assert forall|i: int, j: int|
                0 <= i < j < d.push(last).len() implies (#[trigger] d.push(last)[i]).target != (
            #[trigger] d.push(last)[j]).target by {
                if j == d.len() {
                    assert(d.contains(d[i]));
                    lemma_surviving_records_membership(s, dl, d[i]);
                    let k = choose|k: int| 0 <= k < dl.len() && dl[k] == d[i];
                    assert(recs[k] == d[i]);
                }
            }
        }
    }
}

/// Membership among the pass's finalizer invocations: exactly the
/// selected records', and no other.
pub proof fn lemma_fired_events_membership(s: Collector, recs: Seq<FinalizerRecord>, ev: FiredEvent)
    ensures
        fired_events_of(s, recs).contains(ev) <==> exists|i: int|
            0 <= i < recs.len() && s.fires(#[trigger] recs[i]) && ev == (FiredEvent {
                callback: recs[i].callback,
                target: recs[i].target,
                data: recs[i].data,
            }),
    decreases recs.len(),
{
    if recs.len() > 0 {
        let dl = recs.drop_last();
        let last = recs.last();
        lemma_fired_events_membership(s, dl, ev);
        assert(recs[recs.len() - 1] == last);
        if s.fires(last) {
            vstd::seq_lib::lemma_seq_contains_after_push(
                fired_events_of(s, dl),
                FiredEvent { callback: last.callback, target: last.target, data: last.data },
                ev,
            );
        }
        if exists|i: int|
            0 <= i < recs.len() && s.fires(#[trigger] recs[i]) && ev == (FiredEvent {
                callback: recs[i].callback,
                target: recs[i].target,
                data: recs[i].data,
            }) {
            let i = choose|i: int|
                0 <= i < recs.len() && s.fires(#[trigger] recs[i]) && ev == (FiredEvent {
                    callback: recs[i].callback,
                    target: recs[i].target,
                    data: recs[i].data,
                });
            if i < recs.len() - 1 {
                assert(dl[i] == recs[i]);
            }
        }
        if exists|i: int|
            0 <= i < dl.len() && s.fires(#[trigger] dl[i]) && ev == (FiredEvent {
                callback: dl[i].callback,
                target: dl[i].target,
                data: dl[i].data,
            }) {
            let i = choose|i: int|
                0 <= i < dl.len() && s.fires(#[trigger] dl[i]) && ev == (FiredEvent {
                    callback: dl[i].callback,
                    target: dl[i].target,
                    data: dl[i].data,
                });
            assert(recs[i] == dl[i]);
        }
    }
}

/// The index of the record targeting a handle, by linear scan.
pub fn find_rec(records: &Vec<FinalizerRecord>, id: usize) -> (r: Option<usize>)
    ensures
        match r {
            Some(i) => i < records@.len() && records@[i as int].target == id,
            None => !has_record(records@, id),
        },
{
    let mut i: usize = 0;
    while i < records.len()
        invariant
            i <= records@.len(),
            forall|t: int| 0 <= t < i ==> (#[trigger] records@[t]).target != id,
        decreases records@.len() - i,
    {
        if records[i].target == id {
            return Some(i);
        }
        i += 1;
    }
    None
}

/// The root set as a vector: every stored pointer, in storage order.
fn gather_roots(entries: &Vec<RootEntry>) -> (r: Vec<usize>)
    ensures
        r@ == root_ids(entries@),
{
    let mut r: Vec<usize> = Vec::new();
    let mut i: usize = 0;
    while i < entries.len()
        invariant
            i <= entries@.len(),
            r@ == root_ids(entries@.subrange(0, i as int)),
        decreases entries@.len() - i,
    {
        proof {
            assert(entries@.subrange(0, i + 1).drop_last() =~= entries@.subrange(0, i as int));
            assert(entries@.subrange(0, i + 1).last() == entries@[i as int]);
        }
        r.push(entries[i].ptr);
        i += 1;
    }
    proof {
        assert(entries@.subrange(0, entries@.len() as int) =~= entries@);
    }
    r
}

/// Whether `id` is a registered, unreachable object, decided from the
/// liveness marks.
fn doomed_reg_exec(
    objects: &Vec<ObjRec>,
    records: &Vec<FinalizerRecord>,
    m: &Vec<bool>,
    Ghost(edges): Ghost<Seq<RefEdge>>,
    Ghost(roots): Ghost<Seq<usize>>,
    id: usize,
) -> (r: bool)
    requires
        m@.len() == objects@.len(),
        forall|j: int|
            0 <= j < objects@.len() ==> (m@[j] <==> reachable(
                edges,
                roots,
                (#[trigger] objects@[j]).id,
            )),
    ensures
        r == (has_obj(objects@, id) && !reachable(edges, roots, id) && has_record(records@, id)),
{
    match find_obj(objects, id) {
        Some(j) => {
            if m[j] {
                false
            } else {
                find_rec(records, id).is_some()
            }
        },
        None => false,
    }
}

impl Collector {
    /// Forces an immediate, synchronous, stop-the-world collection pass.
    /// While the collection-enable counter is nonzero the call returns
    /// normally but reclaims nothing and changes nothing; otherwise the
    /// pass behaves as `collect_post` states. Every pointer stored in a
    /// scanned block keeps its object alive: the adapter's memory roots
    /// what it holds.
    pub fn gc_collect(&mut self)
        requires
            old(self).wf(),
        ensures
            final(self).wf(),
            old(self).collection_enabled() ==> old(self).collect_post(*final(self)),
            !old(self).collection_enabled() ==> old(self).same_state(*final(self)),
    {
        if self.disable_depth != 0 {
            return;
        }
        let ghost s = *old(self);
        proof {
            assert forall|e: RefEdge| self.refs@.contains(e) implies has_obj(
                self.objects@,
                e.src,
            ) by {
                let i = choose|i: int| 0 <= i < self.refs@.len() && self.refs@[i] == e;
            }
        }
        // Trace liveness from the stored pointers.
        let roots1 = gather_roots(&self.block_ptrs);
        let m1 = mark_from(&self.objects, &self.refs, &roots1);
        // Build the finalizer graph.
        let mut fedges: Vec<RefEdge> = Vec::new();
        let mut i: usize = 0;
        while i < self.refs.len()
            invariant
                *self == s,
                s.wf(),
                i <= self.refs@.len(),
                roots1@ == s.roots(),
                m1@.len() == self.objects@.len(),
                forall|j: int|
                    0 <= j < self.objects@.len() ==> (m1@[j] <==> reachable(
                        self.refs@,
                        roots1@,
                        (#[trigger] self.objects@[j]).id,
                    )),
                fedges@ == fin_edges_of(s, self.refs@.subrange(0, i as int)),
            decreases self.refs@.len() - i,
        {
            let e = self.refs[i];
            proof {
                assert(self.refs@.subrange(0, i + 1).drop_last() =~= self.refs@.subrange(
                    0,
                    i as int,
                ));
                assert(self.refs@.subrange(0, i + 1).last() == self.refs@[i as int]);
            }
            let src_dr = doomed_reg_exec(
                &self.objects,
                &self.records,
                &m1,
                Ghost(self.refs@),
                Ghost(roots1@),
                e.src,
            );
            let dst_dr = doomed_reg_exec(
                &self.objects,
                &self.records,
                &m1,
                Ghost(self.refs@),
                Ghost(roots1@),
                e.dst,
            );
            if src_dr && dst_dr {
                fedges.push(e);
            }
            i += 1;
        }
        proof {
            assert(self.refs@.subrange(0, self.refs@.len() as int) =~= self.refs@);
            assert forall|e: RefEdge| fedges@.contains(e) implies has_obj(
                self.objects@,
                e.src,
            ) by {
                lemma_fin_edges_membership(s, s.refs@, e);
            }
        }
        // Decide, per record, whether its callback runs.
        let mut fire_flags: Vec<bool> = Vec::new();
        let mut ri: usize = 0;
        while ri < self.records.len()
            invariant
                *self == s,
                s.wf(),
                ri <= self.records@.len(),
                roots1@ == s.roots(),
                m1@.len() == self.objects@.len(),
                forall|j: int|
                    0 <= j < self.objects@.len() ==> (m1@[j] <==> reachable(
                        self.refs@,
                        roots1@,
                        (#[trigger] self.objects@[j]).id,
                    )),
                fedges@ == s.fin_edges(),
                forall|e: RefEdge| fedges@.contains(e) ==> has_obj(self.objects@, e.src),
                fire_flags@.len() == ri,
                forall|t: int|
                    0 <= t < ri ==> (#[trigger] fire_flags@[t]) == s.fires(s.records@[t]),
            decreases self.records@.len() - ri,
        {
            let r = self.records[ri];
            let j = match find_obj(&self.objects, r.target) {
                Some(j) => j,
                None => {
                    proof {
                        assert(has_obj(s.objects@, s.records@[ri as int].target));
                    }
                    vstd::pervasive::unreached()
                },
            };
            let fire: bool;
            if m1[j] {
                fire = false;
            } else {
                match r.mode {
                    FinalizerMode::NoOrder => {
                        fire = true;
                    },
                    _ => {
                        let ig = match r.mode {
                            FinalizerMode::IgnoreSelf => true,
                            _ => false,
                        };
                        // Gather the first steps of any cycle through the
                        // target, then trace the finalizer graph.
                        let mut starts: Vec<usize> = Vec::new();
                        let mut k: usize = 0;
                        while k < self.refs.len()
                            invariant
                                *self == s,
                                s.wf(),
                                k <= self.refs@.len(),
                                roots1@ == s.roots(),
                                m1@.len() == self.objects@.len(),
                                forall|j2: int|
                                    0 <= j2 < self.objects@.len() ==> (m1@[j2] <==> reachable(
                                        self.refs@,
                                        roots1@,
                                        (#[trigger] self.objects@[j2]).id,
                                    )),
                                starts@ == cycle_starts_of(
                                    s,
                                    self.refs@.subrange(0, k as int),
                                    r.target,
                                    ig,
                                ),
                            decreases self.refs@.len() - k,
                        {
                            let e = self.refs[k];
                            proof {
                                assert(self.refs@.subrange(0, k + 1).drop_last()
                                    =~= self.refs@.subrange(0, k as int));
                                assert(self.refs@.subrange(0, k + 1).last()
                                    == self.refs@[k as int]);
                            }
                            if e.src == r.target && (!ig || e.dst != r.target) {
                                let dr = doomed_reg_exec(
                                    &self.objects,
                                    &self.records,
                                    &m1,
                                    Ghost(self.refs@),
                                    Ghost(roots1@),
                                    e.dst,
                                );
                                if dr {
                                    starts.push(e.dst);
                                }
                            }
                            k += 1;
                        }
                        proof {
                            assert(self.refs@.subrange(0, self.refs@.len() as int)
                                =~= self.refs@);
                        }
                        let m2 = mark_from(&self.objects, &fedges, &starts);
                        proof {
                            assert(m2@[j as int] <==> s.on_cycle(r.target, ig));
                        }
                        // Gather every other registered unreachable
                        // object: a predecessor among them defers the
                        // target to a later pass.
                        let mut others: Vec<usize> = Vec::new();
                        let mut p: usize = 0;
                        while p < self.objects.len()
                            invariant
                                *self == s,
                                s.wf(),
                                p <= self.objects@.len(),
                                roots1@ == s.roots(),
                                m1@.len() == self.objects@.len(),
                                forall|j2: int|
                                    0 <= j2 < self.objects@.len() ==> (m1@[j2] <==> reachable(
                                        self.refs@,
                                        roots1@,
                                        (#[trigger] self.objects@[j2]).id,
                                    )),
                                others@ == other_doomed_ids_of(
                                    s,
                                    self.objects@.subrange(0, p as int),
                                    r.target,
                                ),
                            decreases self.objects@.len() - p,
                        {
                            let o = self.objects[p];
                            proof {
                                assert(self.objects@.subrange(0, p + 1).drop_last()
                                    =~= self.objects@.subrange(0, p as int));
                                assert(self.objects@.subrange(0, p + 1).last()
                                    == self.objects@[p as int]);
                            }
                            if o.id != r.target {
                                let dr = doomed_reg_exec(
                                    &self.objects,
                                    &self.records,
                                    &m1,
                                    Ghost(self.refs@),
                                    Ghost(roots1@),
                                    o.id,
                                );
                                if dr {
                                    others.push(o.id);
                                }
                            }
                            p += 1;
                        }
                        proof {
                            assert(self.objects@.subrange(0, self.objects@.len() as int)
                                =~= self.objects@);
                        }
                        let m4 = mark_from(&self.objects, &fedges, &others);
                        fire = !m2[j] && !m4[j];
                        proof {
                            assert(m4@[j as int] <==> s.preceded(r.target));
                        }
                    },
                }
            }
            fire_flags.push(fire);
            proof {
                assert(fire_flags@[ri as int] == s.fires(s.records@[ri as int]));
            }
            ri += 1;
        }
        // Every stored pointer roots the survival trace; so does every
        // withheld object, which the engine retains.
        let mut roots2 = roots1;
        let mut oi: usize = 0;
        while oi < self.objects.len()
            invariant
                *self == s,
                s.wf(),
                oi <= self.objects@.len(),
                m1@.len() == self.objects@.len(),
                forall|j: int|
                    0 <= j < self.objects@.len() ==> (m1@[j] <==> reachable(
                        self.refs@,
                        s.roots(),
                        (#[trigger] self.objects@[j]).id,
                    )),
                fire_flags@.len() == self.records@.len(),
                forall|t: int|
                    0 <= t < self.records@.len() ==> (#[trigger] fire_flags@[t]) == s.fires(
                        s.records@[t],
                    ),
                roots2@ == s.roots() + withheld_ids_of(s, self.objects@.subrange(0, oi as int)),
            decreases self.objects@.len() - oi,
        {
            let o = self.objects[oi];
            proof {
                assert(self.objects@.subrange(0, oi + 1).drop_last() =~= self.objects@.subrange(
                    0,
                    oi as int,
                ));
                assert(self.objects@.subrange(0, oi + 1).last() == self.objects@[oi as int]);
            }
            let mut excl = false;
            if !m1[oi] {
                match find_rec(&self.records, o.id) {
                    Some(rix) => {
                        if !fire_flags[rix] {
                            excl = true;
                            proof {
                                lemma_rec_for_index(s.records@, rix as int);
                                lemma_rec_for_some(s.records@, o.id);
                            }
                        } else {
                            proof {
                                lemma_rec_for_index(s.records@, rix as int);
                            }
                        }
                    },
                    None => {
                        proof {
                            lemma_rec_for_some(s.records@, o.id);
                        }
                    },
                }
            }
            proof {
                assert(excl == s.withheld(o.id));
                if excl {
                    assert((s.roots() + withheld_ids_of(s, self.objects@.subrange(0, oi as int))
                        .push(o.id)) =~= roots2@.push(o.id));
                }
            }
            if excl {
                roots2.push(o.id);
            }
            oi += 1;
        }
        proof {
            assert(self.objects@.subrange(0, self.objects@.len() as int) =~= self.objects@);
            assert(roots2@ == s.survival_roots());
        }
        // Trace survival.
        let m3 = mark_from(&self.objects, &self.refs, &roots2);
        // Reclaim: keep the surviving objects, return the bytes of the
        // reclaimed ones to the free pool, conservatively.
        let mut new_objects: Vec<ObjRec> = Vec::new();
        let mut oj: usize = 0;
        while oj < self.objects.len()
            invariant
                mid_frame(s, *self),
                s.wf(),
                oj <= self.objects@.len(),
                m3@.len() == self.objects@.len(),
                forall|j: int|
                    0 <= j < self.objects@.len() ==> (m3@[j] <==> s.kept(
                        (#[trigger] self.objects@[j]).id,
                    )),
                new_objects@ == kept_objects_of(s, self.objects@.subrange(0, oj as int)),
            decreases self.objects@.len() - oj,
        {
            let o = self.objects[oj];
            proof {
                assert(self.objects@.subrange(0, oj + 1).drop_last() =~= self.objects@.subrange(
                    0,
                    oj as int,
                ));
                assert(self.objects@.subrange(0, oj + 1).last() == self.objects@[oj as int]);
            }
            if m3[oj] {
                new_objects.push(o);
            } else {
                if o.size <= self.heap_bytes - self.free_bytes_lb {
                    self.free_bytes_lb = self.free_bytes_lb + o.size;
                } else {
                    self.free_bytes_lb = self.heap_bytes;
                }
            }
            oj += 1;
        }
        // Keep only the references of surviving objects.
        let mut new_refs: Vec<RefEdge> = Vec::new();
        let mut ej: usize = 0;
        while ej < self.refs.len()
            invariant
                mid_frame(s, *self),
                s.wf(),
                ej <= self.refs@.len(),
                m3@.len() == self.objects@.len(),
                forall|j: int|
                    0 <= j < self.objects@.len() ==> (m3@[j] <==> s.kept(
                        (#[trigger] self.objects@[j]).id,
                    )),
                new_refs@ == kept_edges_of(s, self.refs@.subrange(0, ej as int)),
            decreases self.refs@.len() - ej,
        {
            let e = self.refs[ej];
            proof {
                assert(self.refs@.subrange(0, ej + 1).drop_last() =~= self.refs@.subrange(
                    0,
                    ej as int,
                ));
                assert(self.refs@.subrange(0, ej + 1).last() == self.refs@[ej as int]);
            }
            let kept_src = match find_obj(&self.objects, e.src) {
                Some(j) => m3[j],
                None => {
                    proof {
                        assert(has_obj(s.objects@, s.refs@[ej as int].src));
                    }
                    vstd::pervasive::unreached()
                },
            };
            if kept_src {
                new_refs.push(e);
            }
            ej += 1;
        }
        // Run the selected finalizers — each exactly once, destroying its
        // record before the target's memory goes — and keep the rest.
        let mut new_records: Vec<FinalizerRecord> = Vec::new();
        let mut rj: usize = 0;
        while rj < self.records.len()
            invariant
                mid_frame(s, *self),
                s.wf(),
                rj <= self.records@.len(),
                fire_flags@.len() == self.records@.len(),
                forall|t: int|
                    0 <= t < self.records@.len() ==> (#[trigger] fire_flags@[t]) == s.fires(
                        s.records@[t],
                    ),
                new_records@ == surviving_records_of(s, self.records@.subrange(0, rj as int)),
            decreases self.records@.len() - rj,
        {
            let r = self.records[rj];
            proof {
                assert(self.records@.subrange(0, rj + 1).drop_last() =~= self.records@.subrange(
                    0,
                    rj as int,
                ));
                assert(self.records@.subrange(0, rj + 1).last() == self.records@[rj as int]);
            }
            if !fire_flags[rj] {
                new_records.push(r);
            }
            rj += 1;
        }
        let mut fired_adds: Vec<FiredEvent> = Vec::new();
        let mut fj: usize = 0;
        while fj < self.records.len()
            invariant
                mid_frame(s, *self),
                s.wf(),
                fj <= self.records@.len(),
                fire_flags@.len() == self.records@.len(),
                forall|t: int|
                    0 <= t < self.records@.len() ==> (#[trigger] fire_flags@[t]) == s.fires(
                        s.records@[t],
                    ),
                fired_adds@ == fired_events_of(s, self.records@.subrange(0, fj as int)),
            decreases self.records@.len() - fj,
        {
            let r = self.records[fj];
            proof {
                assert(self.records@.subrange(0, fj + 1).drop_last() =~= self.records@.subrange(
                    0,
                    fj as int,
                ));
                assert(self.records@.subrange(0, fj + 1).last() == self.records@[fj as int]);
            }
            if fire_flags[fj] {
                fired_adds.push(
                    FiredEvent { callback: r.callback, target: r.target, data: r.data },
                );
            }
            fj += 1;
        }
        proof {
            assert(self.objects@.subrange(0, self.objects@.len() as int) =~= self.objects@);
            assert(self.refs@.subrange(0, self.refs@.len() as int) =~= self.refs@);
            assert(self.records@.subrange(0, self.records@.len() as int) =~= self.records@);
        }
        self.objects = new_objects;
        self.refs = new_refs;
        self.records = new_records;
        let mut fa = fired_adds;
        self.fired.append(&mut fa);
        self.since_gc_bytes = 0;
        proof {
            lemma_collect_preserves_wf(s, *self);
        }
    }
}

/// The frame of the reclamation loops: everything still as at the start
/// of the pass, except that reclaimed bytes may have raised the free
/// pool — never above the heap size.
spec fn mid_frame(s: Collector, cur: Collector) -> bool {
    &&& cur.blocks@ == s.blocks@
    &&& cur.block_ptrs@ == s.block_ptrs@
    &&& cur.objects@ == s.objects@
    &&& cur.refs@ == s.refs@
    &&& cur.records@ == s.records@
    &&& cur.fired@ == s.fired@
    &&& cur.oom_events@ == s.oom_events@
    &&& cur.oom_handler == s.oom_handler
    &&& cur.disable_depth == s.disable_depth
    &&& cur.heap_bytes == s.heap_bytes
    &&& cur.since_gc_bytes == s.since_gc_bytes
    &&& cur.total_alloc_bytes == s.total_alloc_bytes
    &&& cur.next_id == s.next_id
    &&& cur.free_bytes_lb >= s.free_bytes_lb
    &&& cur.free_bytes_lb <= cur.heap_bytes
}

/// An object the survival trace reaches is among the kept objects.
proof fn lemma_kept_has_obj(s: Collector, id: usize)
    requires
        s.wf(),
        has_obj(s.objects@, id),
        s.kept(id),
    ensures
        has_obj(kept_objects_of(s, s.objects@), id),
{
    let i = choose|i: int| 0 <= i < s.objects@.len() && (#[trigger] s.objects@[i]).id == id;
    lemma_kept_objects_membership(s, s.objects@, s.objects@[i]);
    assert(s.objects@.contains(s.objects@[i]));
    let o = s.objects@[i];
    let k = choose|k: int|
        0 <= k < kept_objects_of(s, s.objects@).len() && kept_objects_of(s, s.objects@)[k] == o;
    assert((kept_objects_of(s, s.objects@)[k]).id == id);
}

/// A stored pointer is a survival root.
proof fn lemma_roots_are_survival_roots(s: Collector, p: usize)
    requires
        s.roots().contains(p),
    ensures
        s.survival_roots().contains(p),
{
    let i = choose|i: int| 0 <= i < s.roots().len() && s.roots()[i] == p;
    assert(s.survival_roots()[i] == p);
}

/// A withheld object is a survival root.
proof fn lemma_withheld_is_survival_root(s: Collector, id: usize)
    requires
        has_obj(s.objects@, id),
        s.withheld(id),
    ensures
        s.survival_roots().contains(id),
{
    lemma_withheld_ids_membership(s, s.objects@, id);
    let t = choose|t: int|
        0 <= t < withheld_ids_of(s, s.objects@).len() && withheld_ids_of(s, s.objects@)[t] == id;
    assert(s.survival_roots()[s.roots().len() + t] == id);
}

/// The state an enabled pass leaves behind is well-formed.
proof fn lemma_collect_preserves_wf(s: Collector, post: Collector)
    requires
        s.wf(),
        post.objects@ == kept_objects_of(s, s.objects@),
        post.refs@ == kept_edges_of(s, s.refs@),
        post.records@ == surviving_records_of(s, s.records@),
        post.blocks@ == s.blocks@,
        post.block_ptrs@ == s.block_ptrs@,
        post.next_id == s.next_id,
        post.free_bytes_lb <= post.heap_bytes,
        post.heap_bytes == s.heap_bytes,
        post.since_gc_bytes <= post.total_alloc_bytes,
    ensures
        post.wf(),
{
    lemma_kept_objects_unique(s, s.objects@);
    lemma_surviving_records_unique(s, s.records@);
    assert forall|i: int|
        0 <= i < post.objects@.len() implies 0 < (#[trigger] post.objects@[i]).id
        < post.next_id by {
        assert(post.objects@.contains(post.objects@[i]));
        lemma_kept_objects_membership(s, s.objects@, post.objects@[i]);
        let t = choose|t: int| 0 <= t < s.objects@.len() && s.objects@[t] == post.objects@[i];
    }
    assert forall|i: int|
        0 <= i < post.block_ptrs@.len() implies has_block(
        post.blocks@,
        (#[trigger] post.block_ptrs@[i]).block,
    ) && has_obj(post.objects@, post.block_ptrs@[i].ptr) by {
        let p = post.block_ptrs@[i].ptr;
        lemma_root_ids_membership(s.block_ptrs@, p);
        assert(s.roots().contains(p));
        lemma_roots_are_survival_roots(s, p);
        lemma_reach_root(s.refs@, s.survival_roots(), p);
        assert(has_obj(s.objects@, p));
        lemma_kept_has_obj(s, p);
    }
    assert forall|i: int|
        0 <= i < post.refs@.len() implies has_obj(post.objects@, (#[trigger] post.refs@[i]).src)
        && has_obj(post.objects@, post.refs@[i].dst) by {
        let e = post.refs@[i];
        assert(post.refs@.contains(e));
        lemma_kept_edges_membership(s, s.refs@, e);
        assert(s.refs@.contains(e) && s.kept(e.src));
        lemma_reach_step(s.refs@, s.survival_roots(), e.src, e.dst);
        let t = choose|t: int| 0 <= t < s.refs@.len() && s.refs@[t] == e;
        assert(has_obj(s.objects@, e.src) && has_obj(s.objects@, e.dst));
        lemma_kept_has_obj(s, e.src);
        lemma_kept_has_obj(s, e.dst);
    }
    assert forall|i: int|
        0 <= i < post.records@.len() implies has_obj(
        post.objects@,
        (#[trigger] post.records@[i]).target,
    ) by {
        let r = post.records@[i];
        assert(post.records@.contains(r));
        lemma_surviving_records_membership(s, s.records@, r);
        assert(s.records@.contains(r) && !s.fires(r));
        let t = choose|t: int| 0 <= t < s.records@.len() && s.records@[t] == r;
        assert(has_obj(s.objects@, r.target));
        if s.live(r.target) {
            assert forall|p: usize| s.roots().contains(p) implies s.survival_roots().contains(
                p,
            ) by {
                lemma_roots_are_survival_roots(s, p);
            }
            lemma_reachable_mono(
                s.refs@,
                s.refs@,
                s.roots(),
                s.survival_roots(),
                r.target,
            );
        } else {
            assert(s.doomed(r.target));
            lemma_rec_for_index(s.records@, t);
            assert(rec_for(s.records@, r.target) == Some(r));
            assert(s.withheld(r.target));
            lemma_withheld_is_survival_root(s, r.target);
            lemma_reach_root(s.refs@, s.survival_roots(), r.target);
        }
        assert(s.kept(r.target));
        lemma_kept_has_obj(s, r.target);
    }
}

/// No collection pass finalizes an object whose record's policy rejects
/// it: no fired event names it.
proof fn lemma_not_fired(s: Collector, x: usize)
    requires
        s.wf(),
        rec_for(s.records@, x).is_some(),
        !s.fires(rec_for(s.records@, x).unwrap()),
    ensures
        forall|ev: FiredEvent|
            fired_events_of(s, s.records@).contains(ev) ==> (#[trigger] ev.target) != x,
{
    assert forall|ev: FiredEvent|
        fired_events_of(s, s.records@).contains(ev) implies (#[trigger] ev.target) != x by {
        lemma_fired_events_membership(s, s.records@, ev);
        let i = choose|i: int|
            0 <= i < s.records@.len() && s.fires(#[trigger] s.records@[i]) && ev == (FiredEvent {
                callback: s.records@[i].callback,
                target: s.records@[i].target,
                data: s.records@[i].data,
            });
        if ev.target == x {
            lemma_rec_for_index(s.records@, i);
        }
    }
}

/// A record the pass selects contributes its invocation to the log.
proof fn lemma_fires_event(s: Collector, x: usize)
    requires
        s.wf(),
        rec_for(s.records@, x).is_some(),
        s.fires(rec_for(s.records@, x).unwrap()),
    ensures
        fired_events_of(s, s.records@).contains(
            FiredEvent {
                callback: rec_for(s.records@, x).unwrap().callback,
                target: rec_for(s.records@, x).unwrap().target,
                data: rec_for(s.records@, x).unwrap().data,
            },
        ),
{
    let r = rec_for(s.records@, x).unwrap();
    lemma_rec_for_some(s.records@, x);
    let i = choose|i: int| 0 <= i < s.records@.len() && s.records@[i] == r;
    let ev = FiredEvent { callback: r.callback, target: r.target, data: r.data };
    lemma_fired_events_membership(s, s.records@, ev);
}

/// A withheld object survives the pass.
proof fn lemma_withheld_survives(s: Collector, post: Collector, x: usize)
    requires
        s.wf(),
        s.collect_post(post),
        has_obj(s.objects@, x),
        s.withheld(x),
    ensures
        has_obj(post.objects@, x),
{
    lemma_withheld_is_survival_root(s, x);
    lemma_reach_root(s.refs@, s.survival_roots(), x);
    lemma_kept_has_obj(s, x);
}

/// Law: any collected pointer stored in a scanned block survives any
/// collection pass, even with no other root referencing it — the
/// adapter's memory roots what it holds.
pub proof fn lemma_stored_pointer_survives(s: Collector, post: Collector, block: usize, p: usize)
    requires
        s.wf(),
        s.collect_post(post),
        s.block_ptrs@.contains(RootEntry { block: block, ptr: p }),
        has_obj(s.objects@, p),
    ensures
        has_obj(post.objects@, p),
{
    lemma_root_ids_membership(s.block_ptrs@, p);
    assert(s.roots().contains(p)) by {
        let i = choose|i: int|
            0 <= i < s.block_ptrs@.len() && s.block_ptrs@[i] == (RootEntry {
                block: block,
                ptr: p,
            });
        assert((s.block_ptrs@[i]).ptr == p);
    }
    lemma_roots_are_survival_roots(s, p);
    lemma_reach_root(s.refs@, s.survival_roots(), p);
    lemma_kept_has_obj(s, p);
}

/// Two mutually referencing doomed registered objects each sit on a
/// cycle of the finalizer graph.
proof fn lemma_mutual_on_cycle(s: Collector, a: usize, b: usize)
    requires
        s.wf(),
        s.doomed_registered(a),
        s.doomed_registered(b),
        s.refs@.contains(RefEdge { src: a, dst: b }),
        s.refs@.contains(RefEdge { src: b, dst: a }),
    ensures
        s.on_cycle(a, false),
{
    let starts = cycle_starts_of(s, s.refs@, a, false);
    lemma_cycle_starts_membership(s, s.refs@, a, false, b);
    assert(starts.contains(b)) by {
        let i = choose|i: int|
            0 <= i < s.refs@.len() && s.refs@[i] == (RefEdge { src: a, dst: b });
        assert((s.refs@[i]).src == a && (s.refs@[i]).dst == b);
    }
    assert(reach_n(s.fin_edges(), starts, b, 0));
    lemma_fin_edges_membership(s, s.refs@, RefEdge { src: b, dst: a });
    assert(s.fin_edges().contains(RefEdge { src: b, dst: a }));
    assert(reach_n(s.fin_edges(), starts, a, 1));
}

/// Law: two objects referencing each other, both registered under the
/// `Standard` policy and both unreachable, are finalized by no pass —
/// each is on a cycle, so neither callback runs, and the engine retains
/// both objects and both records.
pub proof fn lemma_standard_cycle_not_finalized(s: Collector, post: Collector, a: usize, b: usize)
    requires
        s.wf(),
        s.collect_post(post),
        a != b,
        s.doomed(a),
        s.doomed(b),
        s.refs@.contains(RefEdge { src: a, dst: b }),
        s.refs@.contains(RefEdge { src: b, dst: a }),
        rec_for(s.records@, a).is_some(),
        rec_for(s.records@, a).unwrap().mode == FinalizerMode::Standard,
        rec_for(s.records@, b).is_some(),
        rec_for(s.records@, b).unwrap().mode == FinalizerMode::Standard,
    ensures
        forall|ev: FiredEvent|
            fired_events_of(s, s.records@).contains(ev) ==> (#[trigger] ev.target) != a
                && ev.target != b,
        has_obj(post.objects@, a),
        has_obj(post.objects@, b),
{
    lemma_rec_for_some(s.records@, a);
    lemma_rec_for_some(s.records@, b);
    lemma_mutual_on_cycle(s, a, b);
    lemma_mutual_on_cycle(s, b, a);
    lemma_not_fired(s, a);
    lemma_not_fired(s, b);
    lemma_withheld_survives(s, post, a);
    lemma_withheld_survives(s, post, b);
}

/// Law: a self-referencing unreachable object registered under the
/// `Standard` policy is never finalized — its pointer to itself counts
/// as a cycle — and the engine retains it.
pub proof fn lemma_self_reference_standard(s: Collector, post: Collector, a: usize)
    requires
        s.wf(),
        s.collect_post(post),
        s.doomed(a),
        s.refs@.contains(RefEdge { src: a, dst: a }),
        rec_for(s.records@, a).is_some(),
        rec_for(s.records@, a).unwrap().mode == FinalizerMode::Standard,
    ensures
        forall|ev: FiredEvent|
            fired_events_of(s, s.records@).contains(ev) ==> (#[trigger] ev.target) != a,
        has_obj(post.objects@, a),
{
    lemma_rec_for_some(s.records@, a);
    let starts = cycle_starts_of(s, s.refs@, a, false);
    lemma_cycle_starts_membership(s, s.refs@, a, false, a);
    assert(starts.contains(a)) by {
        let i = choose|i: int|
            0 <= i < s.refs@.len() && s.refs@[i] == (RefEdge { src: a, dst: a });
        assert((s.refs@[i]).src == a && (s.refs@[i]).dst == a);
    }
    assert(reach_n(s.fin_edges(), starts, a, 0));
    lemma_not_fired(s, a);
    lemma_withheld_survives(s, post, a);
}

/// Law: under the `IgnoreSelf` policy a pointer from an object to
/// itself is not a cycle edge: an unreachable registered object whose
/// only finalizer-graph neighbour — referencing or referenced — is
/// itself is finalized, and its callback lands in the log.
pub proof fn lemma_self_reference_ignored(s: Collector, a: usize)
    requires
        s.wf(),
        s.doomed(a),
        rec_for(s.records@, a).is_some(),
        rec_for(s.records@, a).unwrap().mode == FinalizerMode::IgnoreSelf,
        forall|e: RefEdge|
            s.refs@.contains(e) && (#[trigger] e.src) == a && s.doomed_registered(e.dst)
                ==> e.dst == a,
        forall|e: RefEdge|
            s.refs@.contains(e) && (#[trigger] e.dst) == a && s.doomed_registered(e.src)
                ==> e.src == a,
    ensures
        fired_events_of(s, s.records@).contains(
            FiredEvent {
                callback: rec_for(s.records@, a).unwrap().callback,
                target: a,
                data: rec_for(s.records@, a).unwrap().data,
            },
        ),
{
    lemma_rec_for_some(s.records@, a);
    let starts = cycle_starts_of(s, s.refs@, a, true);
    assert forall|x: usize| !starts.contains(x) by {
        lemma_cycle_starts_membership(s, s.refs@, a, true, x);
        if starts.contains(x) {
            let i = choose|i: int|
                0 <= i < s.refs@.len() && (#[trigger] s.refs@[i]).src == a && s.refs@[i].dst == x
                    && s.doomed_registered(x) && x != a;
            assert(s.refs@.contains(s.refs@[i]));
        }
    }
    assert(!s.on_cycle(a, true)) by {
        if s.on_cycle(a, true) {
            let k = choose|k: nat| reach_n(s.fin_edges(), starts, a, k);
            lemma_reach_empty(s.fin_edges(), starts, k);
        }
    }
    assert(!s.preceded(a)) by {
        let others = other_doomed_ids_of(s, s.objects@, a);
        lemma_other_doomed_ids_membership(s, s.objects@, a, a);
        assert forall|w: usize| #[trigger] s.fin_edges().contains(
            RefEdge { src: w, dst: a },
        ) implies w == a by {
            lemma_fin_edges_membership(s, s.refs@, RefEdge { src: w, dst: a });
        }
        lemma_reach_no_incoming(s.fin_edges(), others, a);
    }
    lemma_fires_event(s, a);
}

/// Law: dependency order, the deferral half. With `x` referencing `y`,
/// both unreachable and `y` registered under an ordering policy, `y` is
/// not finalized in a pass in which `x`'s record still stands: `y`'s
/// callback — which `x`'s own callback is entitled to precede — is
/// deferred, and the pass retains `y` with its record, to fire only in
/// a later pass, after `x` has been finalized and reclaimed.
pub proof fn lemma_chain_defers_successor(s: Collector, post: Collector, x: usize, y: usize)
    requires
        s.wf(),
        s.collect_post(post),
        x != y,
        s.doomed(x),
        s.doomed(y),
        s.refs@.contains(RefEdge { src: x, dst: y }),
        rec_for(s.records@, x).is_some(),
        rec_for(s.records@, y).is_some(),
        rec_for(s.records@, y).unwrap().mode != FinalizerMode::NoOrder,
    ensures
        forall|ev: FiredEvent|
            fired_events_of(s, s.records@).contains(ev) ==> (#[trigger] ev.target) != y,
        has_obj(post.objects@, y),
        has_record(post.records@, y),
{
    lemma_rec_for_some(s.records@, x);
    lemma_rec_for_some(s.records@, y);
    let others = other_doomed_ids_of(s, s.objects@, y);
    assert(others.contains(x)) by {
        lemma_other_doomed_ids_membership(s, s.objects@, y, x);
        let i = choose|i: int| 0 <= i < s.objects@.len() && (#[trigger] s.objects@[i]).id == x;
    }
    assert(reach_n(s.fin_edges(), others, x, 0));
    lemma_fin_edges_membership(s, s.refs@, RefEdge { src: x, dst: y });
    assert(s.fin_edges().contains(RefEdge { src: x, dst: y }));
    assert(reach_n(s.fin_edges(), others, y, 1));
    assert(s.preceded(y));
    lemma_not_fired(s, y);
    lemma_withheld_survives(s, post, y);
    let ry = rec_for(s.records@, y).unwrap();
    lemma_surviving_records_membership(s, s.records@, ry);
    assert(s.records@.contains(ry));
    assert(post.records@.contains(ry));
    let t = choose|t: int| 0 <= t < post.records@.len() && post.records@[t] == ry;
    assert((post.records@[t]).target == y);
}

/// Law: dependency order, the firing half. A registered unreachable
/// object that no registered unreachable object — itself included —
/// references heads its dependency chains: nothing defers it, and the
/// pass finalizes it under any policy, so chains are consumed top-down,
/// one link per pass.
pub proof fn lemma_chain_head_fires(s: Collector, x: usize)
    requires
        s.wf(),
        s.doomed(x),
        rec_for(s.records@, x).is_some(),
        forall|e: RefEdge|
            s.refs@.contains(e) && (#[trigger] e.dst) == x ==> !s.doomed_registered(e.src),
    ensures
        fired_events_of(s, s.records@).contains(
            FiredEvent {
                callback: rec_for(s.records@, x).unwrap().callback,
                target: x,
                data: rec_for(s.records@, x).unwrap().data,
            },
        ),
{
    lemma_rec_for_some(s.records@, x);
    let ig = rec_for(s.records@, x).unwrap().mode == FinalizerMode::IgnoreSelf;
    assert forall|w: usize| #[trigger] s.fin_edges().contains(
        RefEdge { src: w, dst: x },
    ) implies w == x by {
        lemma_fin_edges_membership(s, s.refs@, RefEdge { src: w, dst: x });
    }
    assert(!s.on_cycle(x, ig)) by {
        let starts = cycle_starts_of(s, s.refs@, x, ig);
        assert(!starts.contains(x)) by {
            lemma_cycle_starts_membership(s, s.refs@, x, ig, x);
            if starts.contains(x) {
                let i = choose|i: int|
                    0 <= i < s.refs@.len() && (#[trigger] s.refs@[i]).src == x
                        && s.refs@[i].dst == x && s.doomed_registered(x) && (!ig || x != x);
                assert(s.refs@.contains(s.refs@[i]));
            }
        }
        lemma_reach_no_incoming(s.fin_edges(), starts, x);
    }
    assert(!s.preceded(x)) by {
        let others = other_doomed_ids_of(s, s.objects@, x);
        lemma_other_doomed_ids_membership(s, s.objects@, x, x);
        lemma_reach_no_incoming(s.fin_edges(), others, x);
    }
    lemma_fires_event(s, x);
}

/// Law: under the `NoOrder` policy every registered unreachable object
/// is finalized, cycles notwithstanding; its callback lands in the log.
pub proof fn lemma_no_order_fires(s: Collector, a: usize)
    requires
        s.wf(),
        s.doomed(a),
        rec_for(s.records@, a).is_some(),
        rec_for(s.records@, a).unwrap().mode == FinalizerMode::NoOrder,
    ensures
        fired_events_of(s, s.records@).contains(
            FiredEvent {
                callback: rec_for(s.records@, a).unwrap().callback,
                target: a,
                data: rec_for(s.records@, a).unwrap().data,
            },
        ),
{
    lemma_rec_for_some(s.records@, a);
    lemma_fires_event(s, a);
}

/// Law: a record whose callback a pass runs is destroyed by that pass —
/// the table no longer holds a record for its target, so the callback
/// can never run a second time.
pub proof fn lemma_fired_record_destroyed(s: Collector, post: Collector, x: usize)
    requires
        s.wf(),
        s.collect_post(post),
        rec_for(s.records@, x).is_some(),
        s.fires(rec_for(s.records@, x).unwrap()),
    ensures
        !has_record(post.records@, x),
{
    lemma_rec_for_some(s.records@, x);
    if has_record(post.records@, x) {
        let i = choose|i: int|
            0 <= i < post.records@.len() && (#[trigger] post.records@[i]).target == x;
        assert(post.records@.contains(post.records@[i]));
        lemma_surviving_records_membership(s, s.records@, post.records@[i]);
        let t = choose|t: int|
            0 <= t < s.records@.len() && s.records@[t] == post.records@[i];
        lemma_rec_for_index(s.records@, t);
    }
}

} // verus!
