//! The finalization subsystem: attaching a cleanup callback, with its
//! opaque data and cycle policy, to a collected object — at most one
//! record per object, replacement yielding the previous record.

use vstd::prelude::*;
use crate::state::{
    drop_record, has_obj, has_record, lemma_drop_record_membership, lemma_drop_record_unique,
    lemma_rec_for_index, lemma_rec_for_some, rec_for, Collector, FinalizerMode, FinalizerRecord,
    FiredEvent,
};
use crate::collect::fired_events_of;

verus! {

impl Collector {
    /// What a registration does: the record table loses any record of the
    /// target and gains the new one; the previous record's callback/data
    /// pair — or its absence — is the call's artifact; nothing else moves.
    pub open spec fn register_post(
        self,
        post: Collector,
        target: usize,
        callback: usize,
        data: usize,
        mode: FinalizerMode,
        prev: Option<(usize, usize)>,
    ) -> bool {
        &&& prev == (match rec_for(self.records@, target) {
            Some(r) => Some((r.callback, r.data)),
            None => None::<(usize, usize)>,
        })
        &&& post.records@ == drop_record(self.records@, target).push(
            FinalizerRecord { target: target, callback: callback, data: data, mode: mode },
        )
        &&& post.objects@ == self.objects@
        &&& post.refs@ == self.refs@
        &&& post.fired@ == self.fired@
        &&& self.same_adapter(post)
        &&& self.same_gating(post)
        &&& self.same_stats(post)
        &&& post.oom_events@ == self.oom_events@
        &&& post.next_id == self.next_id
    }

    /// Attaches a finalizer to a collected object: once the object
    /// becomes unreachable, a collection pass invokes `callback` with the
    /// object and `data` — exactly once, just before the memory goes —
    /// under the cycle policy `mode`. At most one record exists per
    /// object: registering again replaces the record atomically and
    /// returns the previous callback/data pair rather than dropping it.
    /// Registering against a pointer the collected heap does not manage
    /// is excluded by contract: the boundary declares it undefined.
    pub fn register_finalizer(
        &mut self,
        target: usize,
        callback: usize,
        data: usize,
        mode: FinalizerMode,
    ) -> (prev: Option<(usize, usize)>)
        requires
            old(self).wf(),
            has_obj(old(self).objects@, target),
        ensures
            final(self).wf(),
            old(self).register_post(*final(self), target, callback, data, mode, prev),
    {
        let ghost s = *old(self);
        let mut prev: Option<(usize, usize)> = None;
        let mut kept: Vec<FinalizerRecord> = Vec::new();
        let mut i: usize = 0;
        while i < self.records.len()
            invariant
                *self == s,
                s.wf(),
                i <= self.records@.len(),
                kept@ == drop_record(self.records@.subrange(0, i as int), target),
                prev == (match rec_for(self.records@.subrange(0, i as int), target) {
                    Some(r) => Some((r.callback, r.data)),
                    None => None::<(usize, usize)>,
                }),
            decreases self.records@.len() - i,
        {
            let r = self.records[i];
            proof {
                assert(self.records@.subrange(0, i + 1).drop_last() =~= self.records@.subrange(
                    0,
                    i as int,
                ));
                assert(self.records@.subrange(0, i + 1).last() == self.records@[i as int]);
            }
            if r.target == target {
                prev = Some((r.callback, r.data));
            } else {
                kept.push(r);
            }
            i += 1;
        }
        proof {
            assert(self.records@.subrange(0, self.records@.len() as int) =~= self.records@);
        }
        kept.push(FinalizerRecord { target: target, callback: callback, data: data, mode: mode });
        self.records = kept;
        proof {
            let base = drop_record(s.records@, target);
            lemma_drop_record_unique(s.records@, target);
            assert forall|t: int, u: int|
                0 <= t < u < self.records@.len() implies (#[trigger] self.records@[t]).target != (
            #[trigger] self.records@[u]).target by {
                if u == base.len() {
                    assert(self.records@[t] == base[t]);
                } else {
                    assert(self.records@[t] == base[t] && self.records@[u] == base[u]);
                }
            }
            assert forall|t: int|
                0 <= t < self.records@.len() implies has_obj(
                self.objects@,
                (#[trigger] self.records@[t]).target,
            ) by {
                if t < base.len() {
                    assert(self.records@[t] == base[t]);
                    assert(base.contains(base[t]));
                    lemma_drop_record_membership(s.records@, target, base[t]);
                    let u = choose|u: int| 0 <= u < s.records@.len() && s.records@[u] == base[t];
                } else {
                    assert(self.records@[t].target == target);
                }
            }
        }
        prev
    }
}

/// Law: registering a finalizer for a fresh pointer, then registering
/// again for the same pointer, yields the first record's callback/data
/// pair as the second call's "previous" artifact; afterwards the table
/// holds only the second record for the pointer, and any collection pass
/// that finalizes the pointer runs the second callback with the second
/// data word, never the first.
pub proof fn lemma_register_replaces(
    s0: Collector,
    s1: Collector,
    s2: Collector,
    p: usize,
    f1: usize,
    d1: usize,
    m1: FinalizerMode,
    r1: Option<(usize, usize)>,
    f2: usize,
    d2: usize,
    m2: FinalizerMode,
    r2: Option<(usize, usize)>,
)
    requires
        s0.wf(),
        !has_record(s0.records@, p),
        s0.register_post(s1, p, f1, d1, m1, r1),
        s1.register_post(s2, p, f2, d2, m2, r2),
    ensures
        r1 == None::<(usize, usize)>,
        r2 == Some((f1, d1)),
        rec_for(s2.records@, p) == Some(
            FinalizerRecord { target: p, callback: f2, data: d2, mode: m2 },
        ),
        forall|ev: FiredEvent|
            fired_events_of(s2, s2.records@).contains(ev) && (#[trigger] ev.target) == p
                ==> ev.callback == f2 && ev.data == d2,
{
    lemma_rec_for_some(s0.records@, p);
    let rec1 = FinalizerRecord { target: p, callback: f1, data: d1, mode: m1 };
    let rec2 = FinalizerRecord { target: p, callback: f2, data: d2, mode: m2 };
    assert(s1.records@ == drop_record(s0.records@, p).push(rec1));
    assert(s1.records@.last() == rec1);
    assert(rec_for(s1.records@, p) == Some(rec1));
    assert(s2.records@ == drop_record(s1.records@, p).push(rec2));
    assert(rec_for(s2.records@, p) == Some(rec2));
    assert forall|ev: FiredEvent|
        fired_events_of(s2, s2.records@).contains(ev) && (#[trigger] ev.target) == p
        implies ev.callback == f2 && ev.data == d2 by {
        crate::collect::lemma_fired_events_membership(s2, s2.records@, ev);
        let i = choose|i: int|
            0 <= i < s2.records@.len() && s2.fires(#[trigger] s2.records@[i]) && ev
                == (FiredEvent {
                callback: s2.records@[i].callback,
                target: s2.records@[i].target,
                data: s2.records@[i].data,
            });
        if i < s2.records@.len() - 1 {
            let base = drop_record(s1.records@, p);
            assert(s2.records@[i] == base[i]);
            assert(base.contains(base[i]));
            lemma_drop_record_membership(s1.records@, p, base[i]);
        } else {
            assert(s2.records@[i] == rec2);
        }
    }
}

} // verus!
