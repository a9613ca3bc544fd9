//! Reachability over the modelled object graph: the spec-level closure of
//! the root set under reference edges, and a verified marking pass that
//! computes it.

use vstd::prelude::*;
use vstd::pervasive::VecAdditionalExecFns;
use crate::state::{has_obj, obj_ids_unique, ObjRec, RefEdge};

verus! {

/// An object is reachable within `k` steps: it is a root, or one edge
/// away from something reachable within `k - 1` steps.
pub open spec fn reach_n(edges: Seq<RefEdge>, roots: Seq<usize>, b: usize, k: nat) -> bool
    decreases k,
{
    if k == 0 {
        roots.contains(b)
    } else {
        reach_n(edges, roots, b, (k - 1) as nat) || exists|a: usize|
            reach_n(edges, roots, a, (k - 1) as nat) && #[trigger] edges.contains(
                RefEdge { src: a, dst: b },
            )
    }
}

/// Reachable from the roots in any number of steps: what a scan of the
/// roots and a trace through the heap discovers.
pub open spec fn reachable(edges: Seq<RefEdge>, roots: Seq<usize>, b: usize) -> bool {
    exists|k: nat| reach_n(edges, roots, b, k)
}

/// Reachability only grows when edges or roots are added.
pub proof fn lemma_reach_n_mono(
    edges1: Seq<RefEdge>,
    edges2: Seq<RefEdge>,
    roots1: Seq<usize>,
    roots2: Seq<usize>,
    b: usize,
    k: nat,
)
    requires
        forall|e: RefEdge| edges1.contains(e) ==> edges2.contains(e),
        forall|r: usize| roots1.contains(r) ==> roots2.contains(r),
        reach_n(edges1, roots1, b, k),
    ensures
        reach_n(edges2, roots2, b, k),
    decreases k,
{
    if k == 0 {
        let i = choose|i: int| 0 <= i < roots1.len() && roots1[i] == b;
        assert(roots1.contains(b));
    } else {
        if reach_n(edges1, roots1, b, (k - 1) as nat) {
            lemma_reach_n_mono(edges1, edges2, roots1, roots2, b, (k - 1) as nat);
        } else {
            let a = choose|a: usize|
                reach_n(edges1, roots1, a, (k - 1) as nat) && #[trigger] edges1.contains(
                    RefEdge { src: a, dst: b },
                );
            lemma_reach_n_mono(edges1, edges2, roots1, roots2, a, (k - 1) as nat);
            assert(edges2.contains(RefEdge { src: a, dst: b }));
        }
    }
}

/// As `lemma_reach_n_mono`, for full reachability.
pub proof fn lemma_reachable_mono(
    edges1: Seq<RefEdge>,
    edges2: Seq<RefEdge>,
    roots1: Seq<usize>,
    roots2: Seq<usize>,
    b: usize,
)
    requires
        forall|e: RefEdge| edges1.contains(e) ==> edges2.contains(e),
        forall|r: usize| roots1.contains(r) ==> roots2.contains(r),
        reachable(edges1, roots1, b),
    ensures
        reachable(edges2, roots2, b),
{
    let k = choose|k: nat| reach_n(edges1, roots1, b, k);
    lemma_reach_n_mono(edges1, edges2, roots1, roots2, b, k);
}

/// One step from a reachable object reaches its referent.
pub proof fn lemma_reach_step(edges: Seq<RefEdge>, roots: Seq<usize>, a: usize, b: usize)
    requires
        reachable(edges, roots, a),
        edges.contains(RefEdge { src: a, dst: b }),
    ensures
        reachable(edges, roots, b),
{
    let k = choose|k: nat| reach_n(edges, roots, a, k);
    assert(reach_n(edges, roots, b, k + 1));
}

/// A root is reachable outright.
pub proof fn lemma_reach_root(edges: Seq<RefEdge>, roots: Seq<usize>, b: usize)
    requires
        roots.contains(b),
    ensures
        reachable(edges, roots, b),
{
    assert(reach_n(edges, roots, b, 0));
}

/// Nothing is reachable from an empty root set.
pub proof fn lemma_reach_empty(edges: Seq<RefEdge>, roots: Seq<usize>, k: nat)
    requires
        forall|x: usize| !roots.contains(x),
    ensures
        forall|b: usize| !#[trigger] reach_n(edges, roots, b, k),
    decreases k,
{
    if k > 0 {
        lemma_reach_empty(edges, roots, (k - 1) as nat);
    }
    assert forall|b: usize| !#[trigger] reach_n(edges, roots, b, k) by {
        if reach_n(edges, roots, b, k) {
            if k == 0 {
                assert(roots.contains(b));
            } else if !reach_n(edges, roots, b, (k - 1) as nat) {
                let a = choose|a: usize|
                    reach_n(edges, roots, a, (k - 1) as nat) && #[trigger] edges.contains(
                        RefEdge { src: a, dst: b },
                    );
                assert(!reach_n(edges, roots, a, (k - 1) as nat));
            }
        }
    }
}

/// A node that no root names and that no edge — except at most its own
/// self-edge — enters is never reached.
pub proof fn lemma_reach_no_incoming(edges: Seq<RefEdge>, roots: Seq<usize>, x: usize)
    requires
        !roots.contains(x),
        forall|w: usize| #[trigger] edges.contains(RefEdge { src: w, dst: x }) ==> w == x,
    ensures
        !reachable(edges, roots, x),
{
    assert forall|k: nat| !#[trigger] reach_n(edges, roots, x, k) by {
        lemma_reach_no_incoming_n(edges, roots, x, k);
    }
}

proof fn lemma_reach_no_incoming_n(edges: Seq<RefEdge>, roots: Seq<usize>, x: usize, k: nat)
    requires
        !roots.contains(x),
        forall|w: usize| #[trigger] edges.contains(RefEdge { src: w, dst: x }) ==> w == x,
    ensures
        !reach_n(edges, roots, x, k),
    decreases k,
{
    if k > 0 {
        lemma_reach_no_incoming_n(edges, roots, x, (k - 1) as nat);
        if reach_n(edges, roots, x, k) {
            let a = choose|a: usize|
                reach_n(edges, roots, a, (k - 1) as nat) && #[trigger] edges.contains(
                    RefEdge { src: a, dst: x },
                );
            assert(a == x);
        }
    }
}

/// Completeness of a marking: a mark assignment that covers the roots and
/// is closed under the edges covers everything reachable.
pub proof fn lemma_reach_closed(
    objects: Seq<ObjRec>,
    edges: Seq<RefEdge>,
    roots: Seq<usize>,
    marked: Seq<bool>,
    b: usize,
    k: nat,
)
    requires
        marked.len() == objects.len(),
        forall|e: RefEdge| edges.contains(e) ==> has_obj(objects, e.src),
        forall|i: int|
            0 <= i < objects.len() && roots.contains((#[trigger] objects[i]).id) ==> marked[i],
        forall|i: int, j: int, e: RefEdge|
            0 <= i < objects.len() && 0 <= j < objects.len() && marked[i] && #[trigger]
                edges.contains(e) && e.src == (#[trigger] objects[i]).id && e.dst == (
            #[trigger] objects[j]).id ==> marked[j],
        reach_n(edges, roots, b, k),
    ensures
        forall|j: int| 0 <= j < objects.len() && (#[trigger] objects[j]).id == b ==> marked[j],
    decreases k,
{
    if k == 0 {
    } else if reach_n(edges, roots, b, (k - 1) as nat) {
        lemma_reach_closed(objects, edges, roots, marked, b, (k - 1) as nat);
    } else {
        let a = choose|a: usize|
            reach_n(edges, roots, a, (k - 1) as nat) && #[trigger] edges.contains(
                RefEdge { src: a, dst: b },
            );
        lemma_reach_closed(objects, edges, roots, marked, a, (k - 1) as nat);
        assert forall|j: int|
            0 <= j < objects.len() && (#[trigger] objects[j]).id == b implies marked[j] by {
            assert(has_obj(objects, a));
            let i = choose|i: int| 0 <= i < objects.len() && (#[trigger] objects[i]).id == a;
            assert(marked[i]);
            assert(edges.contains(RefEdge { src: a, dst: b }));
        }
    }
}

/// How many flags of a mark assignment are set.
pub open spec fn count_true(m: Seq<bool>) -> nat
    decreases m.len(),
{
    if m.len() == 0 {
        0
    } else {
        (if m.last() {
            1nat
        } else {
            0nat
        }) + count_true(m.drop_last())
    }
}

/// No more flags are set than there are flags.
pub proof fn lemma_count_true_le(m: Seq<bool>)
    ensures
        count_true(m) <= m.len(),
    decreases m.len(),
{
    if m.len() > 0 {
        lemma_count_true_le(m.drop_last());
    }
}

/// Setting a clear flag raises the count by one.
pub proof fn lemma_count_true_update(m: Seq<bool>, j: int)
    requires
        0 <= j < m.len(),
        !m[j],
    ensures
        count_true(m.update(j, true)) == count_true(m) + 1,
    decreases m.len(),
{
    let u = m.update(j, true);
    if j == m.len() - 1 {
        assert(u.drop_last() =~= m.drop_last());
        assert(u.last());
    } else {
        assert(u.drop_last() =~= m.drop_last().update(j, true));
        assert(u.last() == m.last());
        lemma_count_true_update(m.drop_last(), j);
    }
}

/// The index of the object carrying a handle, by linear scan.
pub fn find_obj(objects: &Vec<ObjRec>, id: usize) -> (r: Option<usize>)
    ensures
        match r {
            Some(j) => j < objects@.len() && objects@[j as int].id == id,
            None => !has_obj(objects@, id),
        },
{
    let mut i: usize = 0;
    while i < objects.len()
        invariant
            i <= objects@.len(),
            forall|t: int| 0 <= t < i ==> (#[trigger] objects@[t]).id != id,
        decreases objects@.len() - i,
    {
        if objects[i].id == id {
            return Some(i);
        }
        i += 1;
    }
    None
}

/// Marks every object reachable from the roots: the model of the engine's
/// conservative scan. Flag `j` of the result says whether object `j` is
/// reachable.
pub fn mark_from(objects: &Vec<ObjRec>, edges: &Vec<RefEdge>, roots: &Vec<usize>) -> (m: Vec<bool>)
    requires
        obj_ids_unique(objects@),
        forall|e: RefEdge| edges@.contains(e) ==> has_obj(objects@, e.src),
    ensures
        m@.len() == objects@.len(),
        forall|j: int|
            0 <= j < objects@.len() ==> (m@[j] <==> reachable(
                edges@,
                roots@,
                (#[trigger] objects@[j]).id,
            )),
{
    let n = objects.len();
    let mut m: Vec<bool> = Vec::new();
    while m.len() < n
        invariant
            m@.len() <= n,
            forall|j: int| 0 <= j < m@.len() ==> !(#[trigger] m@[j]),
        decreases n - m@.len(),
    {
        m.push(false);
    }
    // Mark the roots themselves.
    let mut i: usize = 0;
    while i < roots.len()
        invariant
            n == objects@.len(),
            m@.len() == n,
            i <= roots@.len(),
            obj_ids_unique(objects@),
            forall|j: int|
                0 <= j < n && #[trigger] m@[j] ==> reachable(edges@, roots@, objects@[j].id),
            forall|j: int, t: int|
                0 <= j < n && 0 <= t < i && (#[trigger] objects@[j]).id == #[trigger] roots@[t]
                    ==> m@[j],
        decreases roots@.len() - i,
    {
        let r = roots[i];
        match find_obj(objects, r) {
            Some(j) => {
                proof {
                    assert(roots@[i as int] == r);
                    assert(roots@.contains(r));
                    lemma_reach_root(edges@, roots@, r);
                }
                m.set(j, true);
                proof {
                    assert forall|jj: int, t: int|
                        0 <= jj < n && 0 <= t < i + 1 && (#[trigger] objects@[jj]).id
                            == #[trigger] roots@[t] implies m@[jj] by {
                        if t < i {
                        } else {
                            assert(obj_ids_unique(objects@));
                            assert(objects@[j as int].id == r);
                            if jj != j {
                                assert(objects@[jj].id != objects@[j as int].id);
                            }
                        }
                    }
                }
            },
            None => {},
        }
        i += 1;
    }
    proof {
        lemma_count_true_le(m@);
        assert forall|j: int|
            0 <= j < n && roots@.contains((#[trigger] objects@[j]).id) implies m@[j] by {
            let t = choose|t: int| 0 <= t < roots@.len() && roots@[t] == objects@[j].id;
        }
    }
    // Propagate marks over the edges until a full pass changes nothing.
    loop
        invariant
            n == objects@.len(),
            m@.len() == n,
            obj_ids_unique(objects@),
            forall|e: RefEdge| edges@.contains(e) ==> has_obj(objects@, e.src),
            forall|j: int|
                0 <= j < n && #[trigger] m@[j] ==> reachable(edges@, roots@, objects@[j].id),
            forall|j: int|
                0 <= j < n && roots@.contains((#[trigger] objects@[j]).id) ==> m@[j],
            count_true(m@) <= n,
        ensures
            n == objects@.len(),
            m@.len() == n,
            forall|j: int|
                0 <= j < n && #[trigger] m@[j] ==> reachable(edges@, roots@, objects@[j].id),
            forall|j: int|
                0 <= j < n && roots@.contains((#[trigger] objects@[j]).id) ==> m@[j],
            forall|i: int, j: int, e: RefEdge|
                0 <= i < n && 0 <= j < n && m@[i] && #[trigger] edges@.contains(e) && e.src == (
                #[trigger] objects@[i]).id && e.dst == (#[trigger] objects@[j]).id ==> m@[j],
        decreases n - count_true(m@),
    {
        proof {
            lemma_count_true_le(m@);
        }
        let ghost m0 = m@;
        let mut changed = false;
        let mut k: usize = 0;
        while k < edges.len()
            invariant
                n == objects@.len(),
                m@.len() == n,
                k <= edges@.len(),
                obj_ids_unique(objects@),
                forall|e: RefEdge| edges@.contains(e) ==> has_obj(objects@, e.src),
                forall|j: int|
                    0 <= j < n && #[trigger] m@[j] ==> reachable(edges@, roots@, objects@[j].id),
                forall|j: int|
                    0 <= j < n && roots@.contains((#[trigger] objects@[j]).id) ==> m@[j],
                m0.len() == n,
                forall|j: int| 0 <= j < n && #[trigger] m0[j] ==> m@[j],
                changed ==> count_true(m@) > count_true(m0),
                !changed ==> m@ == m0,
                !changed ==> forall|kk: int, i: int, j: int|
                    0 <= kk < k && 0 <= i < n && 0 <= j < n && m@[i] && (
                    #[trigger] edges@[kk]).src == (#[trigger] objects@[i]).id && edges@[kk].dst
                        == (#[trigger] objects@[j]).id ==> m@[j],
            decreases edges@.len() - k,
        {
            let e = edges[k];
            proof {
                assert(edges@[k as int] == e);
                assert(edges@.contains(e));
            }
            let sj = match find_obj(objects, e.src) {
                Some(x) => x,
                None => {
                    proof {
                        assert(has_obj(objects@, e.src));
                    }
                    vstd::pervasive::unreached()
                },
            };
            if m[sj] {
                match find_obj(objects, e.dst) {
                    Some(dj) => {
                        if !m[dj] {
                            proof {
                                lemma_count_true_update(m@, dj as int);
                                lemma_count_true_le(m0);
                                lemma_reach_step(edges@, roots@, e.src, e.dst);
                            }
                            m.set(dj, true);
                            changed = true;
                        }
                    },
                    None => {},
                }
            }
            k += 1;
        }
        if !changed {
            proof {
                assert forall|i: int, j: int, e: RefEdge|
                    0 <= i < n && 0 <= j < n && m@[i] && #[trigger] edges@.contains(e) && e.src
                        == (#[trigger] objects@[i]).id && e.dst == (#[trigger] objects@[j]).id
                    implies m@[j] by {
                    let kk = choose|kk: int| 0 <= kk < edges@.len() && edges@[kk] == e;
                }
            }
            break;
        }
        proof {
            lemma_count_true_le(m@);
        }
    }
    proof {
        assert forall|j: int|
            0 <= j < objects@.len() && reachable(
                edges@,
                roots@,
                (#[trigger] objects@[j]).id,
            ) implies m@[j] by {
            let k = choose|k: nat| reach_n(edges@, roots@, objects@[j].id, k);
            lemma_reach_closed(objects@, edges@, roots@, m@, objects@[j].id, k);
        }
    }
    m
}

} // verus!
