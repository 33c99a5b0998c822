//! Heap-wide laws of the collector, proved over the model transition
//! `collect_m` that `collect_garbage` and `force_collect` are shown to
//! implement exactly.
use vstd::prelude::*;

use crate::model::{
    box_of, cand_seq, cell_of, collect_m, dec_roots_m, edge, finalize_one_m, finalize_seq_m,
    finalized_of, inc_roots_m, is_path, live, reachable, roots_of, rooted_box, sat_inc,
    set_finalized_m, sum_sizes, sum_sizes_upto, sweep_m, sweep_slot_m, wf, wf_box, BoxModel,
    HandleModel, HeapModel, ROOTS_MAX,
};
use crate::trace::FinalizerKind;

verus! {

// ---------------------------------------------------------------------------
// Reachability congruence for heaps that differ only in flag bits
// ---------------------------------------------------------------------------

/// Heaps that agree on everything reachability reads: liveness, root counts
/// and payloads.
pub open spec fn reach_base_same(m1: HeapModel, m2: HeapModel) -> bool {
    &&& m1.slots.len() == m2.slots.len()
    &&& forall|i: int|
        0 <= i < m1.slots.len() ==> ((#[trigger] m1.slots[i]) is Some <==> m2.slots[i] is Some)
    &&& forall|i: int|
        #![trigger m2.slots[i]]
        0 <= i < m1.slots.len() && m1.slots[i] is Some ==> box_of(m1, i).roots == box_of(
            m2,
            i,
        ).roots && box_of(m1, i).payload == box_of(m2, i).payload
}

pub proof fn lemma_reach_base_edge(m1: HeapModel, m2: HeapModel, i: int, j: int)
    requires
        reach_base_same(m1, m2),
        edge(m1, i, j),
    ensures
        edge(m2, i, j),
{
    assert(m1.slots[i] is Some);
    assert(m1.slots[j] is Some);
    assert(live(m2, i) && live(m2, j));
    assert(box_of(m2, i).payload == box_of(m1, i).payload);
    if exists|k: int|
        0 <= k < crate::model::children_of(m1, i).len() && crate::model::children_of(
            m1,
            i,
        )[k].idx == j {
        let k = choose|k: int|
            0 <= k < crate::model::children_of(m1, i).len() && crate::model::children_of(
                m1,
                i,
            )[k].idx == j;
        assert(crate::model::children_of(m2, i) == crate::model::children_of(m1, i));
        assert(0 <= k < crate::model::children_of(m2, i).len() && crate::model::children_of(
            m2,
            i,
        )[k].idx == j);
    } else {
        assert(cell_of(m2, i) == cell_of(m1, i));
    }
}

/// One collection neither grows nor shrinks the slot arena.
pub proof fn lemma_collect_len(m: HeapModel)
    ensures
        collect_m(m).slots.len() == m.slots.len(),
{
    let m1 = HeapModel { collections: sat_inc(m.collections), ..m };
    let cands = cand_seq(m1, m1.slots.len() as int);
    if cands.len() == 0 {
    } else {
        crate::model::lemma_finalize_seq_frame(m1, cands);
    }
}

pub proof fn lemma_reach_base_reachable(m1: HeapModel, m2: HeapModel)
    requires
        reach_base_same(m1, m2),
    ensures
        forall|i: int| reachable(m1, i) <==> reachable(m2, i),
{
    assert forall|i: int|
        0 <= i < m2.slots.len() implies ((#[trigger] m2.slots[i]) is Some <==> m1.slots[i]
        is Some) by {
        assert(m1.slots[i] is Some <==> m2.slots[i] is Some);
    }
    assert forall|i: int| reachable(m1, i) implies reachable(m2, i) by {
        let p = choose|p: Seq<int>| is_path(m1, p) && p.last() == i;
        assert(m1.slots[p[0]] is Some);
        assert(rooted_box(m2, p[0]));
        assert forall|k: int| 0 <= k < p.len() - 1 implies edge(m2, p[k], #[trigger] p[k + 1]) by {
            assert(edge(m1, p[k], p[k + 1]));
            lemma_reach_base_edge(m1, m2, p[k], p[k + 1]);
        }
        assert(is_path(m2, p));
    }
    assert(reach_base_same(m2, m1)) by {
        assert forall|i: int|
            0 <= i < m2.slots.len() implies ((#[trigger] m2.slots[i]) is Some <==> m1.slots[i]
            is Some) by {
            assert(m1.slots[i] is Some <==> m2.slots[i] is Some);
        }
        assert forall|i: int|
            #![trigger m1.slots[i]]
            0 <= i < m2.slots.len() && m2.slots[i] is Some implies box_of(m2, i).roots == box_of(
            m1,
            i,
        ).roots && box_of(m2, i).payload == box_of(m1, i).payload by {
            assert(m1.slots[i] is Some);
        }
    }
    assert forall|i: int| reachable(m2, i) implies reachable(m1, i) by {
        let p = choose|p: Seq<int>| is_path(m2, p) && p.last() == i;
        assert(m2.slots[p[0]] is Some);
        assert(m1.slots[p[0]] is Some);
        assert(rooted_box(m1, p[0]));
        assert forall|k: int| 0 <= k < p.len() - 1 implies edge(m1, p[k], #[trigger] p[k + 1]) by {
            assert(edge(m2, p[k], p[k + 1]));
            lemma_reach_base_edge(m2, m1, p[k], p[k + 1]);
        }
        assert(is_path(m1, p));
    }
}

// ---------------------------------------------------------------------------
// Finalization of do-nothing finalizers only sets finalized flags
// ---------------------------------------------------------------------------

/// Heaps that differ at most in finalized flags, monotonically.
pub open spec fn only_finalized_set(m1: HeapModel, m2: HeapModel) -> bool {
    &&& m2.slots.len() == m1.slots.len()
    &&& m2.bytes == m1.bytes
    &&& m2.threshold == m1.threshold
    &&& m2.percent == m1.percent
    &&& m2.leak_on_drop == m1.leak_on_drop
    &&& m2.collections == m1.collections
    &&& m2.sweeping == m1.sweeping
    &&& forall|i: int|
        0 <= i < m1.slots.len() ==> ((#[trigger] m2.slots[i]) is Some <==> m1.slots[i] is Some)
    &&& forall|i: int|
        #![trigger m2.slots[i]]
        0 <= i < m1.slots.len() && m1.slots[i] is Some ==> {
            let b1 = box_of(m1, i);
            let b2 = box_of(m2, i);
            &&& b2.roots == b1.roots
            &&& b2.marked == b1.marked
            &&& b2.size == b1.size
            &&& b2.payload == b1.payload
            &&& (b1.finalized ==> b2.finalized)
        }
}

pub proof fn lemma_only_finalized_trans(m1: HeapModel, m2: HeapModel, m3: HeapModel)
    requires
        only_finalized_set(m1, m2),
        only_finalized_set(m2, m3),
    ensures
        only_finalized_set(m1, m3),
{
}

/// Finalizing one candidate whose finalizer does nothing sets at most its
/// finalized flag.
pub proof fn lemma_finalize_one_nothing(m: HeapModel, c: int)
    requires
        live(m, c) ==> box_of(m, c).payload.finalizer is Nothing,
    ensures
        only_finalized_set(m, finalize_one_m(m, c)),
        live(m, c) ==> finalized_of(finalize_one_m(m, c), c),
        forall|i: int|
            live(m, i) && i != c ==> (#[trigger] box_of(finalize_one_m(m, c), i)).finalized
                == box_of(m, i).finalized,
{
}

/// The finalization fold splits at any point.
pub proof fn lemma_finalize_seq_concat(m: HeapModel, s1: Seq<int>, s2: Seq<int>)
    ensures
        finalize_seq_m(m, s1 + s2) == finalize_seq_m(finalize_seq_m(m, s1), s2),
    decreases s1.len(),
{
    if s1.len() == 0 {
        assert(s1 + s2 =~= s2);
        assert(finalize_seq_m(m, s1) == m);
    } else {
        assert((s1 + s2)[0] == s1[0]);
        assert((s1 + s2).drop_first() =~= s1.drop_first() + s2);
        lemma_finalize_seq_concat(finalize_one_m(m, s1[0]), s1.drop_first(), s2);
        assert(finalize_seq_m(m, s1 + s2) == finalize_seq_m(
            finalize_one_m(m, s1[0]),
            s1.drop_first() + s2,
        ));
        assert(finalize_seq_m(m, s1) == finalize_seq_m(finalize_one_m(m, s1[0]), s1.drop_first()));
    }
}

/// Folding do-nothing finalizers over a candidate list sets at most the
/// candidates' finalized flags, and sets all of theirs.
pub proof fn lemma_finalize_seq_nothing(m: HeapModel, s: Seq<int>)
    requires
        forall|k: int|
            0 <= k < s.len() && live(m, #[trigger] s[k]) ==> box_of(
                m,
                s[k],
            ).payload.finalizer is Nothing,
    ensures
        only_finalized_set(m, finalize_seq_m(m, s)),
        forall|k: int|
            0 <= k < s.len() && live(m, #[trigger] s[k]) ==> finalized_of(
                finalize_seq_m(m, s),
                s[k],
            ),
        forall|i: int|
            live(m, i) && !s.contains(i) ==> (#[trigger] box_of(finalize_seq_m(m, s), i)).finalized
                == box_of(m, i).finalized,
    decreases s.len(),
{
    if s.len() == 0 {
    } else {
        let m1 = finalize_one_m(m, s[0]);
        lemma_finalize_one_nothing(m, s[0]);
        assert forall|k: int|
            0 <= k < s.drop_first().len() && live(m1, #[trigger] s.drop_first()[k]) implies box_of(
            m1,
            s.drop_first()[k],
        ).payload.finalizer is Nothing by {
            assert(s.drop_first()[k] == s[k + 1]);
            assert(live(m, s[k + 1]));
        }
        lemma_finalize_seq_nothing(m1, s.drop_first());
        lemma_only_finalized_trans(m, m1, finalize_seq_m(m1, s.drop_first()));
        assert(finalize_seq_m(m, s) == finalize_seq_m(m1, s.drop_first()));
        assert forall|k: int|
            0 <= k < s.len() && live(m, #[trigger] s[k]) implies finalized_of(
            finalize_seq_m(m, s),
            s[k],
        ) by {
            if k == 0 {
                assert(finalized_of(m1, s[0]));
                assert(live(m1, s[0]));
            } else {
                assert(s.drop_first()[k - 1] == s[k]);
                assert(live(m1, s[k]));
                assert(finalized_of(finalize_seq_m(m1, s.drop_first()), s[k]));
            }
        }
        assert forall|i: int|
            live(m, i) && !s.contains(i) implies (#[trigger] box_of(
            finalize_seq_m(m, s),
            i,
        )).finalized == box_of(m, i).finalized by {
            assert(s[0] != i);
            if s.drop_first().contains(i) {
                let k = choose|k: int|
                    0 <= k < s.drop_first().len() && s.drop_first()[k] == i;
                assert(s[k + 1] == i);
                assert(false);
            }
            assert(live(m1, i));
            assert(box_of(m1, i).finalized == box_of(m, i).finalized);
        }
    }
}

/// Membership, order and completeness of the candidate list.
pub proof fn lemma_cand_seq_props(m: HeapModel, n: int)
    requires
        n <= m.slots.len(),
    ensures
        forall|k: int|
            0 <= k < cand_seq(m, n).len() ==> {
                &&& 0 <= #[trigger] cand_seq(m, n)[k] < n
                &&& live(m, cand_seq(m, n)[k])
                &&& !reachable(m, cand_seq(m, n)[k])
            },
        forall|j: int|
            0 <= j < n && live(m, j) && !reachable(m, j) ==> cand_seq(m, n).contains(j),
        forall|k1: int, k2: int|
            0 <= k1 < k2 < cand_seq(m, n).len() ==> cand_seq(m, n)[k1] < cand_seq(m, n)[k2],
    decreases n,
{
    if n > 0 {
        lemma_cand_seq_props(m, n - 1);
        let s = cand_seq(m, n);
        let s0 = cand_seq(m, n - 1);
        assert forall|j: int|
            0 <= j < n && live(m, j) && !reachable(m, j) implies s.contains(j) by {
            if j < n - 1 {
                assert(s0.contains(j));
                let k = choose|k: int| 0 <= k < s0.len() && s0[k] == j;
                assert(s[k] == j);
            } else {
                assert(s[s.len() - 1] == j);
            }
        }
    }
}

/// An empty total: a heap with no live boxes sums to nothing.
pub proof fn lemma_sum_sizes_none(s: Seq<Option<BoxModel>>, n: int)
    requires
        0 <= n <= s.len(),
        forall|i: int| 0 <= i < s.len() ==> !((#[trigger] s[i]) is Some),
    ensures
        sum_sizes_upto(s, n) == 0,
    decreases n,
{
    if n > 0 {
        lemma_sum_sizes_none(s, n - 1);
    }
}

// ---------------------------------------------------------------------------
// The laws
// ---------------------------------------------------------------------------

/// Reclamation of the unreachable: an unreachable box whose fellow
/// unreachable boxes have do-nothing finalizers is reclaimed by one
/// collection — whether or not it sits on a cycle, which reachability does
/// not see. (Finalizers that resurrect are the stated exception: a
/// resurrected box is reachable again.)
pub proof fn lemma_collect_reclaims_unreachable(m: HeapModel, i: int)
    requires
        wf(m),
        live(m, i),
        !reachable(m, i),
        forall|j: int|
            live(m, j) && !reachable(m, j) ==> (#[trigger] box_of(
                m,
                j,
            )).payload.finalizer is Nothing,
    ensures
        !live(collect_m(m), i),
{
    let m1 = HeapModel { collections: sat_inc(m.collections), ..m };
    let n = m1.slots.len() as int;
    let cands = cand_seq(m1, n);
    assert(reach_base_same(m, m1));
    lemma_reach_base_reachable(m, m1);
    lemma_cand_seq_props(m1, n);
    assert(live(m1, i) && !reachable(m1, i));
    assert(cands.contains(i));
    let ki = choose|k: int| 0 <= k < cands.len() && cands[k] == i;
    assert(cands.len() > 0);
    assert forall|k: int|
        0 <= k < cands.len() && live(m1, #[trigger] cands[k]) implies box_of(
        m1,
        cands[k],
    ).payload.finalizer is Nothing by {
        assert(live(m, cands[k]) && !reachable(m, cands[k]));
    }
    lemma_finalize_seq_nothing(m1, cands);
    let m2 = finalize_seq_m(m1, cands);
    assert(reach_base_same(m1, m2));
    lemma_reach_base_reachable(m1, m2);
    assert(live(m2, i) && !reachable(m2, i));
    assert(finalized_of(m2, i));
    assert(sweep_m(m2).slots[i] == sweep_slot_m(m2, i));
    assert(!live(sweep_m(m2), i));
    assert(collect_m(m) == sweep_m(m2));
}

/// A heap with no roots at all is emptied by one collection, cycles
/// included, and its byte counter returns to zero.
pub proof fn lemma_collect_unrooted_heap(m: HeapModel)
    requires
        wf(m),
        forall|j: int| live(m, j) ==> roots_of(m, j) == 0,
        forall|j: int| live(m, j) ==> (#[trigger] box_of(m, j)).payload.finalizer is Nothing,
    ensures
        forall|i: int| !live(collect_m(m), i),
        collect_m(m).bytes == 0,
{
    assert forall|j: int| live(m, j) implies !reachable(m, j) by {
        if reachable(m, j) {
            let p = choose|p: Seq<int>| is_path(m, p) && p.last() == j;
            assert(rooted_box(m, p[0]));
            assert(roots_of(m, p[0]) == 0);
        }
    }
    let mr = collect_m(m);
    assert forall|i: int| !live(mr, i) by {
        if live(m, i) {
            lemma_collect_reclaims_unreachable(m, i);
        } else if 0 <= i < m.slots.len() {
            let m1 = HeapModel { collections: sat_inc(m.collections), ..m };
            let cands = cand_seq(m1, m1.slots.len() as int);
            if cands.len() == 0 {
                assert(mr == m1);
            } else {
                let m2 = finalize_seq_m(m1, cands);
                lemma_cand_seq_props(m1, m1.slots.len() as int);
                assert forall|k: int|
                    0 <= k < cands.len() && live(m1, #[trigger] cands[k]) implies box_of(
                    m1,
                    cands[k],
                ).payload.finalizer is Nothing by {
                    assert(reach_base_same(m, m1));
                    lemma_reach_base_reachable(m, m1);
                    assert(live(m, cands[k]));
                }
                lemma_finalize_seq_nothing(m1, cands);
                assert(!live(m2, i));
                assert(mr == sweep_m(m2));
                assert(mr.slots[i] == sweep_slot_m(m2, i));
            }
        } else {
            lemma_collect_len(m);
        }
    }
    assert forall|i: int| 0 <= i < mr.slots.len() implies !((#[trigger] mr.slots[i]) is Some) by {
        assert(!live(mr, i));
    }
    lemma_sum_sizes_none(mr.slots, mr.slots.len() as int);
    // the byte counter of the collected heap is the sum over its slots
    let m1 = HeapModel { collections: sat_inc(m.collections), ..m };
    let cands = cand_seq(m1, m1.slots.len() as int);
    if cands.len() == 0 {
        // nothing was live at all: the sum over the incoming heap's slots is zero
        assert forall|i: int|
            0 <= i < m.slots.len() implies !((#[trigger] m.slots[i]) is Some) by {
            if m.slots[i] is Some {
                assert(live(m, i));
                assert(!reachable(m, i));
                lemma_cand_seq_props(m1, m1.slots.len() as int);
                assert(reach_base_same(m, m1));
                lemma_reach_base_reachable(m, m1);
                assert(cands.contains(i));
            }
        }
        lemma_sum_sizes_none(m.slots, m.slots.len() as int);
        assert(mr.bytes == m.bytes);
        assert(m.bytes == sum_sizes(m));
    } else {
        assert(mr == sweep_m(finalize_seq_m(m1, cands)));
        assert(mr.bytes == sum_sizes_upto(mr.slots, mr.slots.len() as int));
    }
}

/// Rooted boxes survive every collection with their root count intact:
/// whatever finalizers do, they move no root counts.
pub proof fn lemma_rooted_survives(m: HeapModel, i: int)
    requires
        wf(m),
        live(m, i),
        roots_of(m, i) >= 1,
    ensures
        live(collect_m(m), i),
        roots_of(collect_m(m), i) == roots_of(m, i),
{
    let m1 = HeapModel { collections: sat_inc(m.collections), ..m };
    let n = m1.slots.len() as int;
    let cands = cand_seq(m1, n);
    if cands.len() == 0 {
        assert(collect_m(m) == m1);
    } else {
        let m2 = finalize_seq_m(m1, cands);
        crate::model::lemma_finalize_seq_frame(m1, cands);
        assert(live(m2, i));
        assert(roots_of(m2, i) == roots_of(m, i));
        lemma_rooted_reachable_here(m2, i);
        assert(collect_m(m) == sweep_m(m2));
        assert(sweep_m(m2).slots[i] == sweep_slot_m(m2, i));
        assert(sweep_slot_m(m2, i) == m2.slots[i]);
    }
}

proof fn lemma_rooted_reachable_here(m: HeapModel, i: int)
    requires
        live(m, i),
        roots_of(m, i) >= 1,
    ensures
        reachable(m, i),
{
    crate::model::lemma_rooted_reachable(m, i);
}

/// Everything reachable survives one collection, box for box — so a writer
/// guard protects every box its cell's contents reach transitively: the
/// guard's root makes the contents reachable, and reachability extends along
/// every edge. (As with reclamation, the unreachable boxes' finalizers are
/// asked to do nothing: a resurrecting finalizer rewrites a reachable cell.)
pub proof fn lemma_reachable_survives(m: HeapModel, i: int)
    requires
        wf(m),
        live(m, i),
        reachable(m, i),
        forall|j: int|
            live(m, j) && !reachable(m, j) ==> (#[trigger] box_of(
                m,
                j,
            )).payload.finalizer is Nothing,
    ensures
        live(collect_m(m), i),
        box_of(collect_m(m), i) == box_of(m, i),
{
    let m1 = HeapModel { collections: sat_inc(m.collections), ..m };
    let n = m1.slots.len() as int;
    let cands = cand_seq(m1, n);
    assert(reach_base_same(m, m1));
    lemma_reach_base_reachable(m, m1);
    lemma_cand_seq_props(m1, n);
    if cands.len() == 0 {
        assert(collect_m(m) == m1);
    } else {
        if cands.contains(i) {
            let k = choose|k: int| 0 <= k < cands.len() && cands[k] == i;
            assert(!reachable(m1, cands[k]));
            assert(false);
        }
        assert forall|k: int|
            0 <= k < cands.len() && live(m1, #[trigger] cands[k]) implies box_of(
            m1,
            cands[k],
        ).payload.finalizer is Nothing by {
            assert(live(m, cands[k]) && !reachable(m, cands[k]));
        }
        lemma_finalize_seq_nothing(m1, cands);
        let m2 = finalize_seq_m(m1, cands);
        assert(only_finalized_set(m1, m2));
        assert(live(m2, i));
        assert(box_of(m2, i).finalized == box_of(m1, i).finalized);
        assert(box_of(m2, i) =~= box_of(m1, i));
        assert(reach_base_same(m1, m2));
        lemma_reach_base_reachable(m1, m2);
        assert(reachable(m2, i));
        assert(collect_m(m) == sweep_m(m2));
        assert(sweep_m(m2).slots[i] == sweep_slot_m(m2, i));
        assert(sweep_slot_m(m2, i) == m2.slots[i]);
    }
}

/// A box is finalized at most once in its lifetime: once its flag is set,
/// finalization leaves it — and the rest of the heap — alone.
pub proof fn lemma_finalize_at_most_once(m: HeapModel, c: int)
    requires
        finalized_of(m, c),
    ensures
        finalize_one_m(m, c) == m,
{
}

// ---------------------------------------------------------------------------
// Resurrection
// ---------------------------------------------------------------------------

/// The finalize phase of a resurrecting collection: after every candidate
/// has run, the escape cell holds the fresh unrooted handle, and the escape
/// box keeps its external roots.
#[verifier::rlimit(100)]
#[verifier::spinoff_prover]
proof fn lemma_resurrect_finalize(m: HeapModel, c: int, ek: usize, vk: usize)
    requires
        live(m, c),
        !reachable(m, c),
        !box_of(m, c).finalized,
        box_of(m, c).payload.finalizer == (FinalizerKind::StoreChild { escape: ek, value: vk }),
        ek < crate::model::children_of(m, c).len(),
        vk < crate::model::children_of(m, c).len(),
        live(m, crate::model::children_of(m, c)[ek as int].idx),
        roots_of(m, crate::model::children_of(m, c)[ek as int].idx) >= 1,
        cell_of(m, crate::model::children_of(m, c)[ek as int].idx) is Some,
        !cell_of(m, crate::model::children_of(m, c)[ek as int].idx)->Some_0.writing,
        cell_of(m, crate::model::children_of(m, c)[ek as int].idx)->Some_0.reading == 0,
        live(m, crate::model::children_of(m, c)[vk as int].idx),
        forall|j: int|
            live(m, j) && !reachable(m, j) && j != c ==> (#[trigger] box_of(
                m,
                j,
            )).payload.finalizer is Nothing,
    ensures
        ({
            let e = crate::model::children_of(m, c)[ek as int].idx;
            let v = crate::model::children_of(m, c)[vk as int].idx;
            let m1 = HeapModel { collections: sat_inc(m.collections), ..m };
            let cands = cand_seq(m1, m1.slots.len() as int);
            let m_2 = finalize_seq_m(m1, cands);
            &&& cands.len() > 0
            &&& live(m_2, e)
            &&& live(m_2, v)
            &&& cell_of(m_2, e) is Some
            &&& !cell_of(m_2, e)->Some_0.writing
            &&& cell_of(m_2, e)->Some_0.handle == Some(HandleModel { idx: v, rooted: false })
            &&& roots_of(m_2, e) >= 1
            &&& box_of(m_2, v).payload.data == box_of(m, v).payload.data
        }),
{
    let e = crate::model::children_of(m, c)[ek as int].idx;
    let v = crate::model::children_of(m, c)[vk as int].idx;
    let m1 = HeapModel { collections: sat_inc(m.collections), ..m };
    let n = m1.slots.len() as int;
    let cands = cand_seq(m1, n);
    assert(reach_base_same(m, m1));
    lemma_reach_base_reachable(m, m1);
    lemma_cand_seq_props(m1, n);
    assert(cands.contains(c));
    let ki = choose|k: int| 0 <= k < cands.len() && cands[k] == c;
    assert(cands.len() > 0);
    // split the fold at c
    let pre = cands.take(ki);
    let post = cands.skip(ki + 1);
    assert(cands =~= pre.push(c) + post);
    lemma_finalize_seq_concat(m1, pre.push(c), post);
    crate::model::lemma_finalize_seq_push(m1, pre, c);
    let m_a = finalize_seq_m(m1, pre);
    let m_b = finalize_one_m(m_a, c);
    let m_2 = finalize_seq_m(m_b, post);
    assert(finalize_seq_m(m1, cands) == m_2) by {
        assert(finalize_seq_m(m1, pre.push(c) + post) == finalize_seq_m(
            finalize_seq_m(m1, pre.push(c)),
            post,
        ));
        assert(finalize_seq_m(m1, pre.push(c)) == finalize_one_m(finalize_seq_m(m1, pre), c));
    }
    // the earlier candidates only set their own finalized flags
    assert forall|k: int|
        0 <= k < pre.len() && live(m1, #[trigger] pre[k]) implies box_of(
        m1,
        pre[k],
    ).payload.finalizer is Nothing by {
        assert(pre[k] == cands[k]);
        assert(cands[k] < cands[ki]);
        assert(live(m, cands[k]) && !reachable(m, cands[k]) && cands[k] != c);
    }
    lemma_finalize_seq_nothing(m1, pre);
    assert(only_finalized_set(m1, m_a));
    if pre.contains(c) {
        let k = choose|k: int| 0 <= k < pre.len() && pre[k] == c;
        assert(cands[k] == c && cands[k] < cands[ki]);
        assert(false);
    }
    assert(box_of(m_a, c).finalized == box_of(m, c).finalized);
    assert(live(m_a, c));
    assert(box_of(m_a, c).payload == box_of(m, c).payload);
    // c's own step: set the flag, then write the escape cell
    let m_s = set_finalized_m(m_a, c);
    assert(m_b == crate::model::apply_finalizer_m(m_s, c));
    assert(box_of(m_s, c).payload == box_of(m, c).payload);
    assert(live(m_s, e) && cell_of(m_s, e) is Some) by {
        if e == c {
        } else {
            assert(box_of(m_s, e) == box_of(m_a, e));
            assert(box_of(m_a, e).payload == box_of(m, e).payload);
        }
    }
    assert(m_b == crate::model::write_escape_m(m_s, e, v));
    let ce = cell_of(m_s, e)->Some_0;
    assert(ce == cell_of(m, e)->Some_0) by {
        if e == c {
        } else {
            assert(box_of(m_a, e).payload == box_of(m, e).payload);
        }
    }
    assert(!ce.writing && ce.reading == 0);
    assert(cell_of(m_b, e) is Some);
    assert(cell_of(m_b, e)->Some_0.handle == Some(HandleModel { idx: v, rooted: false }));
    assert(!cell_of(m_b, e)->Some_0.writing);
    assert(live(m_b, v));
    assert(box_of(m_b, v).payload.data == box_of(m, v).payload.data) by {
        if v == e {
        } else if v == c {
            assert(box_of(m_b, v).payload == box_of(m_s, v).payload);
        } else {
            assert(box_of(m_b, v).payload == box_of(m_a, v).payload);
            assert(box_of(m_a, v).payload == box_of(m, v).payload);
        }
    }
    assert(roots_of(m_b, e) == roots_of(m, e)) by {
        if e == c {
        } else {
            assert(box_of(m_a, e).roots == box_of(m, e).roots);
        }
    }
    // the remaining candidates do nothing; e is rooted, hence not among them
    assert forall|k: int|
        0 <= k < post.len() && live(m_b, #[trigger] post[k]) implies box_of(
        m_b,
        post[k],
    ).payload.finalizer is Nothing by {
        assert(post[k] == cands[ki + 1 + k]);
        assert(cands[ki] < cands[ki + 1 + k]);
        assert(live(m, post[k]) && !reachable(m, post[k]) && post[k] != c);
        assert(post[k] != e) by {
            if post[k] == e {
                crate::model::lemma_rooted_reachable(m, e);
            }
        }
        assert(box_of(m_b, post[k]).payload == box_of(m_s, post[k]).payload);
        assert(box_of(m_s, post[k]).payload == box_of(m_a, post[k]).payload);
        assert(box_of(m_a, post[k]).payload == box_of(m, post[k]).payload);
    }
    lemma_finalize_seq_nothing(m_b, post);
    assert(only_finalized_set(m_b, m_2));
    assert(live(m_2, e) && live(m_2, v));
    assert(box_of(m_2, e).payload == box_of(m_b, e).payload);
    assert(box_of(m_2, v).payload.data == box_of(m, v).payload.data);
    assert(roots_of(m_2, e) == roots_of(m, e));
}

/// Resurrection: when an unreachable box's finalizer stores a handle to one
/// of its children into the cell of an externally rooted escape box, the
/// stored-to box survives the very collection that finalizes its storer, its
/// payload intact, and the escape cell holds the fresh unrooted handle.
/// (The other unreachable boxes are asked to have do-nothing finalizers, so
/// that no second resurrection write interferes with this one.)
pub proof fn lemma_finalizer_resurrects(m: HeapModel, c: int, ek: usize, vk: usize)
    requires
        wf(m),
        live(m, c),
        !reachable(m, c),
        !box_of(m, c).finalized,
        box_of(m, c).payload.finalizer == (FinalizerKind::StoreChild { escape: ek, value: vk }),
        ek < crate::model::children_of(m, c).len(),
        vk < crate::model::children_of(m, c).len(),
        live(m, crate::model::children_of(m, c)[ek as int].idx),
        roots_of(m, crate::model::children_of(m, c)[ek as int].idx) >= 1,
        cell_of(m, crate::model::children_of(m, c)[ek as int].idx) is Some,
        !cell_of(m, crate::model::children_of(m, c)[ek as int].idx)->Some_0.writing,
        cell_of(m, crate::model::children_of(m, c)[ek as int].idx)->Some_0.reading == 0,
        live(m, crate::model::children_of(m, c)[vk as int].idx),
        forall|j: int|
            live(m, j) && !reachable(m, j) && j != c ==> (#[trigger] box_of(
                m,
                j,
            )).payload.finalizer is Nothing,
    ensures
        ({
            let e = crate::model::children_of(m, c)[ek as int].idx;
            let v = crate::model::children_of(m, c)[vk as int].idx;
            &&& live(collect_m(m), e)
            &&& live(collect_m(m), v)
            &&& cell_of(collect_m(m), e) is Some
            &&& cell_of(collect_m(m), e)->Some_0.handle == Some(
                HandleModel { idx: v, rooted: false },
            )
            &&& box_of(collect_m(m), v).payload.data == box_of(m, v).payload.data
        }),
{
    let e = crate::model::children_of(m, c)[ek as int].idx;
    let v = crate::model::children_of(m, c)[vk as int].idx;
    let m1 = HeapModel { collections: sat_inc(m.collections), ..m };
    let cands = cand_seq(m1, m1.slots.len() as int);
    let m_2 = finalize_seq_m(m1, cands);
    lemma_resurrect_finalize(m, c, ek, vk);
    // the sweep keeps the rooted escape box and the resurrected target
    crate::model::lemma_rooted_reachable(m_2, e);
    assert(edge(m_2, e, v));
    crate::model::lemma_reachable_step(m_2, e, v);
    let mr = sweep_m(m_2);
    assert(collect_m(m) == mr);
    assert(mr.slots[e] == sweep_slot_m(m_2, e));
    assert(mr.slots[v] == sweep_slot_m(m_2, v));
    assert(mr.slots[e] == m_2.slots[e]);
    assert(mr.slots[v] == m_2.slots[v]);
}

// ---------------------------------------------------------------------------
// Root-counter balance
// ---------------------------------------------------------------------------

/// `n` handle clones in a row.
pub open spec fn clone_n_m(m: HeapModel, i: int, n: nat) -> HeapModel
    decreases n,
{
    if n == 0 {
        m
    } else {
        inc_roots_m(clone_n_m(m, i, (n - 1) as nat), i)
    }
}

/// `n` handle drops in a row.
pub open spec fn drop_n_m(m: HeapModel, i: int, n: nat) -> HeapModel
    decreases n,
{
    if n == 0 {
        m
    } else {
        drop_n_m(dec_roots_m(m, i), i, (n - 1) as nat)
    }
}

/// Cloning a handle `n` times and dropping all the clones leaves the heap —
/// its root counter included — exactly where it was.
pub proof fn lemma_clone_drop_balance(m: HeapModel, i: int, n: nat)
    requires
        live(m, i),
        roots_of(m, i) + n <= ROOTS_MAX as nat,
    ensures
        clone_n_m(m, i, n).slots.len() == m.slots.len(),
        live(clone_n_m(m, i, n), i),
        roots_of(clone_n_m(m, i, n), i) == roots_of(m, i) + n,
        drop_n_m(clone_n_m(m, i, n), i, n) == m,
    decreases n,
{
    if n == 0 {
    } else {
        lemma_clone_drop_balance(m, i, (n - 1) as nat);
        let mc = clone_n_m(m, i, (n - 1) as nat);
        let mi = inc_roots_m(mc, i);
        assert(live(mi, i));
        assert(roots_of(mi, i) == roots_of(m, i) + n);
        // one drop cancels the last clone
        let md = dec_roots_m(mi, i);
        assert(md.slots =~= mc.slots);
        assert(md =~= mc);
        assert(drop_n_m(mi, i, n) == drop_n_m(md, i, (n - 1) as nat));
    }
}

// ---------------------------------------------------------------------------
// Writer-guard rooting
// ---------------------------------------------------------------------------

/// Taking the writer on a heap-owned cell roots its contents independently,
/// and releasing the writer gives that root back: the two together leave the
/// heap exactly where it was.
pub proof fn lemma_borrow_mut_roots_and_releases(m: HeapModel, i: int)
    requires
        wf(m),
        live(m, i),
        cell_of(m, i) is Some,
        !cell_of(m, i)->Some_0.writing,
        cell_of(m, i)->Some_0.reading == 0,
        match cell_of(m, i)->Some_0.handle {
            Some(h) => live(m, h.idx) && roots_of(m, h.idx) < ROOTS_MAX as nat,
            None => true,
        },
    ensures
        match cell_of(m, i)->Some_0.handle {
            Some(h) => roots_of(crate::model::cell_borrow_mut_m(m, i), h.idx) == roots_of(
                m,
                h.idx,
            ) + 1,
            None => true,
        },
        crate::model::cell_end_borrow_mut_m(crate::model::cell_borrow_mut_m(m, i), i) == m,
{
    assert(wf_box(m, i));
    let c = cell_of(m, i)->Some_0;
    let mb = crate::model::cell_borrow_mut_m(m, i);
    let mr = crate::model::cell_end_borrow_mut_m(mb, i);
    match c.handle {
        Some(h) => {
            assert(!h.rooted);
            assert(cell_of(mb, i) is Some);
            assert(roots_of(mb, h.idx) == roots_of(m, h.idx) + 1);
            assert(mr.slots =~= m.slots);
            assert(mr =~= m);
        },
        None => {
            assert(mr.slots =~= m.slots);
            assert(mr =~= m);
        },
    }
}

} // verus!
