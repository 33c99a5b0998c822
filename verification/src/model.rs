//! The mathematical model of the heap.
//!
//! Every contract of the collector speaks over `HeapModel`, the view of a
//! `GcState`: a sequence of box slots (freed slots are `None`), the byte
//! counter, the configuration and the statistics. Reachability is a path
//! predicate over the model; a whole collection is the spec transition
//! `collect_m`.
use vstd::prelude::*;

use crate::trace::FinalizerKind;

verus! {

/// Largest representable root count: the box header keeps the count in one
/// word whose two highest bits carry the mark and the finalized flag.
pub const ROOTS_MAX: u64 = 0x3fff_ffff_ffff_ffff;

/// Leaf data, in mathematical form.
pub ghost enum DataModel {
    Unit,
    Byte(u8),
    Int(int),
    UInt(int),
    Str(Seq<char>),
    Bytes(Seq<u8>),
    Pair(int, char),
}

/// A handle: the index of its box and whether this instance is rooted.
#[verifier::ext_equal]
pub ghost struct HandleModel {
    pub idx: int,
    pub rooted: bool,
}

/// An interior cell: its rooted flag, its borrow state and its contents.
#[verifier::ext_equal]
pub ghost struct CellModel {
    pub rooted: bool,
    pub writing: bool,
    pub reading: nat,
    pub data: DataModel,
    pub handle: Option<HandleModel>,
}

/// A managed value: leaf data, owned handles, at most one cell, finalizer kind.
#[verifier::ext_equal]
pub ghost struct PayloadModel {
    pub data: DataModel,
    pub children: Seq<HandleModel>,
    pub cell: Option<CellModel>,
    pub finalizer: FinalizerKind,
}

/// A managed box: its header fields, its accounted size and its payload.
#[verifier::ext_equal]
pub ghost struct BoxModel {
    pub roots: nat,
    pub marked: bool,
    pub finalized: bool,
    pub size: nat,
    pub payload: PayloadModel,
}

/// The whole heap.
#[verifier::ext_equal]
pub ghost struct HeapModel {
    pub slots: Seq<Option<BoxModel>>,
    pub bytes: nat,
    pub threshold: nat,
    pub percent: nat,
    pub leak_on_drop: bool,
    pub collections: nat,
    pub sweeping: bool,
}

// ---------------------------------------------------------------------------
// Accessors
// ---------------------------------------------------------------------------

pub open spec fn live(m: HeapModel, i: int) -> bool {
    0 <= i < m.slots.len() && m.slots[i] is Some
}

pub open spec fn box_of(m: HeapModel, i: int) -> BoxModel {
    m.slots[i]->Some_0
}

pub open spec fn roots_of(m: HeapModel, i: int) -> nat {
    box_of(m, i).roots
}

pub open spec fn marked_of(m: HeapModel, i: int) -> bool {
    live(m, i) && box_of(m, i).marked
}

pub open spec fn finalized_of(m: HeapModel, i: int) -> bool {
    live(m, i) && box_of(m, i).finalized
}

pub open spec fn children_of(m: HeapModel, i: int) -> Seq<HandleModel> {
    box_of(m, i).payload.children
}

pub open spec fn cell_of(m: HeapModel, i: int) -> Option<CellModel> {
    box_of(m, i).payload.cell
}

/// A box is rooted when some handle outside the heap counts on it.
pub open spec fn rooted_box(m: HeapModel, i: int) -> bool {
    live(m, i) && roots_of(m, i) > 0
}

// ---------------------------------------------------------------------------
// Reachability
// ---------------------------------------------------------------------------

/// Box `i` refers to box `j` directly: through an owned handle, or through its
/// cell when no writer is active (a writer hides the contents from tracing;
/// the contents are rooted independently for the writer's duration).
pub open spec fn edge(m: HeapModel, i: int, j: int) -> bool {
    &&& live(m, i)
    &&& live(m, j)
    &&& {
        ||| exists|k: int|
            0 <= k < children_of(m, i).len() && children_of(m, i)[k].idx == j
        ||| {
            &&& cell_of(m, i) is Some
            &&& !cell_of(m, i)->Some_0.writing
            &&& cell_of(m, i)->Some_0.handle is Some
            &&& cell_of(m, i)->Some_0.handle->Some_0.idx == j
        }
    }
}

/// A path: it starts at a rooted box and follows edges.
pub open spec fn is_path(m: HeapModel, p: Seq<int>) -> bool {
    &&& p.len() > 0
    &&& rooted_box(m, p[0])
    &&& forall|k: int| 0 <= k < p.len() - 1 ==> edge(m, p[k], #[trigger] p[k + 1])
}

/// A box is reachable when a path from some rooted box ends at it.
pub open spec fn reachable(m: HeapModel, i: int) -> bool {
    exists|p: Seq<int>| is_path(m, p) && p.last() == i
}

/// A rooted box is reachable by the one-element path.
pub proof fn lemma_rooted_reachable(m: HeapModel, i: int)
    requires
        rooted_box(m, i),
    ensures
        reachable(m, i),
{
    let p = seq![i];
    assert(is_path(m, p));
    assert(p.last() == i);
}

/// Reachability follows edges.
pub proof fn lemma_reachable_step(m: HeapModel, i: int, j: int)
    requires
        reachable(m, i),
        edge(m, i, j),
    ensures
        reachable(m, j),
{
    let p = choose|p: Seq<int>| is_path(m, p) && p.last() == i;
    let q = p.push(j);
    assert forall|k: int| 0 <= k < q.len() - 1 implies edge(m, q[k], #[trigger] q[k + 1]) by {
        if k < p.len() - 1 {
            assert(edge(m, p[k], p[k + 1]));
        } else {
            assert(q[k] == p.last());
        }
    }
    assert(is_path(m, q));
    assert(q.last() == j);
}

/// Two heaps with the same structure (everything but the mark bits) have the
/// same edges, the same rooted boxes and the same reachable boxes.
pub open spec fn structure_same(m1: HeapModel, m2: HeapModel) -> bool {
    &&& m1.slots.len() == m2.slots.len()
    &&& forall|i: int|
        0 <= i < m1.slots.len() ==> (#[trigger] m1.slots[i] is Some <==> m2.slots[i] is Some)
    &&& forall|i: int|
        #![trigger m2.slots[i]]
        0 <= i < m1.slots.len() && m1.slots[i] is Some ==> {
            let b1 = box_of(m1, i);
            let b2 = box_of(m2, i);
            b1.roots == b2.roots && b1.finalized == b2.finalized && b1.size == b2.size
                && b1.payload == b2.payload
        }
}

/// Same heaps up to the mark bits.
pub open spec fn same_except_marks(m1: HeapModel, m2: HeapModel) -> bool {
    &&& structure_same(m1, m2)
    &&& m2.bytes == m1.bytes
    &&& m2.threshold == m1.threshold
    &&& m2.percent == m1.percent
    &&& m2.leak_on_drop == m1.leak_on_drop
    &&& m2.collections == m1.collections
    &&& m2.sweeping == m1.sweeping
}

/// A set of boxes that contains every rooted box and is closed under edges
/// contains every reachable box. `mm` carries the set in its mark bits.
pub proof fn lemma_path_end_marked(m0: HeapModel, mm: HeapModel, p: Seq<int>)
    requires
        structure_same(m0, mm),
        forall|i: int| rooted_box(m0, i) ==> marked_of(mm, i),
        forall|i: int, j: int| marked_of(mm, i) && edge(m0, i, j) ==> marked_of(mm, j),
        is_path(m0, p),
    ensures
        marked_of(mm, p.last()),
    decreases p.len(),
{
    if p.len() == 1 {
        assert(rooted_box(m0, p[0]));
    } else {
        let q = p.drop_last();
        assert forall|k: int| 0 <= k < q.len() - 1 implies edge(m0, q[k], #[trigger] q[k + 1]) by {
            assert(edge(m0, p[k], p[k + 1]));
        }
        assert(is_path(m0, q));
        lemma_path_end_marked(m0, mm, q);
        let kk = p.len() - 2;
        assert(edge(m0, p[kk], p[kk + 1]));
        assert(q.last() == p[kk]);
        assert(marked_of(mm, p[kk]));
        assert(p.last() == p[kk + 1]);
    }
}

// ---------------------------------------------------------------------------
// Counting marks (termination measure for the mark fixed point)
// ---------------------------------------------------------------------------

pub open spec fn count_marked_upto(s: Seq<Option<BoxModel>>, n: int) -> nat
    decreases n,
{
    if n <= 0 {
        0
    } else {
        count_marked_upto(s, n - 1) + (if s[n - 1] is Some && s[n - 1]->Some_0.marked {
            1nat
        } else {
            0nat
        })
    }
}

pub open spec fn count_marked(m: HeapModel) -> nat {
    count_marked_upto(m.slots, m.slots.len() as int)
}

pub proof fn lemma_count_marked_le(s: Seq<Option<BoxModel>>, n: int)
    requires
        0 <= n <= s.len(),
    ensures
        count_marked_upto(s, n) <= n,
    decreases n,
{
    if n > 0 {
        lemma_count_marked_le(s, n - 1);
    }
}

/// Marking one more box increases the count by one; boxes equal pointwise
/// except slot `j` keep the rest of the count.
pub proof fn lemma_count_marked_update(
    s1: Seq<Option<BoxModel>>,
    s2: Seq<Option<BoxModel>>,
    j: int,
    n: int,
)
    requires
        s1.len() == s2.len(),
        0 <= j < s1.len(),
        0 <= n <= s1.len(),
        forall|i: int| 0 <= i < s1.len() && i != j ==> s1[i] == s2[i],
        s1[j] is Some,
        s2[j] is Some,
        !s1[j]->Some_0.marked,
        s2[j]->Some_0.marked,
    ensures
        count_marked_upto(s2, n) == count_marked_upto(s1, n) + (if j < n {
            1int
        } else {
            0int
        }),
    decreases n,
{
    if n > 0 {
        lemma_count_marked_update(s1, s2, j, n - 1);
    }
}

/// Pointwise-monotone marks give a monotone count.
pub proof fn lemma_count_marked_mono(s1: Seq<Option<BoxModel>>, s2: Seq<Option<BoxModel>>, n: int)
    requires
        s1.len() == s2.len(),
        0 <= n <= s1.len(),
        forall|i: int|
            0 <= i < s1.len() ==> ((#[trigger] s1[i]) is Some <==> s2[i] is Some),
        forall|i: int|
            0 <= i < s1.len() && s1[i] is Some && (#[trigger] s1[i])->Some_0.marked ==> s2[i]->Some_0.marked,
    ensures
        count_marked_upto(s1, n) <= count_marked_upto(s2, n),
    decreases n,
{
    if n > 0 {
        lemma_count_marked_mono(s1, s2, n - 1);
    }
}

/// Heap-level wrapper for the count of one new mark.
pub proof fn lemma_count_update_heaps(m1: HeapModel, m2: HeapModel, j: int)
    requires
        m2.slots == m1.slots.update(j, Some(BoxModel { marked: true, ..box_of(m1, j) })),
        live(m1, j),
        !box_of(m1, j).marked,
    ensures
        count_marked(m2) == count_marked(m1) + 1,
{
    lemma_count_marked_update(m1.slots, m2.slots, j, m1.slots.len() as int);
}

// ---------------------------------------------------------------------------
// Sizes
// ---------------------------------------------------------------------------

pub open spec fn sum_sizes_upto(s: Seq<Option<BoxModel>>, n: int) -> nat
    decreases n,
{
    if n <= 0 {
        0
    } else {
        sum_sizes_upto(s, n - 1) + (if s[n - 1] is Some {
            s[n - 1]->Some_0.size
        } else {
            0nat
        })
    }
}

pub open spec fn sum_sizes(m: HeapModel) -> nat {
    sum_sizes_upto(m.slots, m.slots.len() as int)
}

/// Freeing slot `j` removes exactly its size from the total.
pub proof fn lemma_sum_sizes_update(
    s1: Seq<Option<BoxModel>>,
    s2: Seq<Option<BoxModel>>,
    j: int,
    n: int,
)
    requires
        s1.len() == s2.len(),
        0 <= j < s1.len(),
        0 <= n <= s1.len(),
        forall|i: int| 0 <= i < s1.len() && i != j ==> s1[i] == s2[i],
        s1[j] is Some,
        s2[j] is None,
    ensures
        sum_sizes_upto(s1, n) == sum_sizes_upto(s2, n) + (if j < n {
            s1[j]->Some_0.size as int
        } else {
            0int
        }),
    decreases n,
{
    if n > 0 {
        lemma_sum_sizes_update(s1, s2, j, n - 1);
    }
}

/// Slots equal in liveness and size give equal totals.
pub proof fn lemma_sum_sizes_congruence(
    s1: Seq<Option<BoxModel>>,
    s2: Seq<Option<BoxModel>>,
    n: int,
)
    requires
        s1.len() == s2.len(),
        0 <= n <= s1.len(),
        forall|i: int|
            0 <= i < s1.len() ==> ((#[trigger] s1[i]) is Some <==> s2[i] is Some),
        forall|i: int|
            0 <= i < s1.len() && s1[i] is Some ==> (#[trigger] s1[i])->Some_0.size == s2[i]->Some_0.size,
    ensures
        sum_sizes_upto(s1, n) == sum_sizes_upto(s2, n),
    decreases n,
{
    if n > 0 {
        lemma_sum_sizes_congruence(s1, s2, n - 1);
    }
}

// ---------------------------------------------------------------------------
// Well-formedness
// ---------------------------------------------------------------------------

/// Cap on the byte counter: leaves room for the threshold arithmetic.
pub open spec fn bytes_cap() -> nat {
    (usize::MAX as nat) / 100
}

/// Cap on the number of slots: leaves the low bit of a handle word free.
pub open spec fn slots_cap() -> nat {
    (usize::MAX as nat) / 2
}

/// A stored handle's index fits in a handle word. A handle held by an
/// unreachable box may dangle — a finalizer can orphan its referrer in the
/// same collection that reclaims its target — so liveness is not part of the
/// invariant; the tracer checks it, and it never traces through an
/// unreachable box.
pub open spec fn wf_handle(h: HandleModel) -> bool {
    0 <= h.idx <= slots_cap()
}

/// Per-box structural invariant: owned handles are unrooted (the box's own
/// lifecycle accounts for them); the cell, if any, is unrooted, and its
/// contents are rooted exactly while a writer is active.
pub open spec fn wf_box(m: HeapModel, i: int) -> bool {
    let b = box_of(m, i);
    &&& b.roots <= ROOTS_MAX as nat
    &&& forall|k: int|
        0 <= k < b.payload.children.len() ==> {
            &&& wf_handle(#[trigger] b.payload.children[k])
            &&& !b.payload.children[k].rooted
        }
    &&& match b.payload.cell {
        Some(c) => {
            &&& !c.rooted
            &&& match c.handle {
                Some(h) => wf_handle(h) && h.rooted == c.writing,
                None => true,
            }
        },
        None => true,
    }
}

/// Everything in `wf_box` reads the slots alone, so it carries over between
/// heaps that share them.
pub proof fn lemma_wf_boxes_congruence(m1: HeapModel, m2: HeapModel)
    requires
        m1.slots == m2.slots,
        forall|i: int| live(m1, i) ==> #[trigger] wf_box(m1, i),
    ensures
        forall|i: int| live(m2, i) ==> #[trigger] wf_box(m2, i),
{
    assert forall|i: int| live(m2, i) implies #[trigger] wf_box(m2, i) by {
        assert(live(m1, i));
        assert(wf_box(m1, i));
    }
}

pub proof fn lemma_all_unmarked_congruence(m1: HeapModel, m2: HeapModel)
    requires
        m1.slots == m2.slots,
        all_unmarked(m1),
    ensures
        all_unmarked(m2),
{
    assert forall|i: int| live(m2, i) implies !(#[trigger] box_of(m2, i)).marked by {
        assert(live(m1, i));
        assert(!box_of(m1, i).marked);
    }
}

pub open spec fn wf_struct(m: HeapModel) -> bool {
    &&& m.slots.len() <= slots_cap()
    &&& m.bytes <= bytes_cap()
    &&& 1 <= m.percent <= 100
    &&& m.threshold <= usize::MAX as nat
    &&& m.collections <= usize::MAX as nat
    &&& forall|i: int| live(m, i) ==> #[trigger] wf_box(m, i)
}

pub open spec fn all_unmarked(m: HeapModel) -> bool {
    forall|i: int| live(m, i) ==> !(#[trigger] box_of(m, i)).marked
}

/// The heap invariant at rest: structurally well formed, no mark bit set, not
/// sweeping, and the byte counter equal to the sizes of the live boxes.
pub open spec fn wf(m: HeapModel) -> bool {
    &&& wf_struct(m)
    &&& all_unmarked(m)
    &&& !m.sweeping
    &&& m.bytes == sum_sizes(m)
}

// ---------------------------------------------------------------------------
// Transitions: root accounting
// ---------------------------------------------------------------------------

/// One more root on box `j` (identity when `j` is not live or the count is full).
pub open spec fn inc_roots_m(m: HeapModel, j: int) -> HeapModel {
    if live(m, j) && roots_of(m, j) < ROOTS_MAX as nat {
        HeapModel {
            slots: m.slots.update(
                j,
                Some(BoxModel { roots: roots_of(m, j) + 1, ..box_of(m, j) }),
            ),
            ..m
        }
    } else {
        m
    }
}

/// One root fewer on box `j` (identity when `j` is not live or has no root).
pub open spec fn dec_roots_m(m: HeapModel, j: int) -> HeapModel {
    if live(m, j) && roots_of(m, j) >= 1 {
        HeapModel {
            slots: m.slots.update(
                j,
                Some(BoxModel { roots: (roots_of(m, j) - 1) as nat, ..box_of(m, j) }),
            ),
            ..m
        }
    } else {
        m
    }
}

/// Unrooting a payload removes one root per owned handle, children first,
/// then the cell contents (when no writer hides them).
pub open spec fn unroot_children_m(m: HeapModel, s: Seq<HandleModel>) -> HeapModel
    decreases s.len(),
{
    if s.len() == 0 {
        m
    } else {
        unroot_children_m(dec_roots_m(m, s[0].idx), s.drop_first())
    }
}

pub open spec fn unroot_targets_m(m: HeapModel, p: PayloadModel) -> HeapModel {
    let m1 = unroot_children_m(m, p.children);
    match p.cell {
        Some(c) => if !c.writing {
            match c.handle {
                Some(h) => dec_roots_m(m1, h.idx),
                None => m1,
            }
        } else {
            m1
        },
        None => m1,
    }
}

/// The payload as it lives in the heap: every owned handle unrooted, the cell
/// flag cleared. Contents under a writer stay rooted: the writer's guard owns
/// that root.
pub open spec fn unrooted_payload_m(p: PayloadModel) -> PayloadModel {
    PayloadModel {
        children: p.children.map_values(|h: HandleModel| HandleModel { rooted: false, ..h }),
        cell: match p.cell {
            Some(c) => Some(
                CellModel {
                    rooted: false,
                    handle: if c.writing {
                        c.handle
                    } else {
                        match c.handle {
                            Some(h) => Some(HandleModel { rooted: false, ..h }),
                            None => None,
                        }
                    },
                    ..c
                },
            ),
            None => None,
        },
        ..p
    }
}

// ---------------------------------------------------------------------------
// Sizes of payload shapes
// ---------------------------------------------------------------------------

/// Accounted size of a leaf value: the in-box footprint of its shape (a
/// string or byte vector counts as its owning struct, as a heap box would).
pub open spec fn data_size_m(d: DataModel) -> nat {
    match d {
        DataModel::Unit => 0,
        DataModel::Byte(_) => 1,
        DataModel::Int(_) => 16,
        DataModel::UInt(_) => 16,
        DataModel::Str(_) => 24,
        DataModel::Bytes(_) => 24,
        DataModel::Pair(_, _) => 16,
    }
}

/// Accounted size of a box around the given payload: a header word pair, the
/// leaf data, one word per owned handle, and the cell's own footprint.
pub open spec fn payload_size_m(p: PayloadModel) -> nat {
    16 + data_size_m(p.data) + 8 * p.children.len() + (match p.cell {
        Some(c) => 32 + data_size_m(c.data),
        None => 0nat,
    })
}

// ---------------------------------------------------------------------------
// Frames for root accounting
// ---------------------------------------------------------------------------

/// Root-count changes touch nothing else: liveness, marks, flags, sizes and
/// payloads stay; each count stays representable (it shrinks, or it was
/// capped).
pub open spec fn roots_frame(m1: HeapModel, m2: HeapModel) -> bool {
    &&& m2.slots.len() == m1.slots.len()
    &&& m2.bytes == m1.bytes
    &&& m2.threshold == m1.threshold
    &&& m2.percent == m1.percent
    &&& m2.leak_on_drop == m1.leak_on_drop
    &&& m2.collections == m1.collections
    &&& m2.sweeping == m1.sweeping
    &&& forall|i: int|
        0 <= i < m1.slots.len() ==> ((#[trigger] m2.slots[i]) is Some <==> m1.slots[i] is Some)
    &&& forall|i: int|
        #![trigger m2.slots[i]]
        0 <= i < m1.slots.len() && m1.slots[i] is Some ==> {
            let b1 = box_of(m1, i);
            let b2 = box_of(m2, i);
            &&& b2.marked == b1.marked
            &&& b2.finalized == b1.finalized
            &&& b2.size == b1.size
            &&& b2.payload == b1.payload
            &&& (b2.roots <= b1.roots || b2.roots <= ROOTS_MAX as nat)
        }
}

pub proof fn lemma_inc_roots_frame(m: HeapModel, j: int)
    ensures
        roots_frame(m, inc_roots_m(m, j)),
{
}

pub proof fn lemma_dec_roots_frame(m: HeapModel, j: int)
    ensures
        roots_frame(m, dec_roots_m(m, j)),
{
}

pub proof fn lemma_roots_frame_trans(m1: HeapModel, m2: HeapModel, m3: HeapModel)
    requires
        roots_frame(m1, m2),
        roots_frame(m2, m3),
    ensures
        roots_frame(m1, m3),
{
}

pub proof fn lemma_unroot_children_frame(m: HeapModel, s: Seq<HandleModel>)
    ensures
        roots_frame(m, unroot_children_m(m, s)),
    decreases s.len(),
{
    if s.len() == 0 {
    } else {
        lemma_dec_roots_frame(m, s[0].idx);
        lemma_unroot_children_frame(dec_roots_m(m, s[0].idx), s.drop_first());
        lemma_roots_frame_trans(
            m,
            dec_roots_m(m, s[0].idx),
            unroot_children_m(dec_roots_m(m, s[0].idx), s.drop_first()),
        );
    }
}

pub proof fn lemma_unroot_targets_frame(m: HeapModel, p: PayloadModel)
    ensures
        roots_frame(m, unroot_targets_m(m, p)),
{
    lemma_unroot_children_frame(m, p.children);
    let m1 = unroot_children_m(m, p.children);
    match p.cell {
        Some(c) => {
            if !c.writing {
                match c.handle {
                    Some(h) => {
                        lemma_dec_roots_frame(m1, h.idx);
                        lemma_roots_frame_trans(m, m1, dec_roots_m(m1, h.idx));
                    },
                    None => {},
                }
            }
        },
        None => {},
    }
}

pub proof fn lemma_unroot_children_push(m: HeapModel, s: Seq<HandleModel>, h: HandleModel)
    ensures
        unroot_children_m(m, s.push(h)) == dec_roots_m(unroot_children_m(m, s), h.idx),
    decreases s.len(),
{
    let sp = s.push(h);
    assert(sp.len() == s.len() + 1);
    if s.len() == 0 {
        assert(sp.drop_first() =~= Seq::<HandleModel>::empty());
        assert(sp[0] == h);
        assert(unroot_children_m(m, sp) == unroot_children_m(
            dec_roots_m(m, h.idx),
            sp.drop_first(),
        ));
        assert(unroot_children_m(dec_roots_m(m, h.idx), sp.drop_first()) == dec_roots_m(m, h.idx));
        assert(unroot_children_m(m, s) == m);
    } else {
        assert(sp[0] == s[0]);
        assert(sp.drop_first() =~= s.drop_first().push(h));
        assert(unroot_children_m(m, sp) == unroot_children_m(
            dec_roots_m(m, s[0].idx),
            s.drop_first().push(h),
        ));
        lemma_unroot_children_push(dec_roots_m(m, s[0].idx), s.drop_first(), h);
        assert(unroot_children_m(m, s) == unroot_children_m(
            dec_roots_m(m, s[0].idx),
            s.drop_first(),
        ));
    }
}

/// A root-accounting change on a well-formed heap leaves it well formed.
pub proof fn lemma_roots_frame_wf(m1: HeapModel, m2: HeapModel)
    requires
        roots_frame(m1, m2),
        wf(m1),
    ensures
        wf(m2),
{
    assert forall|i: int| live(m2, i) implies #[trigger] wf_box(m2, i) by {
        assert(live(m1, i));
        assert(wf_box(m1, i));
        assert(m2.slots[i] is Some);
        assert(box_of(m2, i).payload == box_of(m1, i).payload);
    }
    assert forall|i: int| live(m2, i) implies !(#[trigger] box_of(m2, i)).marked by {
        assert(live(m1, i));
        assert(m2.slots[i] is Some);
    }
    assert forall|i: int|
        0 <= i < m1.slots.len() implies ((#[trigger] m1.slots[i]) is Some <==> m2.slots[i]
        is Some) && (m1.slots[i] is Some ==> box_of(m1, i).size == box_of(m2, i).size) by {
        assert(m2.slots[i] is Some <==> m1.slots[i] is Some);
    }
    lemma_sum_sizes_congruence(m1.slots, m2.slots, m1.slots.len() as int);
}

/// Appending a live box adds its size to the total.
pub proof fn lemma_sum_sizes_push(s: Seq<Option<BoxModel>>, b: BoxModel)
    ensures
        sum_sizes_upto(s.push(Some(b)), s.len() as int + 1) == sum_sizes_upto(s, s.len() as int)
            + b.size,
    decreases s.len(),
{
    let sp = s.push(Some(b));
    assert forall|i: int| 0 <= i < s.len() implies sp[i] == s[i] by {}
    lemma_sum_sizes_prefix_congruence(sp, s, s.len() as int);
    assert(sp[s.len() as int] == Some(b));
}

/// The partial sums agree on a shared prefix.
pub proof fn lemma_sum_sizes_prefix_congruence(
    s1: Seq<Option<BoxModel>>,
    s2: Seq<Option<BoxModel>>,
    n: int,
)
    requires
        0 <= n <= s1.len(),
        n <= s2.len(),
        forall|i: int| 0 <= i < n ==> s1[i] == s2[i],
    ensures
        sum_sizes_upto(s1, n) == sum_sizes_upto(s2, n),
    decreases n,
{
    if n > 0 {
        lemma_sum_sizes_prefix_congruence(s1, s2, n - 1);
    }
}

/// What `Gc::new` asks of an incoming payload: its handles are rooted, point
/// at live boxes whose counts can come down by one, and its cell (if any) is a
/// fresh rooted cell with no borrow outstanding.
pub open spec fn payload_ok(m: HeapModel, p: PayloadModel) -> bool {
    &&& forall|k: int|
        0 <= k < p.children.len() ==> {
            &&& (#[trigger] p.children[k]).rooted
            &&& live(m, p.children[k].idx)
            &&& roots_of(m, p.children[k].idx) >= 1
        }
    &&& match p.cell {
        Some(c) => {
            &&& c.rooted
            &&& !c.writing
            &&& c.reading == 0
            &&& match c.handle {
                Some(h) => h.rooted && live(m, h.idx) && roots_of(m, h.idx) >= 1,
                None => true,
            }
        },
        None => true,
    }
}

// ---------------------------------------------------------------------------
// Transitions: tracing and rooting through the capability
// ---------------------------------------------------------------------------

/// Mark box `j`, when it is live (marking a marked box changes nothing).
pub open spec fn mark_one_m(m: HeapModel, j: int) -> HeapModel {
    if live(m, j) {
        HeapModel {
            slots: m.slots.update(j, Some(BoxModel { marked: true, ..box_of(m, j) })),
            ..m
        }
    } else {
        m
    }
}

/// Tracing a run of handles marks each target in turn.
pub open spec fn trace_children_m(m: HeapModel, s: Seq<HandleModel>) -> HeapModel
    decreases s.len(),
{
    if s.len() == 0 {
        m
    } else {
        trace_children_m(mark_one_m(m, s[0].idx), s.drop_first())
    }
}

/// Tracing a payload marks the targets of its handles, children first, then
/// the cell contents (when no writer hides them).
pub open spec fn trace_targets_m(m: HeapModel, p: PayloadModel) -> HeapModel {
    let m1 = trace_children_m(m, p.children);
    match p.cell {
        Some(c) => if !c.writing {
            match c.handle {
                Some(h) => mark_one_m(m1, h.idx),
                None => m1,
            }
        } else {
            m1
        },
        None => m1,
    }
}

pub proof fn lemma_trace_children_push(m: HeapModel, s: Seq<HandleModel>, h: HandleModel)
    ensures
        trace_children_m(m, s.push(h)) == mark_one_m(trace_children_m(m, s), h.idx),
    decreases s.len(),
{
    let sp = s.push(h);
    assert(sp.len() == s.len() + 1);
    if s.len() == 0 {
        assert(sp.drop_first() =~= Seq::<HandleModel>::empty());
        assert(sp[0] == h);
        assert(trace_children_m(m, sp) == trace_children_m(mark_one_m(m, h.idx), sp.drop_first()));
        assert(trace_children_m(mark_one_m(m, h.idx), sp.drop_first()) == mark_one_m(m, h.idx));
        assert(trace_children_m(m, s) == m);
    } else {
        assert(sp[0] == s[0]);
        assert(sp.drop_first() =~= s.drop_first().push(h));
        assert(trace_children_m(m, sp) == trace_children_m(
            mark_one_m(m, s[0].idx),
            s.drop_first().push(h),
        ));
        lemma_trace_children_push(mark_one_m(m, s[0].idx), s.drop_first(), h);
        assert(trace_children_m(m, s) == trace_children_m(
            mark_one_m(m, s[0].idx),
            s.drop_first(),
        ));
    }
}

/// Rooting a run of handles puts one root on each target in turn.
pub open spec fn root_children_m(m: HeapModel, s: Seq<HandleModel>) -> HeapModel
    decreases s.len(),
{
    if s.len() == 0 {
        m
    } else {
        root_children_m(inc_roots_m(m, s[0].idx), s.drop_first())
    }
}

/// Rooting a payload roots its children's targets, then the cell contents
/// (when no writer already owns their root).
pub open spec fn root_targets_m(m: HeapModel, p: PayloadModel) -> HeapModel {
    let m1 = root_children_m(m, p.children);
    match p.cell {
        Some(c) => if !c.writing {
            match c.handle {
                Some(h) => inc_roots_m(m1, h.idx),
                None => m1,
            }
        } else {
            m1
        },
        None => m1,
    }
}

pub proof fn lemma_root_children_push(m: HeapModel, s: Seq<HandleModel>, h: HandleModel)
    ensures
        root_children_m(m, s.push(h)) == inc_roots_m(root_children_m(m, s), h.idx),
    decreases s.len(),
{
    let sp = s.push(h);
    assert(sp.len() == s.len() + 1);
    if s.len() == 0 {
        assert(sp.drop_first() =~= Seq::<HandleModel>::empty());
        assert(sp[0] == h);
        assert(root_children_m(m, sp) == root_children_m(inc_roots_m(m, h.idx), sp.drop_first()));
        assert(root_children_m(inc_roots_m(m, h.idx), sp.drop_first()) == inc_roots_m(m, h.idx));
        assert(root_children_m(m, s) == m);
    } else {
        assert(sp[0] == s[0]);
        assert(sp.drop_first() =~= s.drop_first().push(h));
        assert(root_children_m(m, sp) == root_children_m(
            inc_roots_m(m, s[0].idx),
            s.drop_first().push(h),
        ));
        lemma_root_children_push(inc_roots_m(m, s[0].idx), s.drop_first(), h);
        assert(root_children_m(m, s) == root_children_m(
            inc_roots_m(m, s[0].idx),
            s.drop_first(),
        ));
    }
}

/// The payload with every owned handle rooted: the form `root` leaves behind.
pub open spec fn rooted_payload_m(p: PayloadModel) -> PayloadModel {
    PayloadModel {
        children: p.children.map_values(|h: HandleModel| HandleModel { rooted: true, ..h }),
        cell: match p.cell {
            Some(c) => Some(
                CellModel {
                    rooted: true,
                    handle: if c.writing {
                        c.handle
                    } else {
                        rooted_opt(c.handle, true)
                    },
                    ..c
                },
            ),
            None => None,
        },
        ..p
    }
}

/// When a payload may be rooted: none of its handles already counts as a
/// root (rooting a rooted handle is the fatal double-root of the discipline).
pub open spec fn payload_root_ok(p: PayloadModel) -> bool {
    &&& forall|k: int| 0 <= k < p.children.len() ==> !(#[trigger] p.children[k]).rooted
    &&& match p.cell {
        Some(c) => {
            &&& !c.rooted
            &&& (!c.writing ==> match c.handle {
                Some(h) => !h.rooted,
                None => true,
            })
        },
        None => true,
    }
}

/// When a payload may be unrooted: every handle it owns counts as a root
/// (unrooting an unrooted handle is the fatal double-unroot).
pub open spec fn payload_unroot_ok(p: PayloadModel) -> bool {
    &&& forall|k: int| 0 <= k < p.children.len() ==> (#[trigger] p.children[k]).rooted
    &&& match p.cell {
        Some(c) => {
            &&& c.rooted
            &&& (!c.writing ==> match c.handle {
                Some(h) => h.rooted,
                None => true,
            })
        },
        None => true,
    }
}

// ---------------------------------------------------------------------------
// Transitions: interior cells
// ---------------------------------------------------------------------------

/// The heap with the cell of live box `i` replaced.
pub open spec fn set_cell_m(m: HeapModel, i: int, c: CellModel) -> HeapModel {
    let b = box_of(m, i);
    HeapModel {
        slots: m.slots.update(
            i,
            Some(BoxModel { payload: PayloadModel { cell: Some(c), ..b.payload }, ..b }),
        ),
        ..m
    }
}

pub open spec fn rooted_opt(h: Option<HandleModel>, rooted: bool) -> Option<HandleModel> {
    match h {
        Some(hh) => Some(HandleModel { rooted, ..hh }),
        None => None,
    }
}

/// A reader enters or leaves the cell of box `i`: only the count moves.
pub open spec fn cell_reading_m(m: HeapModel, i: int, reading: nat) -> HeapModel {
    set_cell_m(m, i, CellModel { reading, ..cell_of(m, i)->Some_0 })
}

/// A writer enters the cell of box `i`. The collector cannot trace through a
/// cell under mutation, so the contents are rooted independently for the
/// writer's duration.
pub open spec fn cell_borrow_mut_m(m: HeapModel, i: int) -> HeapModel {
    let c = cell_of(m, i)->Some_0;
    let m1 = set_cell_m(
        m,
        i,
        CellModel { writing: true, reading: 0, handle: rooted_opt(c.handle, true), ..c },
    );
    match c.handle {
        Some(h) => inc_roots_m(m1, h.idx),
        None => m1,
    }
}

/// The writer leaves: the contents stop being rooted independently and the
/// cell is unused again.
pub open spec fn cell_end_borrow_mut_m(m: HeapModel, i: int) -> HeapModel {
    let c = cell_of(m, i)->Some_0;
    let m1 = set_cell_m(
        m,
        i,
        CellModel { writing: false, reading: 0, handle: rooted_opt(c.handle, false), ..c },
    );
    match c.handle {
        Some(h) => dec_roots_m(m1, h.idx),
        None => m1,
    }
}

/// A write through the writer guard replaces the handle part of the contents:
/// the old content handle is dropped (it was rooted for the writer's
/// duration), the new one stays rooted until the writer leaves.
pub open spec fn cell_write_handle_m(m: HeapModel, i: int, h: Option<HandleModel>) -> HeapModel {
    let c = cell_of(m, i)->Some_0;
    let m1 = match c.handle {
        Some(oh) => dec_roots_m(m, oh.idx),
        None => m,
    };
    set_cell_m(m1, i, CellModel { handle: rooted_opt(h, true), ..cell_of(m1, i)->Some_0 })
}

/// A write through the writer guard replaces the leaf part of the contents.
pub open spec fn cell_write_data_m(m: HeapModel, i: int, d: DataModel) -> HeapModel {
    set_cell_m(m, i, CellModel { data: d, ..cell_of(m, i)->Some_0 })
}

// ---------------------------------------------------------------------------
// Transitions: collection
// ---------------------------------------------------------------------------

pub open spec fn sat_inc(c: nat) -> nat {
    if c < usize::MAX as nat {
        c + 1
    } else {
        c
    }
}

/// The unreachable live boxes below `n`, in ascending order: the candidates
/// one mark pass leaves unmarked.
pub open spec fn cand_seq(m: HeapModel, n: int) -> Seq<int>
    decreases n,
{
    if n <= 0 {
        Seq::empty()
    } else {
        cand_seq(m, n - 1) + (if live(m, n - 1) && !reachable(m, n - 1) {
            seq![n - 1]
        } else {
            Seq::<int>::empty()
        })
    }
}

/// Mark the finalized flag of live box `c`.
pub open spec fn set_finalized_m(m: HeapModel, c: int) -> HeapModel {
    HeapModel {
        slots: m.slots.update(c, Some(BoxModel { finalized: true, ..box_of(m, c) })),
        ..m
    }
}

/// Store a fresh unrooted handle to box `v` into the cell of box `e` — the
/// resurrection write a finalizer can make. It lands only when `e` is live
/// and its cell exists with no borrow outstanding (the mutable borrow the
/// write needs would otherwise be refused).
pub open spec fn write_escape_m(m: HeapModel, e: int, v: int) -> HeapModel {
    if live(m, e) && cell_of(m, e) is Some && !cell_of(m, e)->Some_0.writing && cell_of(
        m,
        e,
    )->Some_0.reading == 0 {
        let b = box_of(m, e);
        let c = cell_of(m, e)->Some_0;
        HeapModel {
            slots: m.slots.update(
                e,
                Some(
                    BoxModel {
                        payload: PayloadModel {
                            cell: Some(
                                CellModel {
                                    handle: Some(HandleModel { idx: v, rooted: false }),
                                    ..c
                                },
                            ),
                            ..b.payload
                        },
                        ..b
                    },
                ),
            ),
            ..m
        }
    } else {
        m
    }
}

/// The effect of live box `c`'s finalizer action.
pub open spec fn apply_finalizer_m(m: HeapModel, c: int) -> HeapModel {
    let p = box_of(m, c).payload;
    match p.finalizer {
        FinalizerKind::Nothing => m,
        FinalizerKind::StoreChild { escape, value } => {
            if escape < p.children.len() && value < p.children.len() {
                write_escape_m(m, p.children[escape as int].idx, p.children[value as int].idx)
            } else {
                m
            }
        },
        FinalizerKind::StoreCellContent { escape } => {
            if escape < p.children.len() && p.cell is Some && !p.cell->Some_0.writing
                && p.cell->Some_0.handle is Some {
                write_escape_m(m, p.children[escape as int].idx, p.cell->Some_0.handle->Some_0.idx)
            } else {
                m
            }
        },
    }
}

/// Finalize candidate `c`: if it is live and has not been finalized before,
/// set the finalized flag and run its action. A box is finalized at most once
/// in its lifetime.
pub open spec fn finalize_one_m(m: HeapModel, c: int) -> HeapModel {
    if !live(m, c) {
        m
    } else if box_of(m, c).finalized {
        m
    } else {
        apply_finalizer_m(set_finalized_m(m, c), c)
    }
}

pub open spec fn finalize_seq_m(m: HeapModel, s: Seq<int>) -> HeapModel
    decreases s.len(),
{
    if s.len() == 0 {
        m
    } else {
        finalize_seq_m(finalize_one_m(m, s[0]), s.drop_first())
    }
}

pub proof fn lemma_finalize_seq_push(m: HeapModel, s: Seq<int>, c: int)
    ensures
        finalize_seq_m(m, s.push(c)) == finalize_one_m(finalize_seq_m(m, s), c),
    decreases s.len(),
{
    let sp = s.push(c);
    assert(sp.len() == s.len() + 1);
    if s.len() == 0 {
        assert(sp.drop_first() =~= Seq::<int>::empty());
        assert(sp[0] == c);
        assert(finalize_seq_m(m, sp) == finalize_seq_m(finalize_one_m(m, c), sp.drop_first()));
        assert(finalize_seq_m(finalize_one_m(m, c), sp.drop_first()) == finalize_one_m(m, c));
        assert(finalize_seq_m(m, s) == m);
    } else {
        assert(sp[0] == s[0]);
        assert(sp.drop_first() =~= s.drop_first().push(c));
        assert(finalize_seq_m(m, sp) == finalize_seq_m(
            finalize_one_m(m, s[0]),
            s.drop_first().push(c),
        ));
        lemma_finalize_seq_push(finalize_one_m(m, s[0]), s.drop_first(), c);
        assert(finalize_seq_m(m, s) == finalize_seq_m(finalize_one_m(m, s[0]), s.drop_first()));
    }
}

/// One slot after the sweep: reclaimed when still unreachable and finalized.
pub open spec fn sweep_slot_m(m: HeapModel, i: int) -> Option<BoxModel> {
    if live(m, i) && !reachable(m, i) && box_of(m, i).finalized {
        None
    } else {
        m.slots[i]
    }
}

/// The sweep: reclaim every live box that is unreachable and has had its
/// chance at finalization; the byte counter comes down to the survivors.
pub open spec fn sweep_m(m: HeapModel) -> HeapModel {
    let slots = Seq::new(m.slots.len(), |i: int| sweep_slot_m(m, i));
    HeapModel { slots, bytes: sum_sizes_upto(slots, slots.len() as int), ..m }
}

/// A whole collection: count it, find the unreachable boxes, give each its
/// one chance to finalize (possibly resurrecting others), then sweep what is
/// still unreachable and finalized. When nothing was unreachable the heap is
/// untouched beyond the counter.
pub open spec fn collect_m(m: HeapModel) -> HeapModel {
    let m1 = HeapModel { collections: sat_inc(m.collections), ..m };
    let cands = cand_seq(m1, m1.slots.len() as int);
    if cands.len() == 0 {
        m1
    } else {
        sweep_m(finalize_seq_m(m1, cands))
    }
}

/// An index list as mathematical integers.
pub open spec fn to_int_seq(s: Seq<usize>) -> Seq<int> {
    s.map_values(|u: usize| u as int)
}

/// Membership in an index list.
pub open spec fn in_list(s: Seq<int>, i: int) -> bool {
    exists|k: int| 0 <= k < s.len() && s[k] == i
}

/// The heap with its mark bits set exactly on the reachable boxes: what one
/// mark pass computes.
pub open spec fn mark_model(m: HeapModel) -> HeapModel {
    HeapModel {
        slots: Seq::new(
            m.slots.len(),
            |i: int|
                match m.slots[i] {
                    Option::None => Option::<BoxModel>::None,
                    Option::Some(b) => Option::Some(BoxModel { marked: reachable(m, i), ..b }),
                },
        ),
        ..m
    }
}

/// The heap with every mark bit cleared.
pub open spec fn unmark_model(m: HeapModel) -> HeapModel {
    HeapModel {
        slots: Seq::new(
            m.slots.len(),
            |i: int|
                match m.slots[i] {
                    Option::None => Option::<BoxModel>::None,
                    Option::Some(b) => Option::Some(BoxModel { marked: false, ..b }),
                },
        ),
        ..m
    }
}

/// The live unmarked boxes below `n`, ascending: what the candidate walk
/// gathers after a mark pass.
pub open spec fn unmarked_seq(m: HeapModel, n: int) -> Seq<int>
    decreases n,
{
    if n <= 0 {
        Seq::empty()
    } else {
        unmarked_seq(m, n - 1) + (if live(m, n - 1) && !box_of(m, n - 1).marked {
            seq![n - 1]
        } else {
            Seq::<int>::empty()
        })
    }
}

/// Membership and order of the candidate walk's result.
pub proof fn lemma_unmarked_seq_props(m: HeapModel, n: int)
    requires
        n <= m.slots.len(),
    ensures
        forall|k: int|
            0 <= k < unmarked_seq(m, n).len() ==> {
                &&& 0 <= #[trigger] unmarked_seq(m, n)[k] < n
                &&& live(m, unmarked_seq(m, n)[k])
                &&& !box_of(m, unmarked_seq(m, n)[k]).marked
            },
        forall|k1: int, k2: int|
            0 <= k1 < k2 < unmarked_seq(m, n).len() ==> unmarked_seq(m, n)[k1] < unmarked_seq(
                m,
                n,
            )[k2],
        forall|j: int|
            0 <= j < n && live(m, j) && !box_of(m, j).marked ==> unmarked_seq(m, n).contains(j),
    decreases n,
{
    if n > 0 {
        lemma_unmarked_seq_props(m, n - 1);
        let s = unmarked_seq(m, n);
        let s0 = unmarked_seq(m, n - 1);
        assert forall|j: int|
            0 <= j < n && live(m, j) && !box_of(m, j).marked implies s.contains(j) by {
            if j < n - 1 {
                assert(s0.contains(j));
                let k = choose|k: int| 0 <= k < s0.len() && s0[k] == j;
                assert(s[k] == j);
            } else {
                assert(s[s.len() - 1] == j);
            }
        }
    }
}

/// When live-and-unmarked in `m1` matches live-and-unreachable in `m2` below
/// `n`, the two walks agree.
pub proof fn lemma_unmarked_eq_cand(m1: HeapModel, m2: HeapModel, n: int)
    requires
        forall|i: int|
            0 <= i < n ==> ((live(m1, i) && !(#[trigger] box_of(m1, i)).marked) <==> (live(m2, i)
                && !reachable(m2, i))),
    ensures
        unmarked_seq(m1, n) == cand_seq(m2, n),
    decreases n,
{
    if n > 0 {
        lemma_unmarked_eq_cand(m1, m2, n - 1);
    }
}

/// Finalizing touches only the finalized flags and the cell contents: the
/// live set, the root counts, the marks, the sizes, the children and the
/// finalizers all stay, and every cell keeps its flags and leaf data.
pub open spec fn finalize_frame(m1: HeapModel, m2: HeapModel) -> bool {
    &&& m2.slots.len() == m1.slots.len()
    &&& m2.bytes == m1.bytes
    &&& m2.threshold == m1.threshold
    &&& m2.percent == m1.percent
    &&& m2.leak_on_drop == m1.leak_on_drop
    &&& m2.collections == m1.collections
    &&& m2.sweeping == m1.sweeping
    &&& forall|i: int| 0 <= i < m1.slots.len() ==> ((#[trigger] m2.slots[i]) is Some <==> m1.slots[i] is Some)
    &&& forall|i: int|
        #![trigger m2.slots[i]]
        0 <= i < m1.slots.len() && m1.slots[i] is Some ==> {
            let b1 = box_of(m1, i);
            let b2 = box_of(m2, i);
            &&& b2.roots == b1.roots
            &&& b2.marked == b1.marked
            &&& b2.size == b1.size
            &&& b2.payload.data == b1.payload.data
            &&& b2.payload.children == b1.payload.children
            &&& b2.payload.finalizer == b1.payload.finalizer
            &&& (b2.payload.cell is Some <==> b1.payload.cell is Some)
            &&& (b1.payload.cell is Some ==> {
                let c1 = b1.payload.cell->Some_0;
                let c2 = b2.payload.cell->Some_0;
                c2.rooted == c1.rooted && c2.writing == c1.writing && c2.reading == c1.reading
                    && c2.data == c1.data
            })
        }
}

pub proof fn lemma_finalize_one_frame(m: HeapModel, c: int)
    ensures
        finalize_frame(m, finalize_one_m(m, c)),
{
}

pub proof fn lemma_finalize_frame_trans(m1: HeapModel, m2: HeapModel, m3: HeapModel)
    requires
        finalize_frame(m1, m2),
        finalize_frame(m2, m3),
    ensures
        finalize_frame(m1, m3),
{
}

pub proof fn lemma_finalize_seq_frame(m: HeapModel, s: Seq<int>)
    ensures
        finalize_frame(m, finalize_seq_m(m, s)),
    decreases s.len(),
{
    if s.len() == 0 {
    } else {
        lemma_finalize_one_frame(m, s[0]);
        lemma_finalize_seq_frame(finalize_one_m(m, s[0]), s.drop_first());
        lemma_finalize_frame_trans(m, finalize_one_m(m, s[0]), finalize_seq_m(m, s));
        assert(finalize_seq_m(m, s) == finalize_seq_m(finalize_one_m(m, s[0]), s.drop_first()));
    }
}

/// Finalizing keeps every box structurally well formed: the cell handle a
/// resurrection writes is unrooted, in bounds, and lands only in a cell with
/// no writer.
pub proof fn lemma_finalize_one_wf(m: HeapModel, c: int)
    requires
        forall|i: int| live(m, i) ==> #[trigger] wf_box(m, i),
    ensures
        forall|i: int| live(finalize_one_m(m, c), i) ==> #[trigger] wf_box(finalize_one_m(m, c), i),
{
    let m2 = finalize_one_m(m, c);
    lemma_finalize_one_frame(m, c);
    assert forall|i: int| live(m2, i) implies #[trigger] wf_box(m2, i) by {
        assert(live(m, i));
        assert(wf_box(m, i));
        assert(m2.slots[i] is Some);
        let b1 = box_of(m, i);
        let b2 = box_of(m2, i);
        assert forall|k: int| 0 <= k < b2.payload.children.len() implies {
            &&& wf_handle(#[trigger] b2.payload.children[k])
            &&& !b2.payload.children[k].rooted
        } by {
            assert(b2.payload.children[k] == b1.payload.children[k]);
        }
        match b2.payload.cell {
            Some(c2) => {
                match c2.handle {
                    Some(h) => {
                        if b1.payload.cell->Some_0.handle == c2.handle {
                        } else {
                            // the handle was written by a finalizer action
                            lemma_finalize_one_writes_wf(m, c, i);
                        }
                    },
                    None => {},
                }
            },
            None => {},
        }
    }
}

/// Any cell handle a finalizer action writes is unrooted and in bounds, and
/// the cell it lands in has no writer.
proof fn lemma_finalize_one_writes_wf(m: HeapModel, c: int, i: int)
    requires
        forall|j: int| live(m, j) ==> #[trigger] wf_box(m, j),
        live(finalize_one_m(m, c), i),
        box_of(finalize_one_m(m, c), i).payload.cell is Some,
        box_of(finalize_one_m(m, c), i).payload.cell->Some_0.handle is Some,
        !(box_of(m, i).payload.cell is Some && box_of(m, i).payload.cell->Some_0.handle == box_of(
            finalize_one_m(m, c),
            i,
        ).payload.cell->Some_0.handle),
    ensures
        wf_handle(box_of(finalize_one_m(m, c), i).payload.cell->Some_0.handle->Some_0),
        !box_of(finalize_one_m(m, c), i).payload.cell->Some_0.handle->Some_0.rooted,
        !box_of(finalize_one_m(m, c), i).payload.cell->Some_0.writing,
{
    lemma_finalize_one_frame(m, c);
    if live(m, c) && !box_of(m, c).finalized {
        let ms = set_finalized_m(m, c);
        let p = box_of(ms, c).payload;
        assert(wf_box(m, c));
        match p.finalizer {
            FinalizerKind::Nothing => {},
            FinalizerKind::StoreChild { escape, value } => {
                if escape < p.children.len() && value < p.children.len() {
                    assert(wf_handle(p.children[value as int]));
                } else {
                }
            },
            FinalizerKind::StoreCellContent { escape } => {
                if escape < p.children.len() && p.cell is Some && !p.cell->Some_0.writing
                    && p.cell->Some_0.handle is Some {
                    assert(wf_handle(p.cell->Some_0.handle->Some_0));
                } else {
                }
            },
        }
    } else {
    }
}

/// Widen the threshold when the survivors fill it past the configured ratio.
pub open spec fn adapt_m(m: HeapModel) -> HeapModel {
    if m.bytes * 100 > m.threshold * m.percent {
        HeapModel { threshold: m.bytes * 100 / m.percent, ..m }
    } else {
        m
    }
}

/// A fresh allocation: collect first when past the threshold (widening it if
/// the survivors still fill it), unroot the payload's handles — they live on
/// the heap now and tracing will find them — and append the new box, rooted
/// once for the handle given out.
pub open spec fn gc_new_m(m: HeapModel, p: PayloadModel, size: nat) -> HeapModel {
    let m1 = if m.bytes > m.threshold {
        adapt_m(collect_m(m))
    } else {
        m
    };
    let m2 = unroot_targets_m(m1, p);
    HeapModel {
        slots: m2.slots.push(
            Some(
                BoxModel {
                    roots: 1,
                    marked: false,
                    finalized: false,
                    size,
                    payload: unrooted_payload_m(p),
                },
            ),
        ),
        bytes: m2.bytes + size,
        ..m2
    }
}

} // verus!
