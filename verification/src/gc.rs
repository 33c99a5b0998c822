//! The heap: box headers, boxes, the per-context heap state, and the collector.
use vstd::prelude::*;

use crate::model::{
    all_unmarked, apply_finalizer_m, box_of, cand_seq, cell_of, children_of, collect_m,
    count_marked, edge, finalize_frame, finalize_one_m, finalize_seq_m, in_list, is_path,
    lemma_all_unmarked_congruence, lemma_count_marked_le, lemma_count_update_heaps, lemma_finalize_one_frame, lemma_finalize_one_wf,
    lemma_finalize_seq_frame, lemma_finalize_seq_push, lemma_path_end_marked,
    lemma_reachable_step, lemma_rooted_reachable,
    lemma_sum_sizes_congruence, lemma_sum_sizes_update, lemma_unmarked_eq_cand,
    lemma_unmarked_seq_props, lemma_wf_boxes_congruence, live, mark_model, marked_of, reachable,
    rooted_box, same_except_marks, sat_inc, set_finalized_m, slots_cap, structure_same,
    sum_sizes, sum_sizes_upto, sweep_m, sweep_slot_m, to_int_seq, unmark_model, unmarked_seq, wf,
    wf_box, wf_handle, wf_struct, BoxModel, CellModel, HandleModel, HeapModel, PayloadModel,
    ROOTS_MAX,
};
use crate::trace::{bump, Data, FinalizerKind, Payload, Trace, WatchFlags};
use crate::model::roots_of;
use crate::{BorrowState, CellPart, Gc, GcCellRef, GcCellRefMut};

verus! {

/// A box header: one word whose high bit is the mark flag, whose second
/// highest bit is the finalized flag, and whose remaining bits hold the root
/// count.
pub struct GcBoxHeader {
    word: u64,
}

impl GcBoxHeader {
    pub closed spec fn roots_spec(self) -> nat {
        (self.word & 0x3fff_ffff_ffff_ffff) as nat
    }

    pub closed spec fn marked_spec(self) -> bool {
        self.word & 0x8000_0000_0000_0000 != 0
    }

    pub closed spec fn finalized_spec(self) -> bool {
        self.word & 0x4000_0000_0000_0000 != 0
    }

    /// A fresh header: unmarked, unfinalized, root count one.
    pub fn new() -> (r: GcBoxHeader)
        ensures
            r.roots_spec() == 1,
            !r.marked_spec(),
            !r.finalized_spec(),
    {
        proof {
            assert(1u64 & 0x3fff_ffff_ffff_ffff == 1 && 1u64 & 0x8000_0000_0000_0000 == 0
                && 1u64 & 0x4000_0000_0000_0000 == 0) by (bit_vector);
        }
        GcBoxHeader { word: 1 }
    }

    /// The root count, with the flag bits masked off.
    pub fn roots(&self) -> (r: u64)
        ensures
            r as nat == self.roots_spec(),
    {
        self.word & 0x3fff_ffff_ffff_ffff
    }

    /// Add one root. The count must have room: the caller keeps it below
    /// `ROOTS_MAX`, since a count past the ceiling would spill into the flag
    /// bits.
    pub fn inc_roots(&mut self)
        requires
            old(self).roots_spec() < ROOTS_MAX as nat,
        ensures
            final(self).roots_spec() == old(self).roots_spec() + 1,
            final(self).marked_spec() == old(self).marked_spec(),
            final(self).finalized_spec() == old(self).finalized_spec(),
    {
        let w = self.word;
        proof {
            assert((w & 0x3fff_ffff_ffff_ffff) < 0x3fff_ffff_ffff_ffff ==> w
                < 0xffff_ffff_ffff_ffff && (((w + 1) as u64) & 0x3fff_ffff_ffff_ffff) == (w
                & 0x3fff_ffff_ffff_ffff) + 1 && (((w + 1) as u64) & 0x8000_0000_0000_0000) == (w
                & 0x8000_0000_0000_0000) && (((w + 1) as u64) & 0x4000_0000_0000_0000) == (w
                & 0x4000_0000_0000_0000)) by (bit_vector);
        }
        self.word = w + 1;
    }

    /// Remove one root; the count is positive (every rooted handle put one in).
    pub fn dec_roots(&mut self)
        requires
            old(self).roots_spec() >= 1,
        ensures
            final(self).roots_spec() == old(self).roots_spec() - 1,
            final(self).marked_spec() == old(self).marked_spec(),
            final(self).finalized_spec() == old(self).finalized_spec(),
    {
        let w = self.word;
        proof {
            assert((w & 0x3fff_ffff_ffff_ffff) >= 1 ==> w >= 1 && (((w - 1) as u64)
                & 0x3fff_ffff_ffff_ffff) == (w & 0x3fff_ffff_ffff_ffff) - 1 && (((w - 1) as u64)
                & 0x8000_0000_0000_0000) == (w & 0x8000_0000_0000_0000) && (((w - 1) as u64)
                & 0x4000_0000_0000_0000) == (w & 0x4000_0000_0000_0000)) by (bit_vector);
        }
        self.word = w - 1;
    }

    pub fn is_marked(&self) -> (r: bool)
        ensures
            r == self.marked_spec(),
    {
        self.word & 0x8000_0000_0000_0000 != 0
    }

    pub fn is_finalized(&self) -> (r: bool)
        ensures
            r == self.finalized_spec(),
    {
        self.word & 0x4000_0000_0000_0000 != 0
    }

    pub fn set_finalized(&mut self)
        ensures
            final(self).roots_spec() == old(self).roots_spec(),
            final(self).marked_spec() == old(self).marked_spec(),
            final(self).finalized_spec(),
    {
        let w = self.word;
        proof {
            assert(((w | 0x4000_0000_0000_0000) & 0x3fff_ffff_ffff_ffff) == (w
                & 0x3fff_ffff_ffff_ffff) && ((w | 0x4000_0000_0000_0000) & 0x8000_0000_0000_0000)
                == (w & 0x8000_0000_0000_0000) && ((w | 0x4000_0000_0000_0000)
                & 0x4000_0000_0000_0000) != 0) by (bit_vector);
        }
        self.word = w | 0x4000_0000_0000_0000;
    }

    pub fn mark(&mut self)
        ensures
            final(self).roots_spec() == old(self).roots_spec(),
            final(self).marked_spec(),
            final(self).finalized_spec() == old(self).finalized_spec(),
    {
        let w = self.word;
        proof {
            assert(((w | 0x8000_0000_0000_0000) & 0x3fff_ffff_ffff_ffff) == (w
                & 0x3fff_ffff_ffff_ffff) && ((w | 0x8000_0000_0000_0000) & 0x8000_0000_0000_0000)
                != 0 && ((w | 0x8000_0000_0000_0000) & 0x4000_0000_0000_0000) == (w
                & 0x4000_0000_0000_0000)) by (bit_vector);
        }
        self.word = w | 0x8000_0000_0000_0000;
    }

    pub fn unmark(&mut self)
        ensures
            final(self).roots_spec() == old(self).roots_spec(),
            !final(self).marked_spec(),
            final(self).finalized_spec() == old(self).finalized_spec(),
    {
        let w = self.word;
        proof {
            assert(((w & 0x7fff_ffff_ffff_ffff) & 0x3fff_ffff_ffff_ffff) == (w
                & 0x3fff_ffff_ffff_ffff) && ((w & 0x7fff_ffff_ffff_ffff) & 0x8000_0000_0000_0000)
                == 0 && ((w & 0x7fff_ffff_ffff_ffff) & 0x4000_0000_0000_0000) == (w
                & 0x4000_0000_0000_0000)) by (bit_vector);
        }
        self.word = w & 0x7fff_ffff_ffff_ffff;
    }
}

/// A managed box: header, accounted size, payload.
pub struct GcBox {
    pub(crate) header: GcBoxHeader,
    pub(crate) size: usize,
    pub(crate) value: Payload,
}

impl View for GcBox {
    type V = BoxModel;

    open(crate) spec fn view(&self) -> BoxModel {
        BoxModel {
            roots: self.header.roots_spec(),
            marked: self.header.marked_spec(),
            finalized: self.header.finalized_spec(),
            size: self.size as nat,
            payload: self.value@,
        }
    }
}

impl GcBox {
    /// A fresh box around a payload. It starts its life rooted.
    pub fn new(value: Payload, size: usize) -> (r: GcBox)
        ensures
            r@ == (BoxModel {
                roots: 1nat,
                marked: false,
                finalized: false,
                size: size as nat,
                payload: value@,
            }),
    {
        GcBox { header: GcBoxHeader::new(), size, value }
    }

    /// The payload.
    pub fn value(&self) -> (r: &Payload)
        ensures
            r@ == self@.payload,
    {
        &self.value
    }
}

/// One slot of the heap arena. A reclaimed slot keeps the final
/// instrumentation counters of the payload it held (and of its cell contents),
/// so the collector's behaviour stays observable after the value is gone.
pub enum Slot {
    Live(GcBox),
    Dead(WatchFlags, Option<WatchFlags>),
}

pub open spec fn slot_model(s: Slot) -> Option<BoxModel> {
    match s {
        Slot::Live(b) => Some(b@),
        Slot::Dead(_, _) => None,
    }
}

/// Collector configuration.
pub struct GcConfig {
    /// Allocated bytes past which the next allocation collects first.
    pub threshold: usize,
    /// Percentage of `threshold` the survivors may fill after a collection
    /// before the threshold is widened (growth stays geometric).
    pub used_space_percent: usize,
    /// Skip the final collection when the heap is torn down.
    pub leak_on_drop: bool,
}

impl Default for GcConfig {
    fn default() -> (r: GcConfig)
        ensures
            r.threshold == 100,
            r.used_space_percent == 70,
            r.leak_on_drop == false,
    {
        GcConfig { threshold: 100, used_space_percent: 70, leak_on_drop: false }
    }
}

/// Observable collector statistics.
#[derive(Clone, Copy, PartialEq, Eq, Structural, Debug)]
pub struct GcStats {
    pub bytes_allocated: usize,
    pub collections_performed: usize,
}

/// The heap of one context: the slot arena, the byte counter, the
/// configuration, the statistics and the sweeping flag.
pub struct GcState {
    pub(crate) slots: Vec<Slot>,
    pub(crate) bytes_allocated: usize,
    pub(crate) config: GcConfig,
    pub(crate) collections: usize,
    pub(crate) sweeping: bool,
}

impl View for GcState {
    type V = HeapModel;

    open(crate) spec fn view(&self) -> HeapModel {
        HeapModel {
            slots: Seq::new(self.slots@.len(), |i: int| slot_model(self.slots@[i])),
            bytes: self.bytes_allocated as nat,
            threshold: self.config.threshold as nat,
            percent: self.config.used_space_percent as nat,
            leak_on_drop: self.config.leak_on_drop,
            collections: self.collections as nat,
            sweeping: self.sweeping,
        }
    }
}

impl GcState {
    /// A fresh, empty heap with the default configuration.
    pub fn new() -> (r: GcState)
        ensures
            wf(r@),
            r@.slots.len() == 0,
            r@.bytes == 0,
            r@.threshold == 100,
            r@.percent == 70,
            !r@.leak_on_drop,
            r@.collections == 0,
    {
        let r = GcState {
            slots: Vec::new(),
            bytes_allocated: 0,
            config: GcConfig::default(),
            collections: 0,
            sweeping: false,
        };
        proof {
            assert(r@.slots.len() == 0);
            assert(sum_sizes(r@) == 0);
        }
        r
    }
}

impl GcState {
    /// The number of slots the arena ever held.
    pub fn n_slots(&self) -> (r: usize)
        ensures
            r == self@.slots.len(),
    {
        self.slots.len()
    }

    /// The current collection threshold.
    pub fn threshold(&self) -> (r: usize)
        ensures
            r as nat == self@.threshold,
    {
        self.config.threshold
    }

    /// The root count of the live box in slot `i`.
    pub fn root_count(&self, i: usize) -> (r: u64)
        requires
            live(self@, i as int),
        ensures
            r as nat == roots_of(self@, i as int),
    {
        self.roots_at(i)
    }

    /// Whether slot `i` holds a live box.
    pub fn live_at(&self, i: usize) -> (r: bool)
        requires
            i < self@.slots.len(),
        ensures
            r == live(self@, i as int),
    {
        match &self.slots[i] {
            Slot::Live(_) => true,
            Slot::Dead(_, _) => false,
        }
    }

    pub(crate) fn roots_at(&self, i: usize) -> (r: u64)
        requires
            live(self@, i as int),
        ensures
            r as nat == box_of(self@, i as int).roots,
    {
        match &self.slots[i] {
            Slot::Live(b) => b.header.roots(),
            Slot::Dead(_, _) => {
                proof {
                    assert(false);
                }
                0
            },
        }
    }

    pub(crate) fn is_marked_at(&self, i: usize) -> (r: bool)
        requires
            live(self@, i as int),
        ensures
            r == box_of(self@, i as int).marked,
    {
        match &self.slots[i] {
            Slot::Live(b) => b.header.is_marked(),
            Slot::Dead(_, _) => {
                proof {
                    assert(false);
                }
                false
            },
        }
    }

    pub(crate) fn is_finalized_at(&self, i: usize) -> (r: bool)
        requires
            live(self@, i as int),
        ensures
            r == box_of(self@, i as int).finalized,
    {
        match &self.slots[i] {
            Slot::Live(b) => b.header.is_finalized(),
            Slot::Dead(_, _) => {
                proof {
                    assert(false);
                }
                false
            },
        }
    }

    pub(crate) fn child_count(&self, i: usize) -> (r: usize)
        requires
            live(self@, i as int),
        ensures
            r == children_of(self@, i as int).len(),
    {
        match &self.slots[i] {
            Slot::Live(b) => b.value.children.len(),
            Slot::Dead(_, _) => {
                proof {
                    assert(false);
                }
                0
            },
        }
    }

    pub(crate) fn child_target(&self, i: usize, k: usize) -> (r: usize)
        requires
            live(self@, i as int),
            k < children_of(self@, i as int).len(),
        ensures
            r as int == children_of(self@, i as int)[k as int].idx,
    {
        match &self.slots[i] {
            Slot::Live(b) => b.value.children[k].index(),
            Slot::Dead(_, _) => {
                proof {
                    assert(false);
                }
                0
            },
        }
    }

    /// The box the cell of box `i` makes visible to tracing: its contents'
    /// target, unless a writer hides them.
    pub(crate) fn cell_target(&self, i: usize) -> (r: Option<usize>)
        requires
            live(self@, i as int),
        ensures
            (r is Some <==> (cell_of(self@, i as int) is Some && !cell_of(
                self@,
                i as int,
            )->Some_0.writing && cell_of(self@, i as int)->Some_0.handle is Some)),
            r is Some ==> r->Some_0 as int == cell_of(self@, i as int)->Some_0.handle->Some_0.idx,
    {
        match &self.slots[i] {
            Slot::Live(b) => match &b.value.cell {
                Some(c) => {
                    let state = c.flags.borrowed();
                    if state == BorrowState::Writing {
                        None
                    } else {
                        match &c.handle {
                            Some(g) => Some(g.index()),
                            None => None,
                        }
                    }
                },
                None => None,
            },
            Slot::Dead(_, _) => {
                proof {
                    assert(false);
                }
                None
            },
        }
    }

    /// Mark box `i` and record the trace on its payload (and on its cell
    /// contents when no writer hides them).
    pub(crate) fn mark_box(&mut self, i: usize)
        requires
            live(old(self)@, i as int),
        ensures
            final(self)@ == (HeapModel {
                slots: old(self)@.slots.update(
                    i as int,
                    Some(BoxModel { marked: true, ..box_of(old(self)@, i as int) }),
                ),
                ..old(self)@
            }),
    {
        let b = &mut self.slots[i];
        match b {
            Slot::Live(gb) => {
                gb.header.mark();
                gb.value.watch.trace = bump(gb.value.watch.trace);
                match &mut gb.value.cell {
                    Some(c) => {
                        let state = c.flags.borrowed();
                        if !(state == BorrowState::Writing) {
                            c.watch.trace = bump(c.watch.trace);
                        }
                    },
                    None => {},
                }
            },
            Slot::Dead(_, _) => {
                proof {
                    assert(false);
                }
            },
        }
        proof {
            assert(self@.slots =~= old(self)@.slots.update(
                i as int,
                Some(BoxModel { marked: true, ..box_of(old(self)@, i as int) }),
            ));
            assert(self@ =~= (HeapModel {
                slots: old(self)@.slots.update(
                    i as int,
                    Some(BoxModel { marked: true, ..box_of(old(self)@, i as int) }),
                ),
                ..old(self)@
            }));
        }
    }
}

impl GcState {
    /// Trace one marked box: mark every box it refers to directly. A stored
    /// handle may dangle (see `wf_handle`), so each target is checked for
    /// liveness before it is marked. Reports whether any box was newly marked.
    #[verifier::loop_isolation(false)]
    fn scan_box(&mut self, i: usize, Ghost(m0): Ghost<HeapModel>) -> (changed: bool)
        requires
            wf_struct(m0),
            same_except_marks(m0, old(self)@),
            live(old(self)@, i as int),
            marked_of(old(self)@, i as int),
            forall|j: int| marked_of(old(self)@, j) ==> reachable(m0, j),
        ensures
            same_except_marks(m0, final(self)@),
            forall|j: int| marked_of(old(self)@, j) ==> marked_of(final(self)@, j),
            forall|j: int| marked_of(final(self)@, j) ==> reachable(m0, j),
            !changed ==> final(self)@ == old(self)@,
            !changed ==> forall|k: int|
                edge(m0, i as int, k) ==> marked_of(final(self)@, k),
            changed ==> count_marked(final(self)@) > count_marked(old(self)@),
    {
        let ghost mstart = self@;
        let mut changed = false;
        let n = self.n_slots();
        let cc = self.child_count(i);
        proof {
            assert(m0.slots[i as int] is Some);
            assert(children_of(self@, i as int) == children_of(m0, i as int));
        }
        let mut k: usize = 0;
        while k < cc
            invariant
                k <= cc,
                n == m0.slots.len(),
                same_except_marks(m0, self@),
                live(self@, i as int),
                marked_of(self@, i as int),
                forall|j: int| marked_of(mstart, j) ==> marked_of(self@, j),
                forall|j: int| marked_of(self@, j) ==> reachable(m0, j),
                !changed ==> self@ == mstart,
                changed ==> count_marked(self@) > count_marked(mstart),
                forall|k2: int|
                    0 <= k2 < k && live(m0, children_of(m0, i as int)[k2].idx) ==> marked_of(
                        self@,
                        children_of(m0, i as int)[k2].idx,
                    ),
            decreases cc - k,
        {
            proof {
                assert(children_of(self@, i as int) == children_of(m0, i as int));
            }
            let j = self.child_target(i, k);
            if j < n && self.live_at(j) {
                proof {
                    assert(live(m0, j as int));
                }
                if !self.is_marked_at(j) {
                    let ghost before = self@;
                    self.mark_box(j);
                    changed = true;
                    proof {
                        assert(marked_of(self@, j as int));
                        lemma_count_update_heaps(before, self@, j as int);
                        assert(edge(m0, i as int, j as int));
                        lemma_reachable_step(m0, i as int, j as int);
                        assert forall|jj: int| marked_of(self@, jj) implies reachable(m0, jj) by {
                            if jj != j as int {
                                assert(marked_of(before, jj));
                            }
                        }
                    }
                }
            } else {
                proof {
                    assert(!live(self@, j as int));
                    assert(!live(m0, j as int));
                }
            }
            k += 1;
        }
        let cell_j = self.cell_target(i);
        proof {
            assert(box_of(self@, i as int).payload == box_of(m0, i as int).payload);
        }
        match cell_j {
            Some(j) => {
                proof {
                    assert(cell_of(self@, i as int) == cell_of(m0, i as int));
                }
                if j < n && self.live_at(j) {
                    proof {
                        assert(live(m0, j as int));
                    }
                    if !self.is_marked_at(j) {
                        let ghost before = self@;
                        self.mark_box(j);
                        changed = true;
                        proof {
                            lemma_count_update_heaps(before, self@, j as int);
                            assert(edge(m0, i as int, j as int));
                            lemma_reachable_step(m0, i as int, j as int);
                            assert forall|jj: int| marked_of(self@, jj) implies reachable(
                                m0,
                                jj,
                            ) by {
                                if jj != j as int {
                                    assert(marked_of(before, jj));
                                }
                            }
                        }
                    }
                }
            },
            None => {},
        }
        proof {
            if !changed {
                assert forall|kk: int| edge(m0, i as int, kk) implies marked_of(self@, kk) by {
                    assert(live(m0, kk));
                    assert(cell_of(self@, i as int) == cell_of(m0, i as int));
                    if exists|k2: int|
                        0 <= k2 < children_of(m0, i as int).len() && children_of(
                            m0,
                            i as int,
                        )[k2].idx == kk {
                        let k2 = choose|k2: int|
                            0 <= k2 < children_of(m0, i as int).len() && children_of(
                                m0,
                                i as int,
                            )[k2].idx == kk;
                        assert(marked_of(self@, children_of(m0, i as int)[k2].idx));
                    } else {
                        assert(cell_of(m0, i as int) is Some && !cell_of(
                            m0,
                            i as int,
                        )->Some_0.writing && cell_of(m0, i as int)->Some_0.handle is Some
                            && cell_of(m0, i as int)->Some_0.handle->Some_0.idx == kk);
                        assert(cell_j is Some && cell_j->Some_0 as int == kk);
                        assert(marked_of(self@, kk));
                    }
                }
            }
        }
        changed
    }

    /// One full pass over the arena: trace every marked box. Reports whether
    /// the pass marked anything new.
    #[verifier::loop_isolation(false)]
    fn mark_pass(&mut self, Ghost(m0): Ghost<HeapModel>) -> (changed: bool)
        requires
            wf_struct(m0),
            same_except_marks(m0, old(self)@),
            forall|j: int| marked_of(old(self)@, j) ==> reachable(m0, j),
        ensures
            same_except_marks(m0, final(self)@),
            forall|j: int| marked_of(old(self)@, j) ==> marked_of(final(self)@, j),
            forall|j: int| marked_of(final(self)@, j) ==> reachable(m0, j),
            !changed ==> final(self)@ == old(self)@,
            !changed ==> forall|j: int, k: int|
                marked_of(final(self)@, j) && edge(m0, j, k) ==> marked_of(final(self)@, k),
            changed ==> count_marked(final(self)@) > count_marked(old(self)@),
    {
        let ghost mstart = self@;
        let mut changed = false;
        let n = self.n_slots();
        let mut i: usize = 0;
        while i < n
            invariant
                i <= n,
                same_except_marks(m0, self@),
                forall|j: int| marked_of(mstart, j) ==> marked_of(self@, j),
                forall|j: int| marked_of(self@, j) ==> reachable(m0, j),
                !changed ==> self@ == mstart,
                changed ==> count_marked(self@) > count_marked(mstart),
                !changed ==> forall|j: int, k: int|
                    0 <= j < i && marked_of(self@, j) && edge(m0, j, k) ==> marked_of(self@, k),
            decreases n - i,
        {
            if self.live_at(i) {
                if self.is_marked_at(i) {
                    let ghost before = self@;
                    let ch = self.scan_box(i, Ghost(m0));
                    if ch {
                        changed = true;
                    }
                    proof {
                        if !changed {
                            assert(self@ == before);
                            assert forall|j: int, k: int|
                                0 <= j < i + 1 && marked_of(self@, j) && edge(m0, j, k)
                                    implies marked_of(self@, k) by {
                                if j == i as int {
                                    assert(marked_of(self@, k));
                                } else {
                                    assert(marked_of(before, k));
                                }
                            }
                        }
                    }
                }
            }
            i += 1;
        }
        changed
    }

    /// The mark phase: mark exactly the boxes reachable from a rooted box.
    #[verifier::loop_isolation(false)]
    pub(crate) fn mark_phase(&mut self)
        requires
            wf_struct(old(self)@),
            all_unmarked(old(self)@),
        ensures
            final(self)@ == mark_model(old(self)@),
    {
        let ghost m0 = self@;
        let n = self.n_slots();
        // Seed: mark (and trace) every rooted box.
        let mut i: usize = 0;
        while i < n
            invariant
                i <= n,
                same_except_marks(m0, self@),
                forall|j: int| marked_of(self@, j) ==> rooted_box(m0, j),
                forall|j: int| 0 <= j < i && rooted_box(m0, j) ==> marked_of(self@, j),
            decreases n - i,
        {
            if self.live_at(i) {
                if self.roots_at(i) > 0 && !self.is_marked_at(i) {
                    self.mark_box(i);
                }
            }
            i += 1;
        }
        proof {
            assert forall|j: int| marked_of(self@, j) implies reachable(m0, j) by {
                lemma_rooted_reachable(m0, j);
            }
        }
        // Fixed point: trace until no pass marks anything new.
        proof {
            lemma_count_marked_le(self@.slots, self@.slots.len() as int);
        }
        let mut changed = true;
        while changed
            invariant
                same_except_marks(m0, self@),
                forall|j: int| rooted_box(m0, j) ==> marked_of(self@, j),
                forall|j: int| marked_of(self@, j) ==> reachable(m0, j),
                count_marked(self@) <= m0.slots.len(),
                !changed ==> forall|j: int, k: int|
                    marked_of(self@, j) && edge(m0, j, k) ==> marked_of(self@, k),
            decreases m0.slots.len() - count_marked(self@) + (if changed {
                1int
            } else {
                0int
            }),
        {
            changed = self.mark_pass(Ghost(m0));
            proof {
                lemma_count_marked_le(self@.slots, self@.slots.len() as int);
            }
        }
        // Everything reachable is marked: the marked set contains the rooted
        // boxes and is closed under edges.
        proof {
            assert forall|j: int| reachable(m0, j) implies marked_of(self@, j) by {
                let p = choose|p: Seq<int>| is_path(m0, p) && p.last() == j;
                lemma_path_end_marked(m0, self@, p);
            }
            assert forall|j: int| 0 <= j < m0.slots.len() implies self@.slots[j] == mark_model(
                m0,
            ).slots[j] by {
                if m0.slots[j] is Some {
                    assert(box_of(self@, j).payload == box_of(m0, j).payload);
                    assert(marked_of(self@, j) <==> reachable(m0, j));
                    assert(box_of(self@, j) == BoxModel {
                        marked: reachable(m0, j),
                        ..box_of(m0, j)
                    });
                }
            }
            assert(self@.slots =~= mark_model(m0).slots);
            assert(self@ =~= mark_model(m0));
        }
    }
}

impl GcState {
    /// Clear the mark bit of live box `i`.
    fn unmark_at(&mut self, i: usize)
        requires
            live(old(self)@, i as int),
        ensures
            final(self)@ == (HeapModel {
                slots: old(self)@.slots.update(
                    i as int,
                    Some(BoxModel { marked: false, ..box_of(old(self)@, i as int) }),
                ),
                ..old(self)@
            }),
    {
        let b = &mut self.slots[i];
        match b {
            Slot::Live(gb) => gb.header.unmark(),
            Slot::Dead(_, _) => {
                proof {
                    assert(false);
                }
            },
        }
        proof {
            assert(self@.slots =~= old(self)@.slots.update(
                i as int,
                Some(BoxModel { marked: false, ..box_of(old(self)@, i as int) }),
            ));
            assert(self@ =~= (HeapModel {
                slots: old(self)@.slots.update(
                    i as int,
                    Some(BoxModel { marked: false, ..box_of(old(self)@, i as int) }),
                ),
                ..old(self)@
            }));
        }
    }

    /// Set the finalized flag of live box `i` and record the finalization on
    /// its payload (and on its cell contents, unless a writer hides them).
    fn set_finalized_at(&mut self, i: usize)
        requires
            live(old(self)@, i as int),
        ensures
            final(self)@ == set_finalized_m(old(self)@, i as int),
    {
        let b = &mut self.slots[i];
        match b {
            Slot::Live(gb) => {
                gb.header.set_finalized();
                gb.value.watch.finalize = bump(gb.value.watch.finalize);
                match &mut gb.value.cell {
                    Some(c) => {
                        let state = c.flags.borrowed();
                        if !(state == BorrowState::Writing) {
                            c.watch.finalize = bump(c.watch.finalize);
                        }
                    },
                    None => {},
                }
            },
            Slot::Dead(_, _) => {
                proof {
                    assert(false);
                }
            },
        }
        proof {
            assert(self@.slots =~= set_finalized_m(old(self)@, i as int).slots);
            assert(self@ =~= set_finalized_m(old(self)@, i as int));
        }
    }

    fn finalizer_at(&self, i: usize) -> (r: FinalizerKind)
        requires
            live(self@, i as int),
        ensures
            r == box_of(self@, i as int).payload.finalizer,
    {
        match &self.slots[i] {
            Slot::Live(b) => b.value.finalizer,
            Slot::Dead(_, _) => {
                proof {
                    assert(false);
                }
                FinalizerKind::Nothing
            },
        }
    }

    /// The resurrection write: store a fresh unrooted handle to box `v` into
    /// the cell of box `e`, if `e` is live with a cell and no borrow is
    /// outstanding on it.
    fn write_escape(&mut self, e: usize, v: usize)
        requires
            v as int <= slots_cap(),
        ensures
            final(self)@ == crate::model::write_escape_m(old(self)@, e as int, v as int),
    {
        let n = self.slots.len();
        if e >= n {
            proof {
                assert(!live(self@, e as int));
            }
            return ;
        }
        let slot = &mut self.slots[e];
        match slot {
            Slot::Live(gb) => {
                match &mut gb.value.cell {
                    Some(c) => {
                        let state = c.flags.borrowed();
                        if state == BorrowState::Unused {
                            c.handle = Some(Gc::from_parts(v, false));
                        }
                    },
                    None => {},
                }
            },
            Slot::Dead(_, _) => {},
        }
        proof {
            let m0 = old(self)@;
            let mr = crate::model::write_escape_m(m0, e as int, v as int);
            assert(self@.slots =~= mr.slots);
            assert(self@ =~= mr);
        }
    }

    /// Finalize candidate `c`: at most once per box lifetime, set the flag and
    /// run the box's finalizer action.
    fn finalize_one(&mut self, c: usize)
        requires
            live(old(self)@, c as int),
            forall|i: int| live(old(self)@, i) ==> #[trigger] wf_box(old(self)@, i),
        ensures
            final(self)@ == finalize_one_m(old(self)@, c as int),
    {
        if self.is_finalized_at(c) {
            return ;
        }
        proof {
            assert(wf_box(old(self)@, c as int));
        }
        self.set_finalized_at(c);
        let ghost ms = self@;
        let fin = self.finalizer_at(c);
        match fin {
            FinalizerKind::Nothing => {},
            FinalizerKind::StoreChild { escape, value } => {
                let cc = self.child_count(c);
                if escape < cc && value < cc {
                    let e = self.child_target(c, escape);
                    let v = self.child_target(c, value);
                    proof {
                        assert(wf_handle(children_of(ms, c as int)[value as int]));
                    }
                    self.write_escape(e, v);
                }
            },
            FinalizerKind::StoreCellContent { escape } => {
                let cc = self.child_count(c);
                if escape < cc {
                    let e = self.child_target(c, escape);
                    let v_opt = self.cell_target(c);
                    match v_opt {
                        Some(v) => {
                            proof {
                                assert(wf_handle(cell_of(ms, c as int)->Some_0.handle->Some_0));
                            }
                            self.write_escape(e, v);
                        },
                        None => {},
                    }
                }
            },
        }
        proof {
            assert(self@ == apply_finalizer_m(ms, c as int));
            assert(self@ == finalize_one_m(old(self)@, c as int));
        }
    }

    /// Give every candidate its chance to finalize, in discovery order.
    #[verifier::loop_isolation(false)]
    fn finalize_candidates(&mut self, cands: &Vec<usize>)
        requires
            forall|k: int| 0 <= k < cands@.len() ==> live(old(self)@, cands@[k] as int),
            forall|i: int| live(old(self)@, i) ==> #[trigger] wf_box(old(self)@, i),
        ensures
            final(self)@ == finalize_seq_m(old(self)@, to_int_seq(cands@)),
            forall|i: int| live(final(self)@, i) ==> #[trigger] wf_box(final(self)@, i),
            final(self)@.slots.len() == old(self)@.slots.len(),
            forall|i: int|
                0 <= i < old(self)@.slots.len() ==> (live(old(self)@, i) <==> live(
                    final(self)@,
                    i,
                )),
    {
        let ghost m0 = self@;
        let ghost cs = to_int_seq(cands@);
        let len = cands.len();
        let mut k: usize = 0;
        while k < len
            invariant
                k <= len,
                self@ == finalize_seq_m(m0, cs.take(k as int)),
                forall|i: int| live(self@, i) ==> #[trigger] wf_box(self@, i),
                self@.slots.len() == m0.slots.len(),
                forall|i: int| 0 <= i < m0.slots.len() ==> (live(m0, i) <==> live(self@, i)),
            decreases len - k,
        {
            let c = cands[k];
            proof {
                assert(live(m0, c as int));
                assert(live(self@, c as int));
            }
            let ghost prev = self@;
            self.finalize_one(c);
            proof {
                lemma_finalize_one_wf(prev, c as int);
                lemma_finalize_one_frame(prev, c as int);
                assert(cs.take(k + 1 as int) =~= cs.take(k as int).push(c as int));
                lemma_finalize_seq_push(m0, cs.take(k as int), c as int);
            }
            k += 1;
        }
        proof {
            assert(cs.take(len as int) =~= cs);
        }
    }

    /// Walk the arena once: clear every mark, and gather the live boxes that
    /// were unmarked — the collection candidates — in ascending order.
    #[verifier::loop_isolation(false)]
    pub(crate) fn gather_unmarked(&mut self) -> (r: Vec<usize>)
        ensures
            final(self)@ == unmark_model(old(self)@),
            to_int_seq(r@) == unmarked_seq(old(self)@, old(self)@.slots.len() as int),
    {
        let ghost m0 = self@;
        let n = self.n_slots();
        let mut r: Vec<usize> = Vec::new();
        let mut i: usize = 0;
        while i < n
            invariant
                i <= n,
                n == m0.slots.len(),
                self@.slots.len() == n,
                same_except_marks(m0, self@),
                forall|j: int| 0 <= j < i ==> self@.slots[j] == unmark_model(m0).slots[j],
                forall|j: int| i <= j < n ==> self@.slots[j] == m0.slots[j],
                to_int_seq(r@) == unmarked_seq(m0, i as int),
            decreases n - i,
        {
            let ghost r_old = r@;
            if self.live_at(i) {
                if self.is_marked_at(i) {
                    self.unmark_at(i);
                } else {
                    r.push(i);
                }
            }
            i += 1;
            proof {
                let j = i - 1;
                if live(m0, j) {
                    if box_of(m0, j).marked {
                        assert(self@.slots[j] == unmark_model(m0).slots[j]);
                    } else {
                        assert(box_of(m0, j) =~= (BoxModel {
                            marked: false,
                            ..box_of(m0, j)
                        }));
                        assert(self@.slots[j] == unmark_model(m0).slots[j]);
                    }
                } else {
                    assert(self@.slots[j] == unmark_model(m0).slots[j]);
                }
                assert(to_int_seq(r@) =~= unmarked_seq(m0, i as int));
            }
        }
        proof {
            assert(self@.slots =~= unmark_model(m0).slots);
            assert(self@ =~= unmark_model(m0));
        }
        r
    }

    /// Reclaim live box `c`: keep its final instrumentation in a tombstone,
    /// subtract its size, free the payload.
    fn free_slot(&mut self, c: usize)
        requires
            live(old(self)@, c as int),
            old(self)@.bytes >= box_of(old(self)@, c as int).size,
        ensures
            final(self)@ == (HeapModel {
                slots: old(self)@.slots.update(c as int, Option::<BoxModel>::None),
                bytes: (old(self)@.bytes - box_of(old(self)@, c as int).size) as nat,
                ..old(self)@
            }),
    {
        let sz: usize;
        let slot = &mut self.slots[c];
        match slot {
            Slot::Live(gb) => {
                let mut w = gb.value.watch;
                w.drops = bump(w.drops);
                let cw = match &gb.value.cell {
                    Some(cell) => {
                        let mut x = cell.watch;
                        x.drops = bump(x.drops);
                        Some(x)
                    },
                    None => None,
                };
                sz = gb.size;
                *slot = Slot::Dead(w, cw);
            },
            Slot::Dead(_, _) => {
                proof {
                    assert(false);
                }
                sz = 0;
            },
        }
        self.bytes_allocated = self.bytes_allocated - sz;
        proof {
            assert(self@.slots =~= old(self)@.slots.update(c as int, Option::<BoxModel>::None));
            assert(self@ =~= (HeapModel {
                slots: old(self)@.slots.update(c as int, Option::<BoxModel>::None),
                bytes: (old(self)@.bytes - box_of(old(self)@, c as int).size) as nat,
                ..old(self)@
            }));
        }
    }

    /// What slot `j` holds after sweeping the first `k` candidates of `cs`.
    pub(crate) open spec fn swept_slot(m0: HeapModel, cs: Seq<int>, k: int, j: int) -> Option<
        BoxModel,
    > {
        if in_list(cs.take(k), j) && live(m0, j) && box_of(m0, j).finalized {
            Option::<BoxModel>::None
        } else {
            m0.slots[j]
        }
    }

    /// The sweep: reclaim, among the given candidates, those that have had
    /// their chance at finalization. The byte counter keeps matching the live
    /// sizes.
    #[verifier::loop_isolation(false)]
    fn sweep(&mut self, cands: &Vec<usize>)
        requires
            forall|k: int| 0 <= k < cands@.len() ==> 0 <= #[trigger] cands@[k] < old(self)@.slots.len(),
            forall|k1: int, k2: int|
                0 <= k1 < k2 < cands@.len() ==> cands@[k1] < cands@[k2],
            old(self)@.bytes == sum_sizes(old(self)@),
            !old(self)@.sweeping,
        ensures
            final(self)@.slots.len() == old(self)@.slots.len(),
            forall|j: int|
                0 <= j < old(self)@.slots.len() ==> final(self)@.slots[j] == (if in_list(
                    to_int_seq(cands@),
                    j,
                ) && live(old(self)@, j) && box_of(old(self)@, j).finalized {
                    Option::<BoxModel>::None
                } else {
                    old(self)@.slots[j]
                }),
            final(self)@.bytes == sum_sizes(final(self)@),
            final(self)@.bytes <= old(self)@.bytes,
            final(self)@ == (HeapModel {
                slots: final(self)@.slots,
                bytes: final(self)@.bytes,
                ..old(self)@
            }),
    {
        let ghost m0 = self@;
        let ghost cs = to_int_seq(cands@);
        self.sweeping = true;
        proof {
            assert(self@.slots =~= m0.slots);
            lemma_sum_sizes_congruence(m0.slots, self@.slots, m0.slots.len() as int);
        }
        let n = self.n_slots();
        let len = cands.len();
        let mut k: usize = 0;
        while k < len
            invariant
                k <= len,
                n == m0.slots.len(),
                self@.slots.len() == n,
                forall|j: int|
                    0 <= j < n ==> #[trigger] self@.slots[j] == GcState::swept_slot(
                        m0,
                        cs,
                        k as int,
                        j,
                    ),
                self@.bytes == sum_sizes(self@),
                self@.bytes <= m0.bytes,
                self@ == (HeapModel { slots: self@.slots, bytes: self@.bytes, sweeping: true, ..m0 }),
            decreases len - k,
        {
            let c = cands[k];
            proof {
                assert(cs[k as int] == c as int);
                if in_list(cs.take(k as int), c as int) {
                    let kk = choose|kk: int|
                        0 <= kk < cs.take(k as int).len() && cs.take(k as int)[kk] == c as int;
                    assert(cands@[kk] < cands@[k as int]);
                    assert(false);
                }
                assert(self@.slots[c as int] == GcState::swept_slot(m0, cs, k as int, c as int));
                assert(self@.slots[c as int] == m0.slots[c as int]);
                assert(live(self@, c as int) <==> live(m0, c as int));
            }
            let ghost prev = self@;
            if self.live_at(c) {
                proof {
                    assert(box_of(self@, c as int) == box_of(m0, c as int));
                }
                if self.is_finalized_at(c) {
                    proof {
                        lemma_sum_sizes_update(
                            prev.slots,
                            prev.slots.update(c as int, Option::<BoxModel>::None),
                            c as int,
                            prev.slots.len() as int,
                        );
                    }
                    self.free_slot(c);
                }
            }
            k += 1;
            proof {
                let tk = cs.take(k as int);
                let tk0 = cs.take(k - 1 as int);
                assert forall|j: int|
                    0 <= j < n implies (in_list(tk, j) <==> (in_list(tk0, j) || j
                    == c as int)) by {
                    if in_list(tk, j) {
                        let kk = choose|kk: int| 0 <= kk < tk.len() && tk[kk] == j;
                        if kk < k - 1 {
                            assert(tk0[kk] == j);
                            assert(in_list(tk0, j));
                        } else {
                            assert(j == c as int);
                        }
                    }
                    if in_list(tk0, j) {
                        let kk = choose|kk: int| 0 <= kk < tk0.len() && tk0[kk] == j;
                        assert(tk[kk] == j);
                        assert(in_list(tk, j));
                    }
                    if j == c as int {
                        assert(tk[k - 1] == j);
                        assert(in_list(tk, j));
                    }
                }
                assert forall|j: int|
                    0 <= j < n implies #[trigger] self@.slots[j] == GcState::swept_slot(
                    m0,
                    cs,
                    k as int,
                    j,
                ) by {
                    assert(prev.slots[j] == GcState::swept_slot(m0, cs, k - 1 as int, j));
                }
            }
        }
        let ghost mend = self@;
        self.sweeping = false;
        proof {
            assert(self@.slots =~= mend.slots);
            assert(cs.take(len as int) =~= cs);
            assert forall|j: int| 0 <= j < n implies self@.slots[j] == (if in_list(cs, j) && live(
                m0,
                j,
            ) && box_of(m0, j).finalized {
                Option::<BoxModel>::None
            } else {
                m0.slots[j]
            }) by {
                assert(mend.slots[j] == GcState::swept_slot(m0, cs, len as int, j));
            }
            lemma_sum_sizes_congruence(mend.slots, self@.slots, n as int);
        }
    }
}

impl GcState {
    /// Take one root off box `j`, when it is live and has one.
    pub(crate) fn dec_roots_at(&mut self, j: usize)
        ensures
            final(self)@ == crate::model::dec_roots_m(old(self)@, j as int),
    {
        let n = self.slots.len();
        if j < n {
            if self.live_at(j) {
                if self.roots_at(j) >= 1 {
                    let b = &mut self.slots[j];
                    match b {
                        Slot::Live(gb) => gb.header.dec_roots(),
                        Slot::Dead(_, _) => {
                            proof {
                                assert(false);
                            }
                        },
                    }
                }
            }
        }
        proof {
            let mr = crate::model::dec_roots_m(old(self)@, j as int);
            assert(self@.slots =~= mr.slots);
            assert(self@ =~= mr);
        }
    }

    /// Put one root on box `j`, when it is live and the count has room.
    pub(crate) fn inc_roots_at(&mut self, j: usize)
        ensures
            final(self)@ == crate::model::inc_roots_m(old(self)@, j as int),
    {
        let n = self.slots.len();
        if j < n {
            if self.live_at(j) {
                if self.roots_at(j) < ROOTS_MAX {
                    let b = &mut self.slots[j];
                    match b {
                        Slot::Live(gb) => gb.header.inc_roots(),
                        Slot::Dead(_, _) => {
                            proof {
                                assert(false);
                            }
                        },
                    }
                }
            }
        }
        proof {
            let mr = crate::model::inc_roots_m(old(self)@, j as int);
            assert(self@.slots =~= mr.slots);
            assert(self@ =~= mr);
        }
    }
}

impl GcState {
    /// Shared access to the box a handle refers to. Reading a payload is
    /// forbidden while the heap is sweeping.
    pub fn gc_box(&self, g: &Gc) -> (r: &GcBox)
        requires
            live(self@, g@.idx),
            !self@.sweeping,
        ensures
            r@ == box_of(self@, g@.idx),
    {
        match &self.slots[g.index()] {
            Slot::Live(b) => b,
            Slot::Dead(_, _) => {
                proof {
                    assert(false);
                }
                unreached()
            },
        }
    }

    /// The leaf data of the box in slot `i`.
    pub fn data_at(&self, i: usize) -> (r: &Data)
        requires
            live(self@, i as int),
            !self@.sweeping,
        ensures
            r@ == box_of(self@, i as int).payload.data,
    {
        match &self.slots[i] {
            Slot::Live(b) => &b.value.data,
            Slot::Dead(_, _) => {
                proof {
                    assert(false);
                }
                unreached()
            },
        }
    }

    /// The instrumentation counters of the payload in slot `i`, live or
    /// reclaimed.
    pub fn watch_at(&self, i: usize) -> (r: WatchFlags)
        requires
            i < self@.slots.len(),
    {
        match &self.slots[i] {
            Slot::Live(b) => b.value.watch,
            Slot::Dead(w, _) => *w,
        }
    }

    /// The instrumentation counters of the cell contents in slot `i`, live or
    /// reclaimed.
    pub fn cell_watch_at(&self, i: usize) -> (r: Option<WatchFlags>)
        requires
            i < self@.slots.len(),
    {
        match &self.slots[i] {
            Slot::Live(b) => match &b.value.cell {
                Some(c) => Some(c.watch),
                None => None,
            },
            Slot::Dead(_, cw) => *cw,
        }
    }

    /// The leaf part of the cell contents of the box `g` refers to; no writer
    /// may be active.
    pub fn cell_data(&self, g: &Gc) -> (r: &Data)
        requires
            live(self@, g@.idx),
            cell_of(self@, g@.idx) is Some,
            !cell_of(self@, g@.idx)->Some_0.writing,
            !self@.sweeping,
        ensures
            r@ == cell_of(self@, g@.idx)->Some_0.data,
    {
        match &self.slots[g.index()] {
            Slot::Live(b) => match &b.value.cell {
                Some(c) => &c.data,
                None => {
                    proof {
                        assert(false);
                    }
                    unreached()
                },
            },
            Slot::Dead(_, _) => {
                proof {
                    assert(false);
                }
                unreached()
            },
        }
    }

    /// The index of the handle in the cell contents of the box `g` refers to.
    pub fn cell_handle_index(&self, g: &Gc) -> (r: Option<usize>)
        requires
            live(self@, g@.idx),
            cell_of(self@, g@.idx) is Some,
            !cell_of(self@, g@.idx)->Some_0.writing,
            !self@.sweeping,
        ensures
            (r is Some <==> cell_of(self@, g@.idx)->Some_0.handle is Some),
            r is Some ==> r->Some_0 as int == cell_of(self@, g@.idx)->Some_0.handle->Some_0.idx,
    {
        match &self.slots[g.index()] {
            Slot::Live(b) => match &b.value.cell {
                Some(c) => match &c.handle {
                    Some(h) => Some(h.index()),
                    None => None,
                },
                None => {
                    proof {
                        assert(false);
                    }
                    None
                },
            },
            Slot::Dead(_, _) => {
                proof {
                    assert(false);
                }
                None
            },
        }
    }

    /// Clone the handle out of the cell contents of the box `g` refers to:
    /// the clone is rooted, so the target gains a root.
    pub fn cell_clone_handle(&mut self, g: &Gc) -> (r: Option<Gc>)
        requires
            wf(old(self)@),
            live(old(self)@, g@.idx),
            cell_of(old(self)@, g@.idx) is Some,
            !cell_of(old(self)@, g@.idx)->Some_0.writing,
            match cell_of(old(self)@, g@.idx)->Some_0.handle {
                Some(h) => live(old(self)@, h.idx) && roots_of(old(self)@, h.idx) < ROOTS_MAX
                    as nat,
                None => true,
            },
        ensures
            wf(final(self)@),
            final(self)@ == (match cell_of(old(self)@, g@.idx)->Some_0.handle {
                Some(h) => crate::model::inc_roots_m(old(self)@, h.idx),
                None => old(self)@,
            }),
            (r is Some <==> cell_of(old(self)@, g@.idx)->Some_0.handle is Some),
            r is Some ==> r->Some_0@ == (HandleModel {
                idx: cell_of(old(self)@, g@.idx)->Some_0.handle->Some_0.idx,
                rooted: true,
            }),
    {
        let hi = self.cell_handle_index(g);
        match hi {
            Some(j) => {
                self.inc_roots_at(j);
                proof {
                    crate::model::lemma_inc_roots_frame(old(self)@, j as int);
                    crate::model::lemma_roots_frame_wf(old(self)@, self@);
                }
                Some(Gc::from_parts(j, true))
            },
            None => None,
        }
    }

    /// Take a reader on the cell of the box `g` refers to; no writer may be
    /// active.
    pub fn cell_borrow(&mut self, g: &Gc) -> (r: GcCellRef)
        requires
            wf(old(self)@),
            live(old(self)@, g@.idx),
            cell_of(old(self)@, g@.idx) is Some,
            !cell_of(old(self)@, g@.idx)->Some_0.writing,
            cell_of(old(self)@, g@.idx)->Some_0.reading + 1 < ((usize::MAX - 1) / 2) as nat,
        ensures
            wf(final(self)@),
            final(self)@ == crate::model::cell_reading_m(
                old(self)@,
                g@.idx,
                cell_of(old(self)@, g@.idx)->Some_0.reading + 1,
            ),
            r.part_spec() == crate::CellPart::All,
    {
        let i = g.index();
        let slot = &mut self.slots[i];
        match slot {
            Slot::Live(gb) => match &mut gb.value.cell {
                Some(c) => {
                    c.flags = c.flags.add_reading();
                },
                None => {
                    proof {
                        assert(false);
                    }
                },
            },
            Slot::Dead(_, _) => {
                proof {
                    assert(false);
                }
            },
        }
        proof {
            let mr = crate::model::cell_reading_m(
                old(self)@,
                g@.idx,
                cell_of(old(self)@, g@.idx)->Some_0.reading + 1,
            );
            assert(self@.slots =~= mr.slots);
            assert(self@ =~= mr);
            assert(wf_box(old(self)@, g@.idx));
            self.lemma_cell_flags_wf(old(self)@, g@.idx);
        }
        crate::GcCellRef { part: crate::CellPart::All }
    }

    /// Release a reader on the cell of the box `g` refers to.
    pub fn cell_end_borrow(&mut self, g: &Gc, r: GcCellRef)
        requires
            wf(old(self)@),
            live(old(self)@, g@.idx),
            cell_of(old(self)@, g@.idx) is Some,
            !cell_of(old(self)@, g@.idx)->Some_0.writing,
            cell_of(old(self)@, g@.idx)->Some_0.reading >= 1,
        ensures
            wf(final(self)@),
            final(self)@ == crate::model::cell_reading_m(
                old(self)@,
                g@.idx,
                (cell_of(old(self)@, g@.idx)->Some_0.reading - 1) as nat,
            ),
    {
        let _ = r;
        let i = g.index();
        let slot = &mut self.slots[i];
        match slot {
            Slot::Live(gb) => match &mut gb.value.cell {
                Some(c) => {
                    c.flags = c.flags.sub_reading();
                },
                None => {
                    proof {
                        assert(false);
                    }
                },
            },
            Slot::Dead(_, _) => {
                proof {
                    assert(false);
                }
            },
        }
        proof {
            let mr = crate::model::cell_reading_m(
                old(self)@,
                g@.idx,
                (cell_of(old(self)@, g@.idx)->Some_0.reading - 1) as nat,
            );
            assert(self@.slots =~= mr.slots);
            assert(self@ =~= mr);
            assert(wf_box(old(self)@, g@.idx));
            self.lemma_cell_flags_wf(old(self)@, g@.idx);
        }
    }

    /// Take the writer on the cell of the box `g` refers to; no borrow may be
    /// active. The cell is heap-owned, so its contents gain an independent
    /// root for the writer's duration: the collector cannot trace through a
    /// cell under mutation.
    pub fn cell_borrow_mut(&mut self, g: &Gc) -> (r: GcCellRefMut)
        requires
            wf(old(self)@),
            live(old(self)@, g@.idx),
            cell_of(old(self)@, g@.idx) is Some,
            !cell_of(old(self)@, g@.idx)->Some_0.writing,
            cell_of(old(self)@, g@.idx)->Some_0.reading == 0,
            match cell_of(old(self)@, g@.idx)->Some_0.handle {
                Some(h) => live(old(self)@, h.idx) && roots_of(old(self)@, h.idx) < ROOTS_MAX
                    as nat,
                None => true,
            },
        ensures
            wf(final(self)@),
            final(self)@ == crate::model::cell_borrow_mut_m(old(self)@, g@.idx),
            r.part_spec() == CellPart::All,
            r.target_spec() is Some && r.target_spec()->Some_0 as int == g@.idx,
    {
        let i = g.index();
        proof {
            assert(wf_box(old(self)@, g@.idx));
        }
        let hidx: Option<usize>;
        let slot = &mut self.slots[i];
        match slot {
            Slot::Live(gb) => match &mut gb.value.cell {
                Some(c) => {
                    c.flags = c.flags.set_writing();
                    hidx = match &mut c.handle {
                        Some(gch) => {
                            gch.set_root();
                            Some(gch.index())
                        },
                        None => None,
                    };
                    c.watch.root = bump(c.watch.root);
                },
                None => {
                    proof {
                        assert(false);
                    }
                    hidx = None;
                },
            },
            Slot::Dead(_, _) => {
                proof {
                    assert(false);
                }
                hidx = None;
            },
        }
        let ghost c0 = cell_of(old(self)@, g@.idx)->Some_0;
        let ghost m1 = crate::model::set_cell_m(
            old(self)@,
            g@.idx,
            CellModel {
                writing: true,
                reading: 0,
                handle: crate::model::rooted_opt(c0.handle, true),
                ..c0
            },
        );
        proof {
            assert(self@.slots =~= m1.slots);
            assert(self@ =~= m1);
        }
        match hidx {
            Some(j) => self.inc_roots_at(j),
            None => {},
        }
        proof {
            assert(self@ == crate::model::cell_borrow_mut_m(old(self)@, g@.idx));
            // the heap is still well formed
            let mf = self@;
            assert forall|j: int| live(mf, j) implies #[trigger] wf_box(mf, j) by {
                assert(live(old(self)@, j));
                assert(wf_box(old(self)@, j));
                if j != g@.idx {
                    assert(box_of(mf, j).payload == box_of(old(self)@, j).payload);
                }
            }
            assert forall|j: int| live(mf, j) implies !(#[trigger] box_of(mf, j)).marked by {
                assert(live(old(self)@, j));
                assert(wf_box(old(self)@, j));
            }
            assert forall|j: int|
                0 <= j < old(self)@.slots.len() implies ((#[trigger] old(self)@.slots[j]) is Some
                <==> mf.slots[j] is Some) && (old(self)@.slots[j] is Some ==> box_of(
                old(self)@,
                j,
            ).size == box_of(mf, j).size) by {}
            lemma_sum_sizes_congruence(old(self)@.slots, mf.slots, old(self)@.slots.len() as int);
            assert(wf(mf));
        }
        GcCellRefMut { target: Some(i), part: CellPart::All }
    }

    /// Release the writer on the cell it was taken on: the contents stop
    /// being rooted independently and the cell is unused again.
    pub fn cell_end_borrow_mut(&mut self, w: GcCellRefMut)
        requires
            wf(old(self)@),
            w.target_spec() is Some,
            live(old(self)@, w.target_spec()->Some_0 as int),
            cell_of(old(self)@, w.target_spec()->Some_0 as int) is Some,
            cell_of(old(self)@, w.target_spec()->Some_0 as int)->Some_0.writing,
            match cell_of(old(self)@, w.target_spec()->Some_0 as int)->Some_0.handle {
                Some(h) => live(old(self)@, h.idx) && roots_of(old(self)@, h.idx) >= 1,
                None => true,
            },
        ensures
            wf(final(self)@),
            final(self)@ == crate::model::cell_end_borrow_mut_m(
                old(self)@,
                w.target_spec()->Some_0 as int,
            ),
    {
        let i = match w.target {
            Some(i) => i,
            None => {
                proof {
                    assert(false);
                }
                0
            },
        };
        proof {
            assert(wf_box(old(self)@, i as int));
        }
        let hidx: Option<usize>;
        let slot = &mut self.slots[i];
        match slot {
            Slot::Live(gb) => match &mut gb.value.cell {
                Some(c) => {
                    c.flags = c.flags.set_unused();
                    hidx = match &mut c.handle {
                        Some(gch) => {
                            gch.clear_root();
                            Some(gch.index())
                        },
                        None => None,
                    };
                    c.watch.unroot = bump(c.watch.unroot);
                },
                None => {
                    proof {
                        assert(false);
                    }
                    hidx = None;
                },
            },
            Slot::Dead(_, _) => {
                proof {
                    assert(false);
                }
                hidx = None;
            },
        }
        let ghost c0 = cell_of(old(self)@, i as int)->Some_0;
        let ghost m1 = crate::model::set_cell_m(
            old(self)@,
            i as int,
            CellModel {
                writing: false,
                reading: 0,
                handle: crate::model::rooted_opt(c0.handle, false),
                ..c0
            },
        );
        proof {
            assert(self@.slots =~= m1.slots);
            assert(self@ =~= m1);
        }
        match hidx {
            Some(j) => self.dec_roots_at(j),
            None => {},
        }
        proof {
            assert(self@ == crate::model::cell_end_borrow_mut_m(old(self)@, i as int));
            let mf = self@;
            assert forall|j: int| live(mf, j) implies #[trigger] wf_box(mf, j) by {
                assert(live(old(self)@, j));
                assert(wf_box(old(self)@, j));
                if j != i as int {
                    assert(box_of(mf, j).payload == box_of(old(self)@, j).payload);
                }
            }
            assert forall|j: int| live(mf, j) implies !(#[trigger] box_of(mf, j)).marked by {
                assert(live(old(self)@, j));
                assert(wf_box(old(self)@, j));
            }
            assert forall|j: int|
                0 <= j < old(self)@.slots.len() implies ((#[trigger] old(self)@.slots[j]) is Some
                <==> mf.slots[j] is Some) && (old(self)@.slots[j] is Some ==> box_of(
                old(self)@,
                j,
            ).size == box_of(mf, j).size) by {}
            lemma_sum_sizes_congruence(old(self)@.slots, mf.slots, old(self)@.slots.len() as int);
            assert(wf(mf));
        }
    }

    /// Replace the handle part of the contents through an active writer
    /// guard. The old content handle is dropped (its independent root goes
    /// with it); the handle moved in must be rooted and stays rooted until
    /// the writer leaves.
    pub fn cell_write_handle(&mut self, w: &GcCellRefMut, h: Option<Gc>)
        requires
            wf(old(self)@),
            w.part_spec() == CellPart::All,
            w.target_spec() is Some,
            live(old(self)@, w.target_spec()->Some_0 as int),
            cell_of(old(self)@, w.target_spec()->Some_0 as int) is Some,
            cell_of(old(self)@, w.target_spec()->Some_0 as int)->Some_0.writing,
            match cell_of(old(self)@, w.target_spec()->Some_0 as int)->Some_0.handle {
                Some(oh) => live(old(self)@, oh.idx) && roots_of(old(self)@, oh.idx) >= 1,
                None => true,
            },
            match h {
                Some(g) => g@.rooted,
                None => true,
            },
        ensures
            wf(final(self)@),
            final(self)@ == crate::model::cell_write_handle_m(
                old(self)@,
                w.target_spec()->Some_0 as int,
                match h {
                    Some(g) => Some(g@),
                    None => None,
                },
            ),
    {
        let ghost hm = match &h {
            Some(g) => Some(g@),
            None => None,
        };
        let i = match w.target {
            Some(i) => i,
            None => {
                proof {
                    assert(false);
                }
                0
            },
        };
        proof {
            assert(wf_box(old(self)@, i as int));
        }
        let oh = {
            match &self.slots[i] {
                Slot::Live(b) => match &b.value.cell {
                    Some(c) => match &c.handle {
                        Some(g) => Some(g.index()),
                        None => None,
                    },
                    None => {
                        proof {
                            assert(false);
                        }
                        None
                    },
                },
                Slot::Dead(_, _) => {
                    proof {
                        assert(false);
                    }
                    None
                },
            }
        };
        match oh {
            Some(j) => self.dec_roots_at(j),
            None => {},
        }
        let ghost m1 = match cell_of(old(self)@, i as int)->Some_0.handle {
            Some(ohm) => crate::model::dec_roots_m(old(self)@, ohm.idx),
            None => old(self)@,
        };
        proof {
            assert(self@ == m1);
        }
        let slot = &mut self.slots[i];
        match slot {
            Slot::Live(gb) => match &mut gb.value.cell {
                Some(c) => {
                    c.handle = h;
                },
                None => {
                    proof {
                        assert(false);
                    }
                },
            },
            Slot::Dead(_, _) => {
                proof {
                    assert(false);
                }
            },
        }
        proof {
            let mr = crate::model::cell_write_handle_m(old(self)@, i as int, hm);
            assert(crate::model::rooted_opt(hm, true) == hm);
            assert(self@.slots =~= mr.slots);
            assert(self@ =~= mr);
            let mf = self@;
            assert forall|j: int| live(mf, j) implies #[trigger] wf_box(mf, j) by {
                assert(live(old(self)@, j));
                assert(wf_box(old(self)@, j));
                if j != i as int {
                    assert(box_of(mf, j).payload == box_of(old(self)@, j).payload);
                }
            }
            assert forall|j: int| live(mf, j) implies !(#[trigger] box_of(mf, j)).marked by {
                assert(live(old(self)@, j));
                assert(wf_box(old(self)@, j));
            }
            assert forall|j: int|
                0 <= j < old(self)@.slots.len() implies ((#[trigger] old(self)@.slots[j]) is Some
                <==> mf.slots[j] is Some) && (old(self)@.slots[j] is Some ==> box_of(
                old(self)@,
                j,
            ).size == box_of(mf, j).size) by {}
            lemma_sum_sizes_congruence(old(self)@.slots, mf.slots, old(self)@.slots.len() as int);
            assert(wf(mf));
        }
    }

    /// Replace the leaf part of the contents through an active writer guard.
    pub fn cell_write_data(&mut self, w: &GcCellRefMut, d: Data)
        requires
            wf(old(self)@),
            w.part_spec() == CellPart::All || w.part_spec() == CellPart::DataPart,
            w.target_spec() is Some,
            live(old(self)@, w.target_spec()->Some_0 as int),
            cell_of(old(self)@, w.target_spec()->Some_0 as int) is Some,
            cell_of(old(self)@, w.target_spec()->Some_0 as int)->Some_0.writing,
        ensures
            wf(final(self)@),
            final(self)@ == crate::model::cell_write_data_m(
                old(self)@,
                w.target_spec()->Some_0 as int,
                d@,
            ),
    {
        let i = match w.target {
            Some(i) => i,
            None => {
                proof {
                    assert(false);
                }
                0
            },
        };
        proof {
            assert(wf_box(old(self)@, i as int));
        }
        let slot = &mut self.slots[i];
        match slot {
            Slot::Live(gb) => match &mut gb.value.cell {
                Some(c) => {
                    c.data = d;
                },
                None => {
                    proof {
                        assert(false);
                    }
                },
            },
            Slot::Dead(_, _) => {
                proof {
                    assert(false);
                }
            },
        }
        proof {
            let mr = crate::model::cell_write_data_m(old(self)@, i as int, d@);
            assert(self@.slots =~= mr.slots);
            assert(self@ =~= mr);
            assert(wf_box(old(self)@, i as int));
            self.lemma_cell_flags_wf(old(self)@, i as int);
        }
    }

    /// Write the first component of a pair in the cell contents through a
    /// writer guard projected at least that far.
    pub fn cell_write_pair_first(&mut self, w: &GcCellRefMut, v: i64)
        requires
            wf(old(self)@),
            w.part_spec() == CellPart::All || w.part_spec() == CellPart::DataPart
                || w.part_spec() == CellPart::PairFirst,
            w.target_spec() is Some,
            live(old(self)@, w.target_spec()->Some_0 as int),
            cell_of(old(self)@, w.target_spec()->Some_0 as int) is Some,
            cell_of(old(self)@, w.target_spec()->Some_0 as int)->Some_0.writing,
            cell_of(old(self)@, w.target_spec()->Some_0 as int)->Some_0.data is Pair,
        ensures
            wf(final(self)@),
            final(self)@ == crate::model::cell_write_data_m(
                old(self)@,
                w.target_spec()->Some_0 as int,
                crate::model::DataModel::Pair(
                    v as int,
                    cell_of(old(self)@, w.target_spec()->Some_0 as int)->Some_0.data->Pair_1,
                ),
            ),
    {
        let i = match w.target {
            Some(i) => i,
            None => {
                proof {
                    assert(false);
                }
                0
            },
        };
        let slot = &mut self.slots[i];
        match slot {
            Slot::Live(gb) => match &mut gb.value.cell {
                Some(c) => {
                    let second = match &c.data {
                        Data::Pair(_, sc) => *sc,
                        _ => {
                            proof {
                                assert(false);
                            }
                            ' '
                        },
                    };
                    c.data = Data::Pair(v, second);
                },
                None => {
                    proof {
                        assert(false);
                    }
                },
            },
            Slot::Dead(_, _) => {
                proof {
                    assert(false);
                }
            },
        }
        proof {
            let mr = crate::model::cell_write_data_m(
                old(self)@,
                i as int,
                crate::model::DataModel::Pair(
                    v as int,
                    cell_of(old(self)@, i as int)->Some_0.data->Pair_1,
                ),
            );
            assert(self@.slots =~= mr.slots);
            assert(self@ =~= mr);
            assert(wf_box(old(self)@, i as int));
            self.lemma_cell_flags_wf(old(self)@, i as int);
        }
    }

    /// Write the second component of a pair in the cell contents through a
    /// writer guard projected at least that far.
    pub fn cell_write_pair_second(&mut self, w: &GcCellRefMut, c2: char)
        requires
            wf(old(self)@),
            w.part_spec() == CellPart::All || w.part_spec() == CellPart::DataPart
                || w.part_spec() == CellPart::PairSecond,
            w.target_spec() is Some,
            live(old(self)@, w.target_spec()->Some_0 as int),
            cell_of(old(self)@, w.target_spec()->Some_0 as int) is Some,
            cell_of(old(self)@, w.target_spec()->Some_0 as int)->Some_0.writing,
            cell_of(old(self)@, w.target_spec()->Some_0 as int)->Some_0.data is Pair,
        ensures
            wf(final(self)@),
            final(self)@ == crate::model::cell_write_data_m(
                old(self)@,
                w.target_spec()->Some_0 as int,
                crate::model::DataModel::Pair(
                    cell_of(old(self)@, w.target_spec()->Some_0 as int)->Some_0.data->Pair_0,
                    c2,
                ),
            ),
    {
        let i = match w.target {
            Some(i) => i,
            None => {
                proof {
                    assert(false);
                }
                0
            },
        };
        let slot = &mut self.slots[i];
        match slot {
            Slot::Live(gb) => match &mut gb.value.cell {
                Some(c) => {
                    let first = match &c.data {
                        Data::Pair(fv, _) => *fv,
                        _ => {
                            proof {
                                assert(false);
                            }
                            0
                        },
                    };
                    c.data = Data::Pair(first, c2);
                },
                None => {
                    proof {
                        assert(false);
                    }
                },
            },
            Slot::Dead(_, _) => {
                proof {
                    assert(false);
                }
            },
        }
        proof {
            let mr = crate::model::cell_write_data_m(
                old(self)@,
                i as int,
                crate::model::DataModel::Pair(
                    cell_of(old(self)@, i as int)->Some_0.data->Pair_0,
                    c2,
                ),
            );
            assert(self@.slots =~= mr.slots);
            assert(self@ =~= mr);
            assert(wf_box(old(self)@, i as int));
            self.lemma_cell_flags_wf(old(self)@, i as int);
        }
    }

    /// Tear the heap down: unless configured to leak, run one final
    /// collection so finalizers get their chance.
    pub fn teardown(&mut self)
        requires
            wf(old(self)@),
        ensures
            wf(final(self)@),
            final(self)@ == (if old(self)@.leak_on_drop {
                old(self)@
            } else {
                collect_m(old(self)@)
            }),
    {
        if !self.config.leak_on_drop {
            collect_garbage(self);
        }
    }

    /// A cell update at slot `i` that keeps the rooted flag, the writing/bit
    /// discipline and everything else of the heap leaves it well formed.
    proof fn lemma_cell_flags_wf(&self, m0: HeapModel, i: int)
        requires
            wf(m0),
            self@.slots.len() == m0.slots.len(),
            self@.bytes == m0.bytes,
            self@.threshold == m0.threshold,
            self@.percent == m0.percent,
            self@.collections == m0.collections,
            self@.sweeping == m0.sweeping,
            forall|j: int| 0 <= j < m0.slots.len() && j != i ==> self@.slots[j] == m0.slots[j],
            live(m0, i),
            live(self@, i),
            box_of(self@, i).roots == box_of(m0, i).roots,
            box_of(self@, i).marked == box_of(m0, i).marked,
            box_of(self@, i).size == box_of(m0, i).size,
            box_of(self@, i).payload.children == box_of(m0, i).payload.children,
            box_of(self@, i).payload.cell is Some,
            box_of(m0, i).payload.cell is Some,
            ({
                let c1 = box_of(m0, i).payload.cell->Some_0;
                let c2 = box_of(self@, i).payload.cell->Some_0;
                &&& c2.rooted == c1.rooted
                &&& (match c2.handle {
                    Some(h) => crate::model::wf_handle(h) && h.rooted == c2.writing,
                    None => true,
                })
            }),
        ensures
            wf(self@),
    {
        assert forall|j: int| live(self@, j) implies #[trigger] wf_box(self@, j) by {
            assert(live(m0, j));
            assert(wf_box(m0, j));
            if j != i {
                assert(box_of(self@, j) == box_of(m0, j));
            }
        }
        assert forall|j: int| live(self@, j) implies !(#[trigger] box_of(self@, j)).marked by {
            assert(live(m0, j));
            if j != i {
                assert(box_of(self@, j) == box_of(m0, j));
            }
        }
        assert forall|j: int|
            0 <= j < m0.slots.len() implies ((#[trigger] m0.slots[j]) is Some <==> self@.slots[j]
            is Some) && (m0.slots[j] is Some ==> box_of(m0, j).size == box_of(self@, j).size) by {
            if j != i {
                assert(self@.slots[j] == m0.slots[j]);
            }
        }
        lemma_sum_sizes_congruence(m0.slots, self@.slots, m0.slots.len() as int);
    }
}

/// The accounted size of a leaf value's shape.
pub(crate) fn data_size(d: &Data) -> (r: usize)
    ensures
        r as nat == crate::model::data_size_m(d@),
{
    match d {
        Data::Unit => 0,
        Data::Byte(_) => 1,
        Data::Int(_) => 16,
        Data::UInt(_) => 16,
        Data::Str(_) => 24,
        Data::Bytes(_) => 24,
        Data::Pair(_, _) => 16,
    }
}

/// The accounted size of a box around the given payload.
pub(crate) fn payload_size(p: &Payload) -> (r: usize)
    requires
        crate::model::payload_size_m(p@) <= usize::MAX,
    ensures
        r as nat == crate::model::payload_size_m(p@),
{
    let base: usize = 16 + data_size(&p.data);
    let kids: usize = p.children.len() * 8;
    let cell: usize = match &p.cell {
        Some(c) => {
            proof {
                assert(c@.data == p@.cell->Some_0.data);
            }
            32 + data_size(c.get_data_raw())
        },
        None => 0,
    };
    base + kids + cell
}

/// Register a fresh box for the given payload: collect first when past the
/// threshold (widening it if the survivors still fill it), unroot the payload
/// — its handles live on the heap now — and splice the box in.
pub(crate) fn insert_gcbox(st: &mut GcState, value: Payload) -> (idx: usize)
    requires
        wf(old(st)@),
        crate::model::payload_ok(old(st)@, value@),
        old(st)@.slots.len() + 1 <= slots_cap(),
        old(st)@.bytes + crate::model::payload_size_m(value@) <= crate::model::bytes_cap(),
    ensures
        wf(final(st)@),
        final(st)@ == crate::model::gc_new_m(
            old(st)@,
            value@,
            crate::model::payload_size_m(value@),
        ),
        idx as int == final(st)@.slots.len() - 1,
        idx <= slots_cap(),
    {
    let ghost m0 = st@;
    let ghost p0 = value@;
    if st.bytes_allocated > st.config.threshold {
        collect_garbage(st);
        let bytes = st.bytes_allocated as u128;
        let thr = st.config.threshold as u128;
        let pct = st.config.used_space_percent as u128;
        proof {
            assert(thr * pct <= (usize::MAX as u128) * 100) by (nonlinear_arith)
                requires
                    thr <= usize::MAX as u128,
                    pct <= 100,
            ;
        }
        if bytes * 100 > thr * pct {
            let newt = bytes * 100 / pct;
            proof {
                assert(st@.percent >= 1);
                assert(st@.bytes * 100 <= usize::MAX);
                assert(newt <= usize::MAX);
            }
            st.config.threshold = newt as usize;
            proof {
                assert(st@.slots =~= crate::model::adapt_m(collect_m(m0)).slots);
                assert(st@ =~= crate::model::adapt_m(collect_m(m0)));
            }
        } else {
            proof {
                assert(st@ == crate::model::adapt_m(collect_m(m0)));
            }
        }
        proof {
            lemma_wf_boxes_congruence(collect_m(m0), st@);
            lemma_all_unmarked_congruence(collect_m(m0), st@);
            lemma_sum_sizes_congruence(collect_m(m0).slots, st@.slots, st@.slots.len() as int);
            assert(wf(st@));
        }
    }
    let ghost m1 = st@;
    let size = payload_size(&value);
    let mut value = value;
    proof {
        assert(crate::model::payload_unroot_ok(value@));
    }
    value.unroot(st);
    let ghost m2 = st@;
    proof {
        crate::model::lemma_unroot_targets_frame(m1, p0);
        crate::model::lemma_roots_frame_wf(m1, m2);
    }
    let idx = st.slots.len();
    let b = GcBox::new(value, size);
    st.slots.push(Slot::Live(b));
    st.bytes_allocated = st.bytes_allocated + size;
    proof {
        let mr = crate::model::gc_new_m(m0, p0, crate::model::payload_size_m(p0));
        assert(st@.slots =~= m2.slots.push(
            Some(
                BoxModel {
                    roots: 1,
                    marked: false,
                    finalized: false,
                    size: size as nat,
                    payload: crate::model::unrooted_payload_m(p0),
                },
            ),
        ));
        assert(st@ =~= mr);
        // the new heap is well formed
        crate::model::lemma_sum_sizes_push(
            m2.slots,
            BoxModel {
                roots: 1,
                marked: false,
                finalized: false,
                size: size as nat,
                payload: crate::model::unrooted_payload_m(p0),
            },
        );
        assert(st@.bytes == sum_sizes(st@));
        assert forall|i: int| live(st@, i) implies #[trigger] wf_box(st@, i) by {
            if i < m2.slots.len() {
                assert(live(m2, i));
                assert(wf_box(m2, i));
                assert(box_of(st@, i) == box_of(m2, i));
            } else {
                assert(box_of(st@, i).payload == crate::model::unrooted_payload_m(p0));
                assert forall|k: int|
                    0 <= k < box_of(st@, i).payload.children.len() implies {
                    &&& wf_handle(#[trigger] box_of(st@, i).payload.children[k])
                    &&& !box_of(st@, i).payload.children[k].rooted
                } by {
                    assert(box_of(st@, i).payload.children[k] == (HandleModel {
                        rooted: false,
                        ..p0.children[k]
                    }));
                    assert(p0.children[k].rooted && live(m0, p0.children[k].idx));
                }
                match box_of(st@, i).payload.cell {
                    Some(c) => {
                        assert(p0.cell is Some);
                        let c0 = p0.cell->Some_0;
                        assert(!c0.writing);
                        match c0.handle {
                            Some(h) => {
                                assert(live(m0, h.idx));
                                assert(c.handle == Some(HandleModel { rooted: false, ..h }));
                            },
                            None => {},
                        }
                    },
                    None => {},
                }
            }
        }
        assert forall|i: int| live(st@, i) implies !(#[trigger] box_of(st@, i)).marked by {
            if i < m2.slots.len() {
                assert(live(m2, i));
            }
        }
        assert(wf(st@));
    }
    idx
}

/// One whole collection on the heap: count it, mark from the roots, finalize
/// the unmarked candidates (each at most once in its lifetime), mark again so
/// resurrected boxes survive, and sweep what is still unreachable and
/// finalized.
pub fn collect_garbage(st: &mut GcState)
    requires
        wf(old(st)@),
    ensures
        wf(final(st)@),
        final(st)@ == collect_m(old(st)@),
        final(st)@.bytes <= old(st)@.bytes,
        final(st)@.slots.len() == old(st)@.slots.len(),
{
    let ghost m0 = st@;
    if st.collections < usize::MAX {
        st.collections = st.collections + 1;
    }
    let ghost m1 = st@;
    proof {
        assert(st@.slots =~= m0.slots);
        assert(m1 =~= (HeapModel { collections: sat_inc(m0.collections), ..m0 }));
        lemma_wf_boxes_congruence(m0, m1);
        lemma_all_unmarked_congruence(m0, m1);
    }
    let n = st.n_slots();
    st.mark_phase();
    let cands = st.gather_unmarked();
    let ghost cs = to_int_seq(cands@);
    let ghost mm1 = mark_model(m1);
    proof {
        // Unmarking what the mark pass marked restores the heap.
        assert forall|j: int| 0 <= j < n implies st@.slots[j] == m1.slots[j] by {
            if m1.slots[j] is Some {
                assert(!box_of(m1, j).marked);
                assert(box_of(m1, j) =~= (BoxModel { marked: false, ..box_of(m1, j) }));
            }
        }
        assert(st@.slots =~= m1.slots);
        assert(st@ =~= m1);
        // The gathered candidates are exactly the unreachable live boxes.
        assert forall|i: int|
            0 <= i < n implies ((live(mm1, i) && !(#[trigger] box_of(mm1, i)).marked) <==> (live(
            m1,
            i,
        ) && !reachable(m1, i))) by {}
        lemma_unmarked_eq_cand(mm1, m1, n as int);
        assert(cs == cand_seq(m1, n as int));
    }
    if cands.len() == 0 {
        proof {
            assert(cand_seq(m1, m1.slots.len() as int).len() == 0);
            assert(collect_m(m0) == m1);
        }
        return ;
    }
    proof {
        lemma_unmarked_seq_props(mm1, n as int);
        assert forall|k: int| 0 <= k < cands@.len() implies live(st@, cands@[k] as int) by {
            assert(cs[k] == cands@[k] as int);
            assert(live(mm1, cs[k]));
            assert(live(m1, cs[k]));
        }
    }
    st.finalize_candidates(&cands);
    let ghost m2 = st@;
    proof {
        lemma_finalize_seq_frame(m1, cs);
        assert(finalize_frame(m1, m2));
        assert forall|i: int| live(m2, i) implies !(#[trigger] box_of(m2, i)).marked by {
            assert(live(m1, i));
            assert(!box_of(m1, i).marked);
        }
    }
    st.mark_phase();
    let cands2 = st.gather_unmarked();
    let ghost cs2 = to_int_seq(cands2@);
    let ghost mm2 = mark_model(m2);
    proof {
        assert forall|j: int| 0 <= j < n implies st@.slots[j] == m2.slots[j] by {
            if m2.slots[j] is Some {
                assert(!box_of(m2, j).marked);
                assert(box_of(m2, j) =~= (BoxModel { marked: false, ..box_of(m2, j) }));
            }
        }
        assert(st@.slots =~= m2.slots);
        assert(st@ =~= m2);
        assert forall|i: int|
            0 <= i < n implies ((live(mm2, i) && !(#[trigger] box_of(mm2, i)).marked) <==> (live(
            m2,
            i,
        ) && !reachable(m2, i))) by {}
        lemma_unmarked_eq_cand(mm2, m2, n as int);
        assert(cs2 == cand_seq(m2, n as int));
        lemma_unmarked_seq_props(mm2, n as int);
        // Preconditions of the sweep.
        assert forall|k: int| 0 <= k < cands2@.len() implies 0 <= #[trigger] cands2@[k] < st@.slots.len() by {
            assert(cs2[k] == cands2@[k] as int);
            assert(0 <= cs2[k] < n);
        }
        assert forall|k1: int, k2: int|
            0 <= k1 < k2 < cands2@.len() implies cands2@[k1] < cands2@[k2] by {
            assert(cs2[k1] < cs2[k2]);
        }
        assert forall|i: int|
            0 <= i < n implies ((#[trigger] m0.slots[i]) is Some <==> m2.slots[i] is Some)
            && (m0.slots[i] is Some ==> box_of(m0, i).size == box_of(m2, i).size) by {
            assert(m1.slots[i] == m0.slots[i]);
        }
        lemma_sum_sizes_congruence(m0.slots, m2.slots, n as int);
        assert(st@.bytes == sum_sizes(st@));
    }
    st.sweep(&cands2);
    proof {
        // The swept heap is the model's sweep of the finalized heap.
        assert forall|j: int| 0 <= j < n implies st@.slots[j] == sweep_m(m2).slots[j] by {
            assert(sweep_m(m2).slots[j] == sweep_slot_m(m2, j));
            if live(m2, j) && !reachable(m2, j) && box_of(m2, j).finalized {
                assert(live(mm2, j) && !box_of(mm2, j).marked);
                assert(unmarked_seq(mm2, n as int).contains(j));
                let k = choose|k: int| 0 <= k < cs2.len() && cs2[k] == j;
                assert(in_list(cs2, j));
            } else {
                if in_list(cs2, j) {
                    let k = choose|k: int| 0 <= k < cs2.len() && cs2[k] == j;
                    assert(live(mm2, cs2[k]) && !box_of(mm2, cs2[k]).marked);
                    assert(live(m2, j) && !reachable(m2, j));
                    assert(!(live(m2, j) && box_of(m2, j).finalized));
                }
            }
        }
        assert(st@.slots =~= sweep_m(m2).slots);
        lemma_sum_sizes_congruence(st@.slots, sweep_m(m2).slots, n as int);
        assert(st@ =~= sweep_m(m2));
        assert(collect_m(m0) == sweep_m(finalize_seq_m(m1, cand_seq(m1, n as int))));
        assert(final(st)@ == collect_m(m0));
        // The swept heap is well formed again.
        assert forall|i: int| live(st@, i) implies #[trigger] wf_box(st@, i) by {
            assert(st@.slots[i] == m2.slots[i]);
            assert(live(m2, i));
            assert(wf_box(m2, i));
            assert(box_of(st@, i) == box_of(m2, i));
        }
        assert forall|i: int| live(st@, i) implies !(#[trigger] box_of(st@, i)).marked by {
            assert(st@.slots[i] == m2.slots[i]);
            assert(live(m2, i));
        }
        assert(wf(st@));
    }
}

/// Immediately trigger a collection on the given heap.
pub fn force_collect(st: &mut GcState)
    requires
        wf(old(st)@),
    ensures
        wf(final(st)@),
        final(st)@ == collect_m(old(st)@),
        final(st)@.bytes <= old(st)@.bytes,
        final(st)@.slots.len() == old(st)@.slots.len(),
{
    collect_garbage(st);
}

/// True unless the heap is inside its sweep phase: payloads must not be read
/// while boxes are being reclaimed.
pub fn finalizer_safe(st: &GcState) -> (r: bool)
    ensures
        r == !st@.sweeping,
{
    !st.sweeping
}

/// A statistics snapshot.
pub fn stats(st: &GcState) -> (r: GcStats)
    ensures
        r.bytes_allocated as nat == st@.bytes,
        r.collections_performed as nat == st@.collections,
{
    GcStats { bytes_allocated: st.bytes_allocated, collections_performed: st.collections }
}

/// Replace the collector configuration.
pub fn configure(st: &mut GcState, config: GcConfig)
    requires
        wf(old(st)@),
        1 <= config.used_space_percent <= 100,
    ensures
        wf(final(st)@),
        final(st)@ == (HeapModel {
            threshold: config.threshold as nat,
            percent: config.used_space_percent as nat,
            leak_on_drop: config.leak_on_drop,
            ..old(st)@
        }),
{
    st.config = config;
    proof {
        assert(st@.slots =~= old(st)@.slots);
        assert(st@ =~= (HeapModel {
            threshold: config.threshold as nat,
            percent: config.used_space_percent as nat,
            leak_on_drop: config.leak_on_drop,
            ..old(st)@
        }));
        lemma_wf_boxes_congruence(old(st)@, st@);
        lemma_all_unmarked_congruence(old(st)@, st@);
    }
}

} // verus!
