//! A thread-confined, precise, mark-and-sweep garbage collector.
//!
//! The collector manages a per-context heap of boxes (`GcState`); `Gc` is an
//! owning handle to such a box. Every handle held outside the heap is counted
//! as a root on its target box; references held inside the heap are found by
//! tracing. A collection marks everything reachable from a rooted box, gives
//! unreachable boxes one chance to run their finalizer (which may resurrect
//! them), and then sweeps the boxes that are still unreachable.
//!
//! The heap is passed explicitly: every operation that touches the heap takes
//! a `GcState`. Payloads are drawn from a closed set of shapes (`Payload`:
//! leaf data, directly owned handles, at most one interior cell, a finalizer
//! kind), so the collector works over a known structure rather than over
//! dynamic dispatch.
use vstd::prelude::*;

mod empty_trace;
pub mod gc;
pub mod laws;
pub mod model;
mod trace;

pub use crate::empty_trace::EmptyTrace;
pub use crate::gc::{
    collect_garbage, configure, finalizer_safe, force_collect, stats, GcBox, GcBoxHeader,
    GcConfig, GcState, GcStats, Slot,
};
pub use crate::model::{
    BoxModel, CellModel, DataModel, HandleModel, HeapModel, PayloadModel, ROOTS_MAX,
};
pub use crate::trace::{Data, Finalize, FinalizerKind, Payload, Trace, WatchFlags};

use crate::model::{slots_cap, wf};

verus! {

/// A garbage-collected handle to a box in a `GcState`.
///
/// The handle is one machine word: the box index shifted left by one, with the
/// low bit stolen to record whether this handle instance is currently rooted
/// (that is, whether it contributes one unit to its target's root count).
pub struct Gc {
    word: usize,
}

impl View for Gc {
    type V = HandleModel;

    open(crate) spec fn view(&self) -> HandleModel {
        HandleModel { idx: self.word as int / 2, rooted: self.word % 2 == 1 }
    }
}

impl Gc {
    /// True when this handle instance currently contributes a root to its target.
    pub fn rooted(&self) -> (r: bool)
        ensures
            r == self@.rooted,
    {
        self.word % 2 == 1
    }

    /// The index of the box this handle refers to.
    pub fn index(&self) -> (r: usize)
        ensures
            r as int == self@.idx,
    {
        self.word / 2
    }

    /// True iff the two handles refer to the same box, whatever their root bits.
    pub fn ptr_eq(this: &Gc, other: &Gc) -> (r: bool)
        ensures
            r == (this@.idx == other@.idx),
    {
        this.word / 2 == other.word / 2
    }

    /// A handle word for box `idx` with the root bit as given.
    pub(crate) fn from_parts(idx: usize, rooted: bool) -> (r: Gc)
        requires
            idx <= slots_cap(),
        ensures
            r@ == (HandleModel { idx: idx as int, rooted }),
    {
        if rooted {
            Gc { word: idx * 2 + 1 }
        } else {
            Gc { word: idx * 2 }
        }
    }

    /// Set the stolen root bit.
    pub(crate) fn set_root(&mut self)
        requires
            !old(self)@.rooted,
        ensures
            final(self)@ == (HandleModel { idx: old(self)@.idx, rooted: true }),
    {
        self.word = self.word + 1;
    }

    /// Clear the stolen root bit.
    pub(crate) fn clear_root(&mut self)
        requires
            old(self)@.rooted,
        ensures
            final(self)@ == (HandleModel { idx: old(self)@.idx, rooted: false }),
    {
        self.word = clear_root_bit(self.word);
    }
}

impl Gc {
    /// Move a value into a fresh managed box and hand back a rooted handle.
    ///
    /// The payload's own handles stop being roots: they live on the heap now
    /// and tracing will find them. When the heap has outgrown its threshold,
    /// a collection runs first (and the threshold widens if the survivors
    /// still fill it past the configured ratio). The payload's handles must
    /// be rooted and point at live boxes, and its cell (if any) must be a
    /// fresh rooted cell with no borrow outstanding.
    pub fn new(st: &mut GcState, value: Payload) -> (g: Gc)
        requires
            wf(old(st)@),
            crate::model::payload_ok(old(st)@, value@),
            old(st)@.slots.len() + 1 <= crate::model::slots_cap(),
            old(st)@.bytes + crate::model::payload_size_m(value@) <= crate::model::bytes_cap(),
        ensures
            wf(final(st)@),
            final(st)@ == crate::model::gc_new_m(
                old(st)@,
                value@,
                crate::model::payload_size_m(value@),
            ),
            g@ == (HandleModel { idx: final(st)@.slots.len() - 1, rooted: true }),
            crate::model::live(final(st)@, g@.idx),
            crate::model::roots_of(final(st)@, g@.idx) == 1,
    {
        let idx = crate::gc::insert_gcbox(st, value);
        Gc::from_parts(idx, true)
    }

    /// A new rooted handle to the same box: its root count goes up by one.
    /// The count must have room below its ceiling.
    pub fn clone(&self, st: &mut GcState) -> (g: Gc)
        requires
            wf(old(st)@),
            crate::model::live(old(st)@, self@.idx),
            crate::model::roots_of(old(st)@, self@.idx) < ROOTS_MAX as nat,
        ensures
            wf(final(st)@),
            final(st)@ == crate::model::inc_roots_m(old(st)@, self@.idx),
            crate::model::roots_of(final(st)@, self@.idx) == crate::model::roots_of(
                old(st)@,
                self@.idx,
            ) + 1,
            g@ == (HandleModel { idx: self@.idx, rooted: true }),
    {
        st.inc_roots_at(self.index());
        proof {
            crate::model::lemma_inc_roots_frame(old(st)@, self@.idx);
            crate::model::lemma_roots_frame_wf(old(st)@, st@);
        }
        Gc::from_parts(self.index(), true)
    }

    /// Give the handle up. A rooted handle takes its root with it; an
    /// unrooted one was owned by a heap box, whose own lifecycle accounts for
    /// it.
    pub fn drop_handle(self, st: &mut GcState)
        requires
            wf(old(st)@),
            self@.rooted ==> crate::model::live(old(st)@, self@.idx) && crate::model::roots_of(
                old(st)@,
                self@.idx,
            ) >= 1,
        ensures
            wf(final(st)@),
            final(st)@ == (if self@.rooted {
                crate::model::dec_roots_m(old(st)@, self@.idx)
            } else {
                old(st)@
            }),
            self@.rooted ==> crate::model::roots_of(final(st)@, self@.idx) == crate::model::roots_of(
                old(st)@,
                self@.idx,
            ) - 1,
    {
        if self.rooted() {
            st.dec_roots_at(self.index());
            proof {
                crate::model::lemma_dec_roots_frame(old(st)@, self@.idx);
                crate::model::lemma_roots_frame_wf(old(st)@, st@);
            }
        }
    }

    /// Consume the handle, leaking its root, and hand out the raw box index.
    /// `Gc::from_raw` turns it back into a handle.
    pub fn into_raw(this: Gc) -> (r: usize)
        ensures
            r as int == this@.idx,
    {
        this.word / 2
    }

    /// Rebuild a handle from a raw index that `Gc::into_raw` handed out. The
    /// root that `into_raw` leaked backs the rebuilt handle's root bit, so
    /// the box must still be live with a positive count.
    pub fn from_raw(idx: usize, st: &GcState) -> (g: Gc)
        requires
            wf(st@),
            crate::model::live(st@, idx as int),
            crate::model::roots_of(st@, idx as int) >= 1,
        ensures
            g@ == (HandleModel { idx: idx as int, rooted: true }),
    {
        proof {
            assert(idx <= crate::model::slots_cap());
        }
        Gc::from_parts(idx, true)
    }

    /// Clear the stolen root bit whatever its state.
    pub(crate) fn force_clear_root(&mut self)
        ensures
            final(self)@ == (HandleModel { idx: old(self)@.idx, rooted: false }),
    {
        self.word = clear_root_bit(self.word);
    }
}

/// The given handle word with its root bit cleared.
pub(crate) fn clear_root_bit(word: usize) -> (r: usize)
    ensures
        r == word - word % 2,
{
    word - word % 2
}

/// The borrow word of an interior cell. The low bit records whether the
/// cell's contents count as rooted; the remaining bits hold the borrow state:
/// zero when unused, all ones for a writer, otherwise twice the reader count.
#[derive(Clone, Copy)]
pub struct BorrowFlag(pub usize);

/// The borrow state of a cell: some readers, one writer, or unused.
#[derive(Clone, Copy, PartialEq, Eq, Structural, Debug)]
pub enum BorrowState {
    Reading,
    Writing,
    Unused,
}

impl BorrowFlag {
    /// The borrow bits without the root bit.
    pub closed spec fn body(self) -> int {
        self.0 - self.0 % 2
    }

    pub closed spec fn rooted_spec(self) -> bool {
        self.0 % 2 == 1
    }

    pub closed spec fn writing_spec(self) -> bool {
        self.body() == usize::MAX - 1
    }

    pub closed spec fn reading_spec(self) -> nat {
        if self.writing_spec() {
            0
        } else {
            (self.body() / 2) as nat
        }
    }

    pub open spec fn unused_spec(self) -> bool {
        !self.writing_spec() && self.reading_spec() == 0
    }

    /// The initial flag: rooted, unused.
    pub(crate) fn init() -> (r: BorrowFlag)
        ensures
            r.rooted_spec(),
            !r.writing_spec(),
            r.reading_spec() == 0,
    {
        BorrowFlag(1)
    }

    /// The borrow state encoded in this flag.
    pub fn borrowed(self) -> (r: BorrowState)
        ensures
            r == BorrowState::Writing <==> self.writing_spec(),
            r == BorrowState::Unused <==> (!self.writing_spec() && self.reading_spec() == 0),
            r == BorrowState::Reading <==> (!self.writing_spec() && self.reading_spec() > 0),
    {
        let body = self.0 - self.0 % 2;
        if body == 0 {
            BorrowState::Unused
        } else if body == usize::MAX - 1 {
            BorrowState::Writing
        } else {
            BorrowState::Reading
        }
    }

    /// Whether the cell's contents count as rooted.
    pub fn rooted(self) -> (r: bool)
        ensures
            r == self.rooted_spec(),
    {
        self.0 % 2 == 1
    }

    /// Enter the writer state; the root bit is preserved.
    pub fn set_writing(self) -> (r: BorrowFlag)
        ensures
            r.writing_spec(),
            r.rooted_spec() == self.rooted_spec(),
    {
        BorrowFlag(self.0 % 2 + (usize::MAX - 1))
    }

    /// Back to the unused state; the root bit is preserved.
    pub fn set_unused(self) -> (r: BorrowFlag)
        ensures
            !r.writing_spec(),
            r.reading_spec() == 0,
            r.rooted_spec() == self.rooted_spec(),
    {
        BorrowFlag(self.0 % 2)
    }

    /// One more reader. No writer may be active and the count stays clear of
    /// the writer sentinel.
    pub fn add_reading(self) -> (r: BorrowFlag)
        requires
            !self.writing_spec(),
            self.reading_spec() + 1 < ((usize::MAX - 1) / 2) as nat,
        ensures
            !r.writing_spec(),
            r.reading_spec() == self.reading_spec() + 1,
            r.rooted_spec() == self.rooted_spec(),
    {
        BorrowFlag(self.0 + 2)
    }

    /// One fewer reader.
    pub fn sub_reading(self) -> (r: BorrowFlag)
        requires
            !self.writing_spec(),
            self.reading_spec() >= 1,
        ensures
            !r.writing_spec(),
            r.reading_spec() == self.reading_spec() - 1,
            r.rooted_spec() == self.rooted_spec(),
    {
        BorrowFlag(self.0 - 2)
    }

    /// Set the root bit; the borrow bits are preserved.
    pub fn set_rooted(self, rooted: bool) -> (r: BorrowFlag)
        ensures
            r.rooted_spec() == rooted,
            r.writing_spec() == self.writing_spec(),
            r.reading_spec() == self.reading_spec(),
    {
        if rooted {
            BorrowFlag(self.0 - self.0 % 2 + 1)
        } else {
            BorrowFlag(self.0 - self.0 % 2)
        }
    }
}

/// A dynamically borrow-checked memory location usable inside a managed
/// payload. The cell coordinates borrowing with rooting: while a writer is
/// active on a cell owned by the heap, the cell's contents are rooted
/// independently, because tracing skips a cell under mutation.
pub struct GcCell {
    pub(crate) flags: BorrowFlag,
    pub(crate) data: Data,
    pub(crate) handle: Option<Gc>,
    pub(crate) watch: WatchFlags,
}

impl View for GcCell {
    type V = CellModel;

    open(crate) spec fn view(&self) -> CellModel {
        CellModel {
            rooted: self.flags.rooted_spec(),
            writing: self.flags.writing_spec(),
            reading: self.flags.reading_spec(),
            data: self.data@,
            handle: match self.handle {
                Some(g) => Some(g@),
                None => None,
            },
        }
    }
}

/// An error returned by `GcCell::try_borrow`: a writer is active.
#[derive(Debug, Clone, Copy, Eq, PartialEq, Ord, PartialOrd, Default, Hash, Structural)]
pub struct BorrowError;

impl BorrowError {
    /// The message the panicking borrow would carry.
    pub fn message(&self) -> (s: &'static str)
        ensures
            s@ == "GcCell<T> already mutably borrowed"@,
    {
        "GcCell<T> already mutably borrowed"
    }
}

/// An error returned by `GcCell::try_borrow_mut`: some borrow is active.
#[derive(Debug, Clone, Copy, Eq, PartialEq, Ord, PartialOrd, Default, Hash, Structural)]
pub struct BorrowMutError;

impl BorrowMutError {
    /// The message the panicking borrow would carry.
    pub fn message(&self) -> (s: &'static str)
        ensures
            s@ == "GcCell<T> already borrowed"@,
    {
        "GcCell<T> already borrowed"
    }
}

impl GcCell {
    /// A fresh cell: rooted, unused, with the given contents.
    pub fn new(data: Data, handle: Option<Gc>) -> (r: GcCell)
        ensures
            r@ == (CellModel {
                rooted: true,
                writing: false,
                reading: 0nat,
                data: data@,
                handle: match handle {
                    Some(g) => Some(g@),
                    None => None,
                },
            }),
    {
        GcCell { flags: BorrowFlag::init(), data, handle, watch: WatchFlags::zero() }
    }

    /// Take the contents out of the cell.
    pub fn into_inner(self) -> (r: (Data, Option<Gc>))
        ensures
            r.0@ == self@.data,
            (r.1 is Some <==> self@.handle is Some),
            r.1 is Some ==> r.1->Some_0@ == self@.handle->Some_0,
    {
        (self.data, self.handle)
    }

    /// Read the leaf part of the contents; no writer may be active.
    pub fn get_data(&self) -> (r: &Data)
        requires
            !self@.writing,
        ensures
            r@ == self@.data,
    {
        &self.data
    }

    /// The instrumentation counters of this cell's contents.
    pub fn watch(&self) -> WatchFlags {
        self.watch
    }

    /// Read the leaf part of the contents for accounting, whatever the
    /// borrow state.
    pub(crate) fn get_data_raw(&self) -> (r: &Data)
        ensures
            r@ == self@.data,
    {
        &self.data
    }

    /// Stop this cell's contents from counting as rooted: clear the flag and,
    /// unless a writer owns an independent root on them, unroot the contents.
    pub(crate) fn unroot_in(&mut self, st: &mut crate::gc::GcState)
        ensures
            final(self)@ == (CellModel {
                rooted: false,
                handle: if old(self)@.writing {
                    old(self)@.handle
                } else {
                    match old(self)@.handle {
                        Some(h) => Some(HandleModel { rooted: false, ..h }),
                        None => None,
                    }
                },
                ..old(self)@
            }),
            final(st)@ == (if !old(self)@.writing {
                match old(self)@.handle {
                    Some(h) => crate::model::dec_roots_m(old(st)@, h.idx),
                    None => old(st)@,
                }
            } else {
                old(st)@
            }),
    {
        self.flags = self.flags.set_rooted(false);
        let state = self.flags.borrowed();
        if !(state == BorrowState::Writing) {
            match &mut self.handle {
                Some(g) => {
                    st.dec_roots_at(g.index());
                    g.force_clear_root();
                },
                None => {},
            }
            self.watch.unroot = crate::trace::bump(self.watch.unroot);
        }
    }

    /// The index of the handle in the contents, if any; no writer active.
    pub fn handle_index(&self) -> (r: Option<usize>)
        requires
            !self@.writing,
        ensures
            (r is Some <==> self@.handle is Some),
            r is Some ==> r->Some_0 as int == self@.handle->Some_0.idx,
    {
        match &self.handle {
            Some(g) => Some(g.index()),
            None => None,
        }
    }

    /// Take a reader on this cell; fails while a writer is active.
    pub fn try_borrow(&mut self) -> (r: Result<GcCellRef, BorrowError>)
        requires
            old(self)@.reading + 1 < ((usize::MAX - 1) / 2) as nat,
        ensures
            old(self)@.writing ==> r is Err && final(self)@ == old(self)@,
            !old(self)@.writing ==> r is Ok && final(self)@ == (CellModel {
                reading: old(self)@.reading + 1,
                ..old(self)@
            }) && r->Ok_0.part_spec() == CellPart::All,
    {
        let state = self.flags.borrowed();
        if state == BorrowState::Writing {
            Err(BorrowError)
        } else {
            self.flags = self.flags.add_reading();
            Ok(GcCellRef { part: CellPart::All })
        }
    }

    /// Take a reader on this cell; no writer may be active (the panicking
    /// variant of `try_borrow`).
    pub fn borrow(&mut self) -> (r: GcCellRef)
        requires
            !old(self)@.writing,
            old(self)@.reading + 1 < ((usize::MAX - 1) / 2) as nat,
        ensures
            final(self)@ == (CellModel { reading: old(self)@.reading + 1, ..old(self)@ }),
            r.part_spec() == CellPart::All,
    {
        self.flags = self.flags.add_reading();
        GcCellRef { part: CellPart::All }
    }

    /// Release a reader.
    pub fn end_borrow(&mut self, r: GcCellRef)
        requires
            !old(self)@.writing,
            old(self)@.reading >= 1,
        ensures
            final(self)@ == (CellModel {
                reading: (old(self)@.reading - 1) as nat,
                ..old(self)@
            }),
    {
        let _ = r;
        self.flags = self.flags.sub_reading();
    }

    /// Take the writer on this rooted (stack-held) cell; fails while any
    /// borrow is active. The contents of a rooted cell are already rooted, so
    /// no root moves.
    pub fn try_borrow_mut(&mut self) -> (r: Result<GcCellRefMut, BorrowMutError>)
        requires
            old(self)@.rooted,
        ensures
            (old(self)@.writing || old(self)@.reading > 0) ==> r is Err && final(self)@ == old(
                self,
            )@,
            !(old(self)@.writing || old(self)@.reading > 0) ==> r is Ok && final(self)@ == (
            CellModel { writing: true, reading: 0nat, ..old(self)@ }) && r->Ok_0.part_spec()
                == CellPart::All && r->Ok_0.target_spec() is None,
    {
        let state = self.flags.borrowed();
        if !(state == BorrowState::Unused) {
            Err(BorrowMutError)
        } else {
            self.flags = self.flags.set_writing();
            Ok(GcCellRefMut { target: None, part: CellPart::All })
        }
    }

    /// Take the writer on this rooted cell; no borrow may be active (the
    /// panicking variant of `try_borrow_mut`).
    pub fn borrow_mut(&mut self) -> (r: GcCellRefMut)
        requires
            old(self)@.rooted,
            !old(self)@.writing,
            old(self)@.reading == 0,
        ensures
            final(self)@ == (CellModel { writing: true, reading: 0nat, ..old(self)@ }),
            r.part_spec() == CellPart::All,
            r.target_spec() is None,
    {
        self.flags = self.flags.set_writing();
        GcCellRefMut { target: None, part: CellPart::All }
    }

    /// Release the writer on this rooted cell.
    pub fn end_borrow_mut(&mut self, w: GcCellRefMut)
        requires
            old(self)@.rooted,
            old(self)@.writing,
        ensures
            final(self)@ == (CellModel { writing: false, reading: 0nat, ..old(self)@ }),
    {
        let _ = w;
        self.flags = self.flags.set_unused();
    }

    /// Write the leaf part of the contents through an active writer guard.
    pub fn set_data(&mut self, w: &GcCellRefMut, d: Data)
        requires
            old(self)@.writing,
            w.part_spec() == CellPart::All || w.part_spec() == CellPart::DataPart,
        ensures
            final(self)@ == (CellModel { data: d@, ..old(self)@ }),
    {
        self.data = d;
    }

    /// Write the first component of a pair through a writer guard projected
    /// at least that far.
    pub fn set_pair_first(&mut self, w: &GcCellRefMut, v: i64)
        requires
            old(self)@.writing,
            w.part_spec() == CellPart::All || w.part_spec() == CellPart::DataPart
                || w.part_spec() == CellPart::PairFirst,
            old(self)@.data is Pair,
        ensures
            final(self)@ == (CellModel {
                data: DataModel::Pair(v as int, old(self)@.data->Pair_1),
                ..old(self)@
            }),
    {
        let _ = w;
        let second = match &self.data {
            Data::Pair(_, c) => *c,
            _ => {
                proof {
                    assert(false);
                }
                ' '
            },
        };
        self.data = Data::Pair(v, second);
    }

    /// Write the second component of a pair through a writer guard projected
    /// at least that far.
    pub fn set_pair_second(&mut self, w: &GcCellRefMut, c: char)
        requires
            old(self)@.writing,
            w.part_spec() == CellPart::All || w.part_spec() == CellPart::DataPart
                || w.part_spec() == CellPart::PairSecond,
            old(self)@.data is Pair,
        ensures
            final(self)@ == (CellModel {
                data: DataModel::Pair(old(self)@.data->Pair_0, c),
                ..old(self)@
            }),
    {
        let _ = w;
        let first = match &self.data {
            Data::Pair(v, _) => *v,
            _ => {
                proof {
                    assert(false);
                }
                0
            },
        };
        self.data = Data::Pair(first, c);
    }
}

/// Which component of a cell's contents a borrow guard projects to.
#[derive(Clone, Copy, PartialEq, Eq, Structural, Debug)]
pub enum CellPart {
    /// The whole contents.
    All,
    /// The first component of a `Data::Pair`.
    PairFirst,
    /// The second component of a `Data::Pair`.
    PairSecond,
    /// The leaf part of the contents.
    DataPart,
}

/// A reader guard on a cell: it stands for one unit of the reader count and
/// records which component it projects to. Release it with `end_borrow`.
pub struct GcCellRef {
    pub(crate) part: CellPart,
}

impl GcCellRef {
    pub open(crate) spec fn part_spec(&self) -> CellPart {
        self.part
    }

    /// A second reader on the same cell: the count goes up by one.
    pub fn clone(orig: &GcCellRef, cell: &mut GcCell) -> (r: GcCellRef)
        requires
            !old(cell)@.writing,
            old(cell)@.reading >= 1,
            old(cell)@.reading + 1 < ((usize::MAX - 1) / 2) as nat,
        ensures
            final(cell)@ == (CellModel { reading: old(cell)@.reading + 1, ..old(cell)@ }),
            r.part_spec() == orig.part_spec(),
    {
        cell.flags = cell.flags.add_reading();
        GcCellRef { part: orig.part }
    }

    /// Narrow a reader to one component of the contents.
    pub fn map(orig: GcCellRef, part: CellPart) -> (r: GcCellRef)
        ensures
            r.part_spec() == part,
    {
        let _ = orig;
        GcCellRef { part }
    }

    /// Split a reader into readers on the two components of a pair; the
    /// count goes up by one, and each projection is released on its own.
    pub fn map_split(orig: GcCellRef, cell: &mut GcCell) -> (r: (GcCellRef, GcCellRef))
        requires
            !old(cell)@.writing,
            old(cell)@.reading >= 1,
            old(cell)@.reading + 1 < ((usize::MAX - 1) / 2) as nat,
        ensures
            final(cell)@ == (CellModel { reading: old(cell)@.reading + 1, ..old(cell)@ }),
            r.0.part_spec() == CellPart::PairFirst,
            r.1.part_spec() == CellPart::PairSecond,
    {
        let _ = orig;
        cell.flags = cell.flags.add_reading();
        (GcCellRef { part: CellPart::PairFirst }, GcCellRef { part: CellPart::PairSecond })
    }
}

/// The writer guard on a cell: while it exists the cell's contents are rooted
/// independently (when the cell itself is heap-owned) and no other borrow can
/// be taken. Release it with `end_borrow_mut`.
pub struct GcCellRefMut {
    pub(crate) target: Option<usize>,
    pub(crate) part: CellPart,
}

impl GcCellRefMut {
    pub open(crate) spec fn part_spec(&self) -> CellPart {
        self.part
    }

    /// The heap box whose cell this guard writes, if the cell is heap-owned.
    pub open(crate) spec fn target_spec(&self) -> Option<usize> {
        self.target
    }

    /// Re-parent the writer to one component of the contents.
    pub fn map(orig: GcCellRefMut, part: CellPart) -> (r: GcCellRefMut)
        ensures
            r.part_spec() == part,
            r.target_spec() == orig.target_spec(),
    {
        GcCellRefMut { target: orig.target, part }
    }
}

} // verus!
