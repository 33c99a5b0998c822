//! Payload shapes, instrumentation counters, and the tracing capability.
use vstd::prelude::*;

use crate::gc::GcState;
use crate::model::{
    dec_roots_m, inc_roots_m, lemma_root_children_push, lemma_trace_children_push,
    lemma_unroot_children_push, mark_one_m, payload_root_ok, payload_unroot_ok, root_children_m,
    root_targets_m, rooted_opt, rooted_payload_m, trace_children_m, trace_targets_m,
    unroot_children_m, unroot_targets_m, unrooted_payload_m, box_of, BoxModel, CellModel, DataModel,
    HandleModel, HeapModel, PayloadModel,
};
use crate::Gc;
use crate::GcCell;

verus! {

/// Per-value instrumentation: how many times the value has been traced,
/// rooted, unrooted, dropped and finalized. Counters saturate; they are
/// observability only and no contract depends on them.
#[derive(Clone, Copy, PartialEq, Eq, Structural, Debug)]
pub struct WatchFlags {
    pub trace: u64,
    pub root: u64,
    pub unroot: u64,
    pub drops: u64,
    pub finalize: u64,
}

impl WatchFlags {
    pub fn new(trace: u64, root: u64, unroot: u64, drops: u64, finalize: u64) -> (r: WatchFlags)
        ensures
            r == (WatchFlags { trace, root, unroot, drops, finalize }),
    {
        WatchFlags { trace, root, unroot, drops, finalize }
    }

    pub fn zero() -> (r: WatchFlags)
        ensures
            r == (WatchFlags { trace: 0u64, root: 0u64, unroot: 0u64, drops: 0u64, finalize: 0u64 }),
    {
        WatchFlags { trace: 0, root: 0, unroot: 0, drops: 0, finalize: 0 }
    }
}

/// Saturating counter bump for the instrumentation fields.
pub(crate) fn bump(x: u64) -> u64 {
    if x < u64::MAX {
        x + 1
    } else {
        x
    }
}

/// The closed set of leaf values a box or a cell can hold. Leaves own no
/// handles: tracing, rooting and unrooting them is a no-op.
pub enum Data {
    Unit,
    Byte(u8),
    Int(i128),
    UInt(u128),
    Str(String),
    Bytes(Vec<u8>),
    Pair(i64, char),
}

impl View for Data {
    type V = DataModel;

    open(crate) spec fn view(&self) -> DataModel {
        match self {
            Data::Unit => DataModel::Unit,
            Data::Byte(b) => DataModel::Byte(*b),
            Data::Int(v) => DataModel::Int(*v as int),
            Data::UInt(v) => DataModel::UInt(*v as int),
            Data::Str(s) => DataModel::Str(s@),
            Data::Bytes(v) => DataModel::Bytes(v@),
            Data::Pair(a, c) => DataModel::Pair(*a as int, *c),
        }
    }
}

/// What a box's finalizer does when the collector runs it. The set is closed:
/// a finalizer either does nothing beyond its instrumentation, or it
/// resurrects by storing a handle into the interior cell of an escape box
/// (one of the finalized box's own children).
#[derive(Clone, Copy)]
pub enum FinalizerKind {
    /// Only the instrumentation counter is bumped.
    Nothing,
    /// Store a fresh (unrooted) handle to the box `children[value]` points at
    /// into the cell of the box `children[escape]` points at.
    StoreChild { escape: usize, value: usize },
    /// Store a fresh handle to the box this box's own cell points at into the
    /// cell of the box `children[escape]` points at.
    StoreCellContent { escape: usize },
}

/// A managed value: leaf data, the handles it owns directly, at most one
/// interior cell, and its finalizer kind.
pub struct Payload {
    pub data: Data,
    pub children: Vec<Gc>,
    pub cell: Option<GcCell>,
    pub finalizer: FinalizerKind,
    pub watch: WatchFlags,
}

impl View for Payload {
    type V = PayloadModel;

    open(crate) spec fn view(&self) -> PayloadModel {
        PayloadModel {
            data: self.data@,
            children: self.children@.map_values(|g: Gc| g@),
            cell: match self.cell {
                Some(c) => Some(c@),
                None => None,
            },
            finalizer: self.finalizer,
        }
    }
}

impl Payload {
    /// A payload that owns nothing: leaf data only.
    pub fn leaf(data: Data) -> (r: Payload)
        ensures
            r@ == (PayloadModel {
                data: data@,
                children: Seq::<crate::model::HandleModel>::empty(),
                cell: None,
                finalizer: FinalizerKind::Nothing,
            }),
    {
        let r = Payload {
            data,
            children: Vec::new(),
            cell: None,
            finalizer: FinalizerKind::Nothing,
            watch: WatchFlags::zero(),
        };
        proof {
            assert(r@.children =~= Seq::<crate::model::HandleModel>::empty());
        }
        r
    }
}

impl Payload {
    /// Move this payload's handles to the heap-owned state: each stops
    /// contributing the root it held, and its bit is cleared. This is the
    /// body of `Trace::unroot`: the payload is being moved into a fresh box,
    /// where tracing will find the handles.
    #[verifier::loop_isolation(false)]
    pub(crate) fn unroot_heap(&mut self, st: &mut GcState)
        ensures
            final(st)@ == unroot_targets_m(old(st)@, old(self)@),
            final(self)@ == unrooted_payload_m(old(self)@),
    {
        let ghost m0 = st@;
        let ghost p0 = self@;
        let n = self.children.len();
        let mut k: usize = 0;
        while k < n
            invariant
                k <= n,
                self.children@.len() == n,
                st@ == unroot_children_m(m0, p0.children.take(k as int)),
                forall|i: int|
                    0 <= i < k ==> self.children@[i]@ == (HandleModel {
                        rooted: false,
                        ..p0.children[i]
                    }),
                forall|i: int| k <= i < n ==> self.children@[i]@ == p0.children[i],
                self.data@ == p0.data,
                (self.cell is Some <==> p0.cell is Some),
                self.cell is Some ==> self.cell->Some_0@ == p0.cell->Some_0,
                self.finalizer == p0.finalizer,
            decreases n - k,
        {
            let idx = self.children[k].index();
            st.dec_roots_at(idx);
            let g = &mut self.children[k];
            g.force_clear_root();
            k += 1;
            proof {
                assert(p0.children.take(k as int) =~= p0.children.take(k - 1 as int).push(
                    p0.children[k - 1],
                ));
                lemma_unroot_children_push(m0, p0.children.take(k - 1 as int), p0.children[k - 1]);
            }
        }
        proof {
            assert(p0.children.take(n as int) =~= p0.children);
        }
        match &mut self.cell {
            Some(cell) => {
                cell.unroot_in(st);
            },
            None => {},
        }
        self.watch.unroot = bump(self.watch.unroot);
        proof {
            assert(self@.children =~= unrooted_payload_m(p0).children);
            assert(self@ =~= unrooted_payload_m(p0));
        }
    }
}

/// Finalization capability: every managed payload can run user finalization.
/// Here a finalizer is instrumentation plus, for a box being collected, the
/// closed finalizer action the collector applies — so running `finalize`
/// itself never changes the value's model.
pub trait Finalize: View {
    /// Run this value's own finalizer (bumps the finalize counter).
    fn finalize(&mut self)
        ensures
            final(self)@ == old(self)@,
    ;
}

/// Tracing capability: the operations the collector needs from every managed
/// value, each with its exact effect on the heap model.
///
/// `trace` marks the boxes the value refers to directly (the collector
/// iterates tracing to a fixed point); `root` and `unroot` move the value's
/// handles between the rooted and the heap-owned state. Rooting a handle that
/// already counts as a root — or unrooting one that does not — is the fatal
/// double-root / double-unroot of the rooting discipline: `root_ok` and
/// `unroot_ok` exclude those calls.
pub trait Trace: Finalize {
    /// The heap after `trace` marks the boxes this value refers to directly.
    spec fn trace_effect(&self, m: HeapModel) -> HeapModel;

    /// Whether `root` may run: no handle of this value counts as a root yet.
    spec fn root_ok(&self) -> bool;

    /// The heap after this value's handles take their roots.
    spec fn root_effect(&self, m: HeapModel) -> HeapModel;

    /// The value once every handle it owns is rooted.
    spec fn rooted_form(&self) -> Self::V;

    /// Whether `unroot` may run: every handle of this value counts as a root.
    spec fn unroot_ok(&self) -> bool;

    /// The heap after this value's handles give their roots back.
    spec fn unroot_effect(&self, m: HeapModel) -> HeapModel;

    /// The value once every handle it owns is heap-owned.
    spec fn unrooted_form(&self) -> Self::V;

    /// Mark every box this value refers to directly.
    fn trace(&mut self, st: &mut GcState)
        ensures
            final(st)@ == old(self).trace_effect(old(st)@),
            final(self)@ == old(self)@,
    ;

    /// Make every handle owned by this value contribute a root.
    fn root(&mut self, st: &mut GcState)
        requires
            old(self).root_ok(),
        ensures
            final(st)@ == old(self).root_effect(old(st)@),
            final(self)@ == old(self).rooted_form(),
    ;

    /// Stop every handle owned by this value from contributing a root.
    fn unroot(&mut self, st: &mut GcState)
        requires
            old(self).unroot_ok(),
        ensures
            final(st)@ == old(self).unroot_effect(old(st)@),
            final(self)@ == old(self).unrooted_form(),
    ;

    /// Run `finalize` on this value and on the subvalues it owns.
    fn finalize_glue(&mut self)
        ensures
            final(self)@ == old(self)@,
    ;
}

impl Finalize for Data {
    fn finalize(&mut self) {
    }
}

/// Leaf values own no handles: every operation is a no-op.
impl Trace for Data {
    open spec fn trace_effect(&self, m: HeapModel) -> HeapModel {
        m
    }

    open spec fn root_ok(&self) -> bool {
        true
    }

    open spec fn root_effect(&self, m: HeapModel) -> HeapModel {
        m
    }

    open spec fn rooted_form(&self) -> DataModel {
        self@
    }

    open spec fn unroot_ok(&self) -> bool {
        true
    }

    open spec fn unroot_effect(&self, m: HeapModel) -> HeapModel {
        m
    }

    open spec fn unrooted_form(&self) -> DataModel {
        self@
    }

    fn trace(&mut self, _st: &mut GcState) {
    }

    fn root(&mut self, _st: &mut GcState) {
    }

    fn unroot(&mut self, _st: &mut GcState) {
    }

    fn finalize_glue(&mut self) {
    }
}

impl Finalize for Gc {
    fn finalize(&mut self) {
    }
}

/// A handle refers to one box: tracing marks it, rooting and unrooting move
/// the one root this handle stands for.
impl Trace for Gc {
    open spec fn trace_effect(&self, m: HeapModel) -> HeapModel {
        mark_one_m(m, self@.idx)
    }

    open spec fn root_ok(&self) -> bool {
        !self@.rooted
    }

    open spec fn root_effect(&self, m: HeapModel) -> HeapModel {
        inc_roots_m(m, self@.idx)
    }

    open spec fn rooted_form(&self) -> HandleModel {
        HandleModel { idx: self@.idx, rooted: true }
    }

    open spec fn unroot_ok(&self) -> bool {
        self@.rooted
    }

    open spec fn unroot_effect(&self, m: HeapModel) -> HeapModel {
        dec_roots_m(m, self@.idx)
    }

    open spec fn unrooted_form(&self) -> HandleModel {
        HandleModel { idx: self@.idx, rooted: false }
    }

    fn trace(&mut self, st: &mut GcState) {
        let idx = self.index();
        let n = st.n_slots();
        if idx < n {
            if st.live_at(idx) {
                if !st.is_marked_at(idx) {
                    st.mark_box(idx);
                } else {
                    proof {
                        assert(box_of(st@, idx as int) =~= (BoxModel {
                            marked: true,
                            ..box_of(st@, idx as int)
                        }));
                        assert(st@.slots =~= mark_one_m(st@, idx as int).slots);
                        assert(st@ =~= mark_one_m(st@, idx as int));
                    }
                }
            }
        }
    }

    fn root(&mut self, st: &mut GcState) {
        st.inc_roots_at(self.index());
        self.set_root();
    }

    fn unroot(&mut self, st: &mut GcState) {
        st.dec_roots_at(self.index());
        self.clear_root();
    }

    fn finalize_glue(&mut self) {
        Finalize::finalize(self);
    }
}

impl Finalize for GcCell {
    fn finalize(&mut self) {
        self.watch.finalize = bump(self.watch.finalize);
    }
}

/// A cell forwards to its contents, except that a writer hides them: while a
/// writer is active the contents carry their own root instead, so tracing
/// skips them and rooting and unrooting leave them alone.
impl Trace for GcCell {
    open spec fn trace_effect(&self, m: HeapModel) -> HeapModel {
        if self@.writing {
            m
        } else {
            match self@.handle {
                Some(h) => mark_one_m(m, h.idx),
                None => m,
            }
        }
    }

    open spec fn root_ok(&self) -> bool {
        &&& !self@.rooted
        &&& (!self@.writing ==> match self@.handle {
            Some(h) => !h.rooted,
            None => true,
        })
    }

    open spec fn root_effect(&self, m: HeapModel) -> HeapModel {
        if self@.writing {
            m
        } else {
            match self@.handle {
                Some(h) => inc_roots_m(m, h.idx),
                None => m,
            }
        }
    }

    open spec fn rooted_form(&self) -> CellModel {
        CellModel {
            rooted: true,
            handle: if self@.writing {
                self@.handle
            } else {
                rooted_opt(self@.handle, true)
            },
            ..self@
        }
    }

    open spec fn unroot_ok(&self) -> bool {
        &&& self@.rooted
        &&& (!self@.writing ==> match self@.handle {
            Some(h) => h.rooted,
            None => true,
        })
    }

    open spec fn unroot_effect(&self, m: HeapModel) -> HeapModel {
        if self@.writing {
            m
        } else {
            match self@.handle {
                Some(h) => dec_roots_m(m, h.idx),
                None => m,
            }
        }
    }

    open spec fn unrooted_form(&self) -> CellModel {
        CellModel {
            rooted: false,
            handle: if self@.writing {
                self@.handle
            } else {
                rooted_opt(self@.handle, false)
            },
            ..self@
        }
    }

    fn trace(&mut self, st: &mut GcState) {
        let state = self.flags.borrowed();
        if !(state == crate::BorrowState::Writing) {
            self.watch.trace = bump(self.watch.trace);
            match &mut self.handle {
                Some(g) => g.trace(st),
                None => {},
            }
        }
    }

    fn root(&mut self, st: &mut GcState) {
        self.flags = self.flags.set_rooted(true);
        let state = self.flags.borrowed();
        if !(state == crate::BorrowState::Writing) {
            self.watch.root = bump(self.watch.root);
            match &mut self.handle {
                Some(g) => g.root(st),
                None => {},
            }
        }
        proof {
            assert(self@ =~= old(self).rooted_form());
        }
    }

    fn unroot(&mut self, st: &mut GcState) {
        self.unroot_in(st);
        proof {
            assert(self@ =~= old(self).unrooted_form());
        }
    }

    fn finalize_glue(&mut self) {
        Finalize::finalize(self);
    }
}

impl Finalize for Payload {
    fn finalize(&mut self) {
        self.watch.finalize = bump(self.watch.finalize);
    }
}

/// A payload forwards to its leaf data, its owned handles and its cell.
impl Trace for Payload {
    open spec fn trace_effect(&self, m: HeapModel) -> HeapModel {
        trace_targets_m(m, self@)
    }

    open spec fn root_ok(&self) -> bool {
        payload_root_ok(self@)
    }

    open spec fn root_effect(&self, m: HeapModel) -> HeapModel {
        root_targets_m(m, self@)
    }

    open spec fn rooted_form(&self) -> PayloadModel {
        rooted_payload_m(self@)
    }

    open spec fn unroot_ok(&self) -> bool {
        payload_unroot_ok(self@)
    }

    open spec fn unroot_effect(&self, m: HeapModel) -> HeapModel {
        unroot_targets_m(m, self@)
    }

    open spec fn unrooted_form(&self) -> PayloadModel {
        unrooted_payload_m(self@)
    }

    #[verifier::loop_isolation(false)]
    fn trace(&mut self, st: &mut GcState) {
        let ghost m0 = st@;
        let ghost p0 = self@;
        self.watch.trace = bump(self.watch.trace);
        let n = self.children.len();
        let mut k: usize = 0;
        while k < n
            invariant
                k <= n,
                self.children@.len() == n,
                st@ == trace_children_m(m0, p0.children.take(k as int)),
                forall|i: int| 0 <= i < n ==> self.children@[i]@ == p0.children[i],
                self.data@ == p0.data,
                (self.cell is Some <==> p0.cell is Some),
                self.cell is Some ==> self.cell->Some_0@ == p0.cell->Some_0,
                self.finalizer == p0.finalizer,
            decreases n - k,
        {
            let g = &mut self.children[k];
            g.trace(st);
            k += 1;
            proof {
                assert(p0.children.take(k as int) =~= p0.children.take(k - 1 as int).push(
                    p0.children[k - 1],
                ));
                lemma_trace_children_push(m0, p0.children.take(k - 1 as int), p0.children[k - 1]);
            }
        }
        proof {
            assert(p0.children.take(n as int) =~= p0.children);
        }
        match &mut self.cell {
            Some(c) => c.trace(st),
            None => {},
        }
        proof {
            assert(st@ == trace_targets_m(m0, p0));
            assert(self@.children =~= p0.children);
            assert(self@ =~= p0);
        }
    }

    #[verifier::loop_isolation(false)]
    fn root(&mut self, st: &mut GcState) {
        let ghost m0 = st@;
        let ghost p0 = self@;
        self.watch.root = bump(self.watch.root);
        let n = self.children.len();
        let mut k: usize = 0;
        while k < n
            invariant
                k <= n,
                self.children@.len() == n,
                st@ == root_children_m(m0, p0.children.take(k as int)),
                forall|i: int|
                    0 <= i < k ==> self.children@[i]@ == (HandleModel {
                        rooted: true,
                        ..p0.children[i]
                    }),
                forall|i: int| k <= i < n ==> self.children@[i]@ == p0.children[i],
                self.data@ == p0.data,
                (self.cell is Some <==> p0.cell is Some),
                self.cell is Some ==> self.cell->Some_0@ == p0.cell->Some_0,
                self.finalizer == p0.finalizer,
            decreases n - k,
        {
            let g = &mut self.children[k];
            g.root(st);
            k += 1;
            proof {
                assert(p0.children.take(k as int) =~= p0.children.take(k - 1 as int).push(
                    p0.children[k - 1],
                ));
                lemma_root_children_push(m0, p0.children.take(k - 1 as int), p0.children[k - 1]);
            }
        }
        proof {
            assert(p0.children.take(n as int) =~= p0.children);
        }
        match &mut self.cell {
            Some(c) => c.root(st),
            None => {},
        }
        proof {
            assert(st@ == root_targets_m(m0, p0));
            assert(self@.children =~= rooted_payload_m(p0).children);
            assert(self@ =~= rooted_payload_m(p0));
        }
    }

    fn unroot(&mut self, st: &mut GcState) {
        self.unroot_heap(st);
    }

    fn finalize_glue(&mut self) {
        Finalize::finalize(self);
        match &mut self.cell {
            Some(c) => {
                let state = c.flags.borrowed();
                if !(state == crate::BorrowState::Writing) {
                    c.finalize_glue();
                }
            },
            None => {},
        }
        proof {
            assert(self@ =~= old(self)@);
        }
    }
}

} // verus!
