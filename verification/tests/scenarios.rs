use gc::{configure, finalizer_safe, force_collect, stats, Data, FinalizerKind, Gc, GcCell,
    GcConfig, GcState, Payload, WatchFlags};

/// Allocate many small values, drop every handle, collect: everything is
/// reclaimed and the byte counter returns to zero.
#[test]
fn no_cycle_reclaim_s1() {
    let mut st = GcState::new();
    configure(
        &mut st,
        GcConfig { threshold: 1000000, used_space_percent: 70, leak_on_drop: false },
    );
    let mut handles = Vec::new();
    for _ in 0..200 {
        handles.push(Gc::new(&mut st, Payload::leaf(Data::Byte(1))));
    }
    assert!(stats(&st).bytes_allocated > 0);
    while let Some(g) = handles.pop() {
        g.drop_handle(&mut st);
    }
    force_collect(&mut st);
    let s = stats(&st);
    assert_eq!(s.bytes_allocated, 0);
    assert!(s.collections_performed >= 1);
}

/// A two-box cycle through cells is reclaimed once both external roots are
/// gone, and the byte counter returns to its pre-allocation value.
#[test]
fn cycle_through_cell_s2() {
    let mut st = GcState::new();
    configure(
        &mut st,
        GcConfig { threshold: 1000000, used_space_percent: 70, leak_on_drop: false },
    );
    let before = stats(&st).bytes_allocated;
    let a = Gc::new(
        &mut st,
        Payload {
            data: Data::Unit,
            children: vec![],
            cell: Some(GcCell::new(Data::Unit, None)),
            finalizer: FinalizerKind::Nothing,
            watch: WatchFlags::zero(),
        },
    );
    let b = Gc::new(
        &mut st,
        Payload {
            data: Data::Unit,
            children: vec![],
            cell: Some(GcCell::new(Data::Unit, None)),
            finalizer: FinalizerKind::Nothing,
            watch: WatchFlags::zero(),
        },
    );
    let (ia, ib) = (a.index(), b.index());
    let b_ref = b.clone(&mut st);
    let w = st.cell_borrow_mut(&a);
    st.cell_write_handle(&w, Some(b_ref));
    st.cell_end_borrow_mut(w);
    let a_ref = a.clone(&mut st);
    let w = st.cell_borrow_mut(&b);
    st.cell_write_handle(&w, Some(a_ref));
    st.cell_end_borrow_mut(w);

    a.drop_handle(&mut st);
    b.drop_handle(&mut st);
    force_collect(&mut st);

    assert!(!st.live_at(ia));
    assert!(!st.live_at(ib));
    assert_eq!(st.watch_at(ia).finalize, 1);
    assert_eq!(st.watch_at(ib).finalize, 1);
    assert_eq!(stats(&st).bytes_allocated, before);
}

/// Allocating then dropping the handle does not reclaim the box; the next
/// collection does.
#[test]
fn drop_without_collect_p3() {
    let mut st = GcState::new();
    let g = Gc::new(&mut st, Payload::leaf(Data::Unit));
    let idx = g.index();
    g.drop_handle(&mut st);
    assert!(st.live_at(idx));
    force_collect(&mut st);
    assert!(!st.live_at(idx));
}

/// While a writer guard is active on a cell, the boxes its contents refer to
/// are rooted independently and survive a collection.
#[test]
fn writer_guard_protects_p4() {
    let mut st = GcState::new();
    let inner = Gc::new(&mut st, Payload::leaf(Data::Int(7)));
    let ii = inner.index();
    let holder = Gc::new(
        &mut st,
        Payload {
            data: Data::Unit,
            children: vec![],
            cell: Some(GcCell::new(Data::Unit, Some(inner))),
            finalizer: FinalizerKind::Nothing,
            watch: WatchFlags::zero(),
        },
    );
    let w = st.cell_borrow_mut(&holder);
    assert_eq!(st.root_count(ii), 1);
    force_collect(&mut st);
    assert!(st.live_at(ii));
    match st.data_at(ii) {
        Data::Int(v) => assert_eq!(*v, 7),
        _ => panic!("expected the guarded integer"),
    }
    st.cell_end_borrow_mut(w);
    assert_eq!(st.root_count(ii), 0);
    holder.drop_handle(&mut st);
}

/// With `threshold = 100` and a ratio of seven tenths, an allocation past the
/// threshold collects and then widens the threshold to the survivors' bytes
/// divided by the ratio.
#[test]
fn threshold_adaptation_s5() {
    let mut st = GcState::new();
    assert_eq!(st.threshold(), 100);
    let mut handles = Vec::new();
    // A `Byte` leaf accounts for 17 bytes; six of them pass the threshold.
    for _ in 0..6 {
        handles.push(Gc::new(&mut st, Payload::leaf(Data::Byte(1))));
    }
    assert_eq!(stats(&st).bytes_allocated, 102);
    assert_eq!(st.threshold(), 100);
    // The next allocation collects; everything is rooted, so 102 bytes
    // survive, which is more than 70% of 100: the threshold becomes
    // 102 * 100 / 70.
    handles.push(Gc::new(&mut st, Payload::leaf(Data::Byte(1))));
    assert_eq!(st.threshold(), 145);
    assert_eq!(stats(&st).bytes_allocated, 119);
    assert_eq!(stats(&st).collections_performed, 1);
    while let Some(g) = handles.pop() {
        g.drop_handle(&mut st);
    }
}

/// Cloning a handle `n` times and dropping all clones leaves the counter at
/// its pre-clone value.
#[test]
fn root_counter_balance_p6() {
    let mut st = GcState::new();
    let g = Gc::new(&mut st, Payload::leaf(Data::Unit));
    let idx = g.index();
    assert_eq!(st.root_count(idx), 1);
    let mut clones = Vec::new();
    for _ in 0..5 {
        clones.push(g.clone(&mut st));
    }
    assert_eq!(st.root_count(idx), 6);
    while let Some(c) = clones.pop() {
        c.drop_handle(&mut st);
    }
    assert_eq!(st.root_count(idx), 1);
    g.drop_handle(&mut st);
}

/// `borrow_mut` on a heap-owned cell roots the contents; releasing the guard
/// releases the root.
#[test]
fn borrow_mut_roots_contents_p7() {
    let mut st = GcState::new();
    let inner = Gc::new(&mut st, Payload::leaf(Data::Unit));
    let ii = inner.index();
    let holder = Gc::new(
        &mut st,
        Payload {
            data: Data::Unit,
            children: vec![],
            cell: Some(GcCell::new(Data::Unit, Some(inner))),
            finalizer: FinalizerKind::Nothing,
            watch: WatchFlags::zero(),
        },
    );
    assert_eq!(st.root_count(ii), 0);
    let w = st.cell_borrow_mut(&holder);
    assert_eq!(st.root_count(ii), 1);
    st.cell_end_borrow_mut(w);
    assert_eq!(st.root_count(ii), 0);
    let _ = holder;
}

/// The try-variants report borrow collisions without touching the cell.
#[test]
fn borrow_collisions() {
    let mut cell = GcCell::new(Data::Pair(1, 'c'), None);
    let m = cell.borrow_mut();
    assert!(cell.try_borrow().is_err());
    cell.end_borrow_mut(m);

    let r = cell.borrow();
    assert!(cell.try_borrow_mut().is_err());
    let r2 = cell.try_borrow();
    assert!(r2.is_ok());
    cell.end_borrow(r2.unwrap());
    cell.end_borrow(r);
    let m2 = cell.try_borrow_mut();
    assert!(m2.is_ok());
    cell.end_borrow_mut(m2.unwrap());
}

/// Reader guards can be duplicated and split; the pair components read back.
#[test]
fn reader_guard_split() {
    let mut cell = GcCell::new(Data::Pair(1, 'c'), None);
    let borrow = cell.borrow();
    let (first, second) = gc::GcCellRef::map_split(borrow, &mut cell);
    match cell.get_data() {
        Data::Pair(a, b) => {
            assert_eq!(*a, 1);
            assert_eq!(*b, 'c');
        },
        _ => panic!("expected the pair"),
    }
    let third = gc::GcCellRef::clone(&first, &mut cell);
    cell.end_borrow(first);
    cell.end_borrow(second);
    let narrowed = gc::GcCellRef::map(third, gc::CellPart::PairFirst);
    cell.end_borrow(narrowed);
    assert!(cell.try_borrow_mut().is_ok());
}

/// Outside a sweep the heap reports that payload reads are safe.
#[test]
fn finalizer_safe_outside_sweep() {
    let mut st = GcState::new();
    assert!(finalizer_safe(&st));
    force_collect(&mut st);
    assert!(finalizer_safe(&st));
}

/// The teardown collects unless the heap is configured to leak.
#[test]
fn teardown_respects_leak_flag() {
    let mut st = GcState::new();
    let g = Gc::new(&mut st, Payload::leaf(Data::Unit));
    let idx = g.index();
    g.drop_handle(&mut st);
    st.teardown();
    assert!(!st.live_at(idx));

    let mut st2 = GcState::new();
    configure(
        &mut st2,
        GcConfig { threshold: 100, used_space_percent: 70, leak_on_drop: true },
    );
    let g2 = Gc::new(&mut st2, Payload::leaf(Data::Unit));
    let idx2 = g2.index();
    g2.drop_handle(&mut st2);
    st2.teardown();
    assert!(st2.live_at(idx2));
}
