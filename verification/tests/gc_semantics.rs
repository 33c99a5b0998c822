use gc::{configure, force_collect, stats, Data, FinalizerKind, Gc, GcCell, GcConfig, GcState,
    Payload, WatchFlags};

fn watch_cycle_node(st: &mut GcState, prev: Option<Gc>) -> Gc {
    Gc::new(
        st,
        Payload {
            data: Data::Unit,
            children: vec![],
            cell: Some(GcCell::new(Data::Unit, prev)),
            finalizer: FinalizerKind::Nothing,
            watch: WatchFlags::zero(),
        },
    )
}

#[test]
fn gc_semantics_basic_allocate() {
    let mut st = GcState::new();
    let gced_val = Gc::new(&mut st, Payload::leaf(Data::Unit));
    let idx = gced_val.index();
    assert_eq!(st.watch_at(idx), WatchFlags::new(0, 0, 1, 0, 0));
    force_collect(&mut st);
    assert_eq!(st.watch_at(idx), WatchFlags::new(1, 0, 1, 0, 0));

    gced_val.drop_handle(&mut st);
    assert_eq!(st.watch_at(idx), WatchFlags::new(1, 0, 1, 0, 0));
    force_collect(&mut st);
    assert_eq!(st.watch_at(idx), WatchFlags::new(1, 0, 1, 1, 1));
}

#[test]
fn gc_semantics_basic_cycle_allocate() {
    let mut st = GcState::new();
    // Set up 2 nodes
    let node1 = watch_cycle_node(&mut st, None);
    let i1 = node1.index();
    assert_eq!(st.watch_at(i1), WatchFlags::new(0, 0, 1, 0, 0));
    let node1_again = node1.clone(&mut st);
    let node2 = watch_cycle_node(&mut st, Some(node1_again));
    let i2 = node2.index();

    assert_eq!(st.watch_at(i1), WatchFlags::new(0, 0, 1, 0, 0));
    assert_eq!(st.watch_at(i2), WatchFlags::new(0, 0, 1, 0, 0));

    force_collect(&mut st);

    assert_eq!(st.watch_at(i1), WatchFlags::new(1, 0, 1, 0, 0));
    assert_eq!(st.watch_at(i2), WatchFlags::new(1, 0, 1, 0, 0));

    // Move node2 into the cycle cell of node1
    {
        let w = st.cell_borrow_mut(&node1);
        st.cell_write_handle(&w, Some(node2));
        st.cell_end_borrow_mut(w);

        assert_eq!(st.watch_at(i1), WatchFlags::new(1, 0, 1, 0, 0));
        assert_eq!(st.watch_at(i2), WatchFlags::new(1, 0, 1, 0, 0));

        force_collect(&mut st);

        assert_eq!(st.watch_at(i1), WatchFlags::new(2, 0, 1, 0, 0));
        assert_eq!(st.watch_at(i2), WatchFlags::new(2, 0, 1, 0, 0));
    }

    assert_eq!(st.watch_at(i1), WatchFlags::new(2, 0, 1, 0, 0));
    assert_eq!(st.watch_at(i2), WatchFlags::new(2, 0, 1, 0, 0));

    force_collect(&mut st);

    assert_eq!(st.watch_at(i1), WatchFlags::new(3, 0, 1, 0, 0));
    assert_eq!(st.watch_at(i2), WatchFlags::new(3, 0, 1, 0, 0));

    node1.drop_handle(&mut st);

    assert_eq!(st.watch_at(i1), WatchFlags::new(3, 0, 1, 0, 0));
    assert_eq!(st.watch_at(i2), WatchFlags::new(3, 0, 1, 0, 0));

    force_collect(&mut st);

    assert_eq!(st.watch_at(i1), WatchFlags::new(3, 0, 1, 1, 1));
    assert_eq!(st.watch_at(i2), WatchFlags::new(3, 0, 1, 1, 1));
}

#[test]
fn gc_semantics_gccell_rooting() {
    let mut st = GcState::new();
    let mut cell = GcCell::new(Data::Unit, None);

    assert_eq!(cell.watch(), WatchFlags::new(0, 0, 0, 0, 0));

    {
        // Borrow it
        let borrowed = cell.borrow();
        assert_eq!(cell.watch(), WatchFlags::new(0, 0, 0, 0, 0));

        // Shared borrows can happen multiple times in one scope
        let borrowed2 = cell.borrow();
        assert_eq!(cell.watch(), WatchFlags::new(0, 0, 0, 0, 0));
        cell.end_borrow(borrowed2);
        cell.end_borrow(borrowed);
    }

    {
        // Borrow it mutably now; the cell is rooted, so nothing moves
        let borrowed = cell.borrow_mut();
        assert_eq!(cell.watch(), WatchFlags::new(0, 0, 0, 0, 0));
        cell.end_borrow_mut(borrowed);
    }

    // Put it in a gc (should unroot the contents)
    let gc_wrapper = Gc::new(
        &mut st,
        Payload {
            data: Data::Unit,
            children: vec![],
            cell: Some(cell),
            finalizer: FinalizerKind::Nothing,
            watch: WatchFlags::zero(),
        },
    );
    let idx = gc_wrapper.index();
    assert_eq!(st.cell_watch_at(idx), Some(WatchFlags::new(0, 0, 1, 0, 0)));

    // It should be traced by the collector
    force_collect(&mut st);
    assert_eq!(st.cell_watch_at(idx), Some(WatchFlags::new(1, 0, 1, 0, 0)));

    {
        // Borrow it
        let borrowed = st.cell_borrow(&gc_wrapper);
        assert_eq!(st.cell_watch_at(idx), Some(WatchFlags::new(1, 0, 1, 0, 0)));

        // Shared borrows can happen multiple times in one scope
        let borrowed2 = st.cell_borrow(&gc_wrapper);
        assert_eq!(st.cell_watch_at(idx), Some(WatchFlags::new(1, 0, 1, 0, 0)));

        // It should be traced by the collector
        force_collect(&mut st);
        assert_eq!(st.cell_watch_at(idx), Some(WatchFlags::new(2, 0, 1, 0, 0)));

        st.cell_end_borrow(&gc_wrapper, borrowed2);
        st.cell_end_borrow(&gc_wrapper, borrowed);
    }

    assert_eq!(st.cell_watch_at(idx), Some(WatchFlags::new(2, 0, 1, 0, 0)));

    {
        // Borrow it mutably now - this should root the contents
        let borrowed = st.cell_borrow_mut(&gc_wrapper);
        assert_eq!(st.cell_watch_at(idx), Some(WatchFlags::new(2, 1, 1, 0, 0)));

        // The contents are hidden from tracing while a writer is active
        force_collect(&mut st);
        assert_eq!(st.cell_watch_at(idx), Some(WatchFlags::new(2, 1, 1, 0, 0)));

        // Releasing the writer should unroot the contents again
        st.cell_end_borrow_mut(borrowed);
    }

    assert_eq!(st.cell_watch_at(idx), Some(WatchFlags::new(2, 1, 2, 0, 0)));

    // It should be traced by the collector
    force_collect(&mut st);
    assert_eq!(st.cell_watch_at(idx), Some(WatchFlags::new(3, 1, 2, 0, 0)));

    // It should be collected by the collector
    gc_wrapper.drop_handle(&mut st);
    force_collect(&mut st);
    assert_eq!(st.cell_watch_at(idx), Some(WatchFlags::new(3, 1, 2, 1, 1)));
}

#[test]
fn trait_gc() {
    fn use_trait_gc(st: &mut GcState, x: Gc) {
        match st.data_at(x.index()) {
            Data::Int(v) => assert_eq!(*v, 10),
            _ => panic!("expected an integer payload"),
        }
        x.drop_handle(st);
    }

    let mut st = GcState::new();
    let gc_bar = Gc::new(&mut st, Payload::leaf(Data::Int(10)));
    let gc_foo = gc_bar.clone(&mut st);

    use_trait_gc(&mut st, gc_foo);
    use_trait_gc(&mut st, gc_bar);
}

#[test]
fn ptr_eq() {
    let mut st = GcState::new();
    configure(
        &mut st,
        GcConfig { threshold: 1000000, used_space_percent: 70, leak_on_drop: false },
    );

    let a = Gc::new(&mut st, Payload::leaf(Data::Unit));
    let aa = a.clone(&mut st);
    assert!(Gc::ptr_eq(&a, &aa));
    let b = Gc::new(
        &mut st,
        Payload {
            data: Data::Unit,
            children: vec![aa],
            cell: None,
            finalizer: FinalizerKind::Nothing,
            watch: WatchFlags::zero(),
        },
    );
    assert!(Gc::ptr_eq(&a, &st.gc_box(&b).value().children[0]));
    let a_again = a.clone(&mut st);
    let bb = Gc::new(
        &mut st,
        Payload {
            data: Data::Unit,
            children: vec![a_again],
            cell: None,
            finalizer: FinalizerKind::Nothing,
            watch: WatchFlags::zero(),
        },
    );
    assert!(Gc::ptr_eq(&st.gc_box(&b).value().children[0], &st.gc_box(&bb).value().children[0]));

    let a2 = Gc::new(&mut st, Payload::leaf(Data::Unit));
    assert!(!Gc::ptr_eq(&a, &a2));
    let a2_again = a2.clone(&mut st);
    let b2 = Gc::new(
        &mut st,
        Payload {
            data: Data::Unit,
            children: vec![a2_again],
            cell: None,
            finalizer: FinalizerKind::Nothing,
            watch: WatchFlags::zero(),
        },
    );
    assert!(Gc::ptr_eq(&a2, &st.gc_box(&b2).value().children[0]));
    assert!(!Gc::ptr_eq(&a, &st.gc_box(&b2).value().children[0]));
    assert!(!Gc::ptr_eq(&st.gc_box(&b).value().children[0], &st.gc_box(&b2).value().children[0]));
    assert!(!Gc::ptr_eq(&st.gc_box(&b).value().children[0], &a2));

    let _ = stats(&st);
}
