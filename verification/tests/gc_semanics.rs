use gc::{force_collect, Data, FinalizerKind, Gc, GcCell, GcState, Payload, WatchFlags};

fn watch_cycle_node(st: &mut GcState, prev: Option<Gc>) -> Gc {
    Gc::new(
        st,
        Payload {
            data: Data::Unit,
            children: vec![],
            cell: Some(GcCell::new(Data::Unit, prev)),
            finalizer: FinalizerKind::Nothing,
            watch: WatchFlags::zero(),
        },
    )
}

#[test]
fn gc_semanics_basic_allocate() {
    let mut st = GcState::new();
    let gced_val = Gc::new(&mut st, Payload::leaf(Data::Unit));
    let idx = gced_val.index();
    assert_eq!(st.watch_at(idx), WatchFlags::new(0, 0, 1, 0, 0));
    force_collect(&mut st);
    assert_eq!(st.watch_at(idx), WatchFlags::new(1, 0, 1, 0, 0));

    gced_val.drop_handle(&mut st);
    assert_eq!(st.watch_at(idx), WatchFlags::new(1, 0, 1, 0, 0));
    force_collect(&mut st);
    assert_eq!(st.watch_at(idx), WatchFlags::new(1, 0, 1, 1, 1));
}

#[test]
fn gc_semanics_basic_cycle_allocate() {
    let mut st = GcState::new();
    let node1 = watch_cycle_node(&mut st, None);
    let i1 = node1.index();
    assert_eq!(st.watch_at(i1), WatchFlags::new(0, 0, 1, 0, 0));
    let node1_again = node1.clone(&mut st);
    let node2 = watch_cycle_node(&mut st, Some(node1_again));
    let i2 = node2.index();

    assert_eq!(st.watch_at(i1), WatchFlags::new(0, 0, 1, 0, 0));
    assert_eq!(st.watch_at(i2), WatchFlags::new(0, 0, 1, 0, 0));

    force_collect(&mut st);

    assert_eq!(st.watch_at(i1), WatchFlags::new(1, 0, 1, 0, 0));
    assert_eq!(st.watch_at(i2), WatchFlags::new(1, 0, 1, 0, 0));

    {
        let w = st.cell_borrow_mut(&node1);
        st.cell_write_handle(&w, Some(node2));
        st.cell_end_borrow_mut(w);

        assert_eq!(st.watch_at(i1), WatchFlags::new(1, 0, 1, 0, 0));
        assert_eq!(st.watch_at(i2), WatchFlags::new(1, 0, 1, 0, 0));

        force_collect(&mut st);

        assert_eq!(st.watch_at(i1), WatchFlags::new(2, 0, 1, 0, 0));
        assert_eq!(st.watch_at(i2), WatchFlags::new(2, 0, 1, 0, 0));
    }

    force_collect(&mut st);

    assert_eq!(st.watch_at(i1), WatchFlags::new(3, 0, 1, 0, 0));
    assert_eq!(st.watch_at(i2), WatchFlags::new(3, 0, 1, 0, 0));

    node1.drop_handle(&mut st);
    force_collect(&mut st);

    assert_eq!(st.watch_at(i1), WatchFlags::new(3, 0, 1, 1, 1));
    assert_eq!(st.watch_at(i2), WatchFlags::new(3, 0, 1, 1, 1));
}

#[test]
fn gc_semanics_gccell_rooting() {
    let mut st = GcState::new();
    let mut cell = GcCell::new(Data::Unit, None);

    let b1 = cell.borrow();
    let b2 = cell.borrow();
    cell.end_borrow(b2);
    cell.end_borrow(b1);
    let bm = cell.borrow_mut();
    cell.end_borrow_mut(bm);
    assert_eq!(cell.watch(), WatchFlags::new(0, 0, 0, 0, 0));

    let gc_wrapper = Gc::new(
        &mut st,
        Payload {
            data: Data::Unit,
            children: vec![],
            cell: Some(cell),
            finalizer: FinalizerKind::Nothing,
            watch: WatchFlags::zero(),
        },
    );
    let idx = gc_wrapper.index();
    assert_eq!(st.cell_watch_at(idx), Some(WatchFlags::new(0, 0, 1, 0, 0)));

    force_collect(&mut st);
    assert_eq!(st.cell_watch_at(idx), Some(WatchFlags::new(1, 0, 1, 0, 0)));

    let r1 = st.cell_borrow(&gc_wrapper);
    force_collect(&mut st);
    assert_eq!(st.cell_watch_at(idx), Some(WatchFlags::new(2, 0, 1, 0, 0)));
    st.cell_end_borrow(&gc_wrapper, r1);

    let w = st.cell_borrow_mut(&gc_wrapper);
    assert_eq!(st.cell_watch_at(idx), Some(WatchFlags::new(2, 1, 1, 0, 0)));
    force_collect(&mut st);
    assert_eq!(st.cell_watch_at(idx), Some(WatchFlags::new(2, 1, 1, 0, 0)));
    st.cell_end_borrow_mut(w);
    assert_eq!(st.cell_watch_at(idx), Some(WatchFlags::new(2, 1, 2, 0, 0)));

    force_collect(&mut st);
    assert_eq!(st.cell_watch_at(idx), Some(WatchFlags::new(3, 1, 2, 0, 0)));

    gc_wrapper.drop_handle(&mut st);
    force_collect(&mut st);
    assert_eq!(st.cell_watch_at(idx), Some(WatchFlags::new(3, 1, 2, 1, 1)));
}
