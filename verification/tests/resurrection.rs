use gc::{force_collect, Data, FinalizerKind, Gc, GcCell, GcState, Payload, WatchFlags};

#[test]
fn resurrection_by_finalizer() {
    let mut st = GcState::new();
    gc::configure(
        &mut st,
        gc::GcConfig { threshold: 1000000, used_space_percent: 70, leak_on_drop: false },
    );

    let foo = Gc::new(
        &mut st,
        Payload {
            data: Data::Unit,
            children: vec![],
            cell: Some(GcCell::new(Data::Unit, None)),
            finalizer: FinalizerKind::Nothing,
            watch: WatchFlags::zero(),
        },
    );
    // `bar` holds `foo`, a string, and a cell pointing back at itself; its
    // finalizer stores its own cell contents into `foo`'s cell.
    let foo_ref = foo.clone(&mut st);
    let bar = Gc::new(
        &mut st,
        Payload {
            data: Data::Str(String::from("Hello, world!")),
            children: vec![foo_ref],
            cell: Some(GcCell::new(Data::Unit, None)),
            finalizer: FinalizerKind::StoreCellContent { escape: 0 },
            watch: WatchFlags::zero(),
        },
    );
    let bar_self = bar.clone(&mut st);
    let w = st.cell_borrow_mut(&bar);
    st.cell_write_handle(&w, Some(bar_self));
    st.cell_end_borrow_mut(w);

    bar.drop_handle(&mut st);
    force_collect(&mut st);

    let stored = st.cell_handle_index(&foo).expect("the finalizer resurrected its box");
    match st.data_at(stored) {
        Data::Str(s) => assert_eq!(s, "Hello, world!"),
        _ => panic!("expected the resurrected string"),
    }
}
