use gc::{force_collect, Data, FinalizerKind, Gc, GcCell, GcState, Payload, Trace, WatchFlags};

#[test]
fn drop_triggers_finalize() {
    // A value that never enters the heap still runs finalization for itself
    // and for the subvalue its cell holds.
    let mut x = Payload {
        data: Data::Unit,
        children: vec![],
        cell: Some(GcCell::new(Data::Unit, None)),
        finalizer: FinalizerKind::Nothing,
        watch: WatchFlags::zero(),
    };
    assert_eq!(x.watch.finalize, 0);
    x.finalize_glue();
    assert_eq!(x.watch.finalize, 1);
    assert_eq!(x.cell.as_ref().unwrap().watch().finalize, 1);
}

#[test]
fn finalizer_can_ressurect() {
    let mut st = GcState::new();
    gc::configure(
        &mut st,
        gc::GcConfig { threshold: 1000000, used_space_percent: 70, leak_on_drop: false },
    );

    // An externally held escape location.
    let escape = Gc::new(
        &mut st,
        Payload {
            data: Data::Unit,
            children: vec![],
            cell: Some(GcCell::new(Data::Unit, None)),
            finalizer: FinalizerKind::Nothing,
            watch: WatchFlags::zero(),
        },
    );
    // The box whose finalizer stores its value child into the escape cell.
    let hello = Gc::new(&mut st, Payload::leaf(Data::Str(String::from("Hello world"))));
    let escape_ref = escape.clone(&mut st);
    let value = Gc::new(
        &mut st,
        Payload {
            data: Data::Unit,
            children: vec![escape_ref, hello],
            cell: None,
            finalizer: FinalizerKind::StoreChild { escape: 0, value: 1 },
            watch: WatchFlags::zero(),
        },
    );
    value.drop_handle(&mut st);

    force_collect(&mut st);

    let stored = st.cell_handle_index(&escape).expect("the finalizer stored a handle");
    match st.data_at(stored) {
        Data::Str(s) => assert_eq!(s, "Hello world"),
        _ => panic!("expected the resurrected string"),
    }
}
