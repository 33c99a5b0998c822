use gc::{Data, FinalizerKind, Gc, GcState, Payload, WatchFlags};

#[test]
fn test_into_raw() {
    let mut st = GcState::new();
    let x = Gc::new(&mut st, Payload::leaf(Data::Int(22)));
    let x_ptr = Gc::into_raw(x);
    let x = Gc::from_raw(x_ptr, &st);
    let y = Gc::new(
        &mut st,
        Payload {
            data: Data::Unit,
            children: vec![x],
            cell: None,
            finalizer: FinalizerKind::Nothing,
            watch: WatchFlags::zero(),
        },
    );
    let inner = st.gc_box(&y).value().children[0].index();
    match st.data_at(inner) {
        Data::Int(v) => assert_eq!(*v, 22),
        _ => panic!("expected the boxed integer"),
    }
}
