use gc::{CellPart, Data, FinalizerKind, Gc, GcCell, GcCellRefMut, GcState, Payload, WatchFlags};

/// A writer guard re-parented to one pair component writes that component and
/// leaves the other alone, on a stack-held cell and on a heap-owned one.
#[test]
fn writer_guard_pair_projection() {
    // Stack-held cell.
    let mut cell = GcCell::new(Data::Pair(5, 'b'), None);
    let w = cell.borrow_mut();
    let w = GcCellRefMut::map(w, CellPart::PairFirst);
    cell.set_pair_first(&w, 42);
    cell.end_borrow_mut(w);
    match cell.get_data() {
        Data::Pair(a, b) => {
            assert_eq!(*a, 42);
            assert_eq!(*b, 'b');
        },
        _ => panic!("expected the pair"),
    }

    // Heap-owned cell.
    let mut st = GcState::new();
    let g = Gc::new(
        &mut st,
        Payload {
            data: Data::Unit,
            children: vec![],
            cell: Some(GcCell::new(Data::Pair(1, 'c'), None)),
            finalizer: FinalizerKind::Nothing,
            watch: WatchFlags::zero(),
        },
    );
    let w = st.cell_borrow_mut(&g);
    let w = GcCellRefMut::map(w, CellPart::PairSecond);
    st.cell_write_pair_second(&w, 'z');
    st.cell_end_borrow_mut(w);
    match st.cell_data(&g) {
        Data::Pair(a, b) => {
            assert_eq!(*a, 1);
            assert_eq!(*b, 'z');
        },
        _ => panic!("expected the pair"),
    }
}

#[test]
fn test_gc_cell_ref_mut_map() {
    let mut st = GcState::new();
    let one = Gc::new(&mut st, Payload::leaf(Data::Int(1)));
    let a = Gc::new(
        &mut st,
        Payload {
            data: Data::Unit,
            children: vec![],
            cell: Some(GcCell::new(Data::Int(0), Some(one))),
            finalizer: FinalizerKind::Nothing,
            watch: WatchFlags::zero(),
        },
    );
    let w = st.cell_borrow_mut(&a);
    let w = GcCellRefMut::map(w, CellPart::DataPart);
    st.cell_write_data(&w, Data::Int(2));
    st.cell_end_borrow_mut(w);
    match st.cell_data(&a) {
        Data::Int(v) => assert_eq!(*v, 2),
        _ => panic!("expected the written integer"),
    }
}
