use gc::{force_collect, Data, FinalizerKind, Gc, GcCell, GcState, Payload, WatchFlags};

fn cyclic(st: &mut GcState, prev: Option<Gc>, name: u8) -> Gc {
    Gc::new(
        st,
        Payload {
            data: Data::Byte(name),
            children: vec![],
            cell: Some(GcCell::new(Data::Unit, prev)),
            finalizer: FinalizerKind::Nothing,
            watch: WatchFlags::zero(),
        },
    )
}

#[test]
fn test_cycle() {
    let mut st = GcState::new();
    let mut indices = Vec::new();
    {
        let mut gcs = vec![cyclic(&mut st, None, 0)];
        for i in 1..4 {
            let prev = gcs[i - 1].clone(&mut st);
            gcs.push(cyclic(&mut st, Some(prev), i as u8));
        }
        let last = gcs[3].clone(&mut st);
        let w = st.cell_borrow_mut(&gcs[0]);
        st.cell_write_handle(&w, Some(last));
        st.cell_end_borrow_mut(w);

        while let Some(g) = gcs.pop() {
            indices.push(g.index());
            g.drop_handle(&mut st);
        }
    }

    let before: u64 = indices.iter().map(|&i| st.watch_at(i).finalize).sum();
    println!("Before collection: {:?}", before);
    force_collect(&mut st);
    let after: u64 = indices.iter().map(|&i| st.watch_at(i).finalize).sum();
    println!("After collection: {:?}", after);
    assert_eq!(after, 4);
}
