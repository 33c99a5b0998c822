use gc::{Data, Gc, GcState, Payload};

fn foo(this: Gc, st: &mut GcState) {
    match st.data_at(this.index()) {
        Data::Unit => {},
        _ => panic!("expected the unit payload"),
    }
    this.drop_handle(st);
}

#[test]
fn gc_self_method() {
    let mut st = GcState::new();
    let g = Gc::new(&mut st, Payload::leaf(Data::Unit));
    foo(g, &mut st);
}
