use gc::{Data, Gc, GcState, Payload};

#[test]
fn phantom_data() {
    let mut st = GcState::new();
    let _x = Gc::new(&mut st, Payload::leaf(Data::Unit));
}
