use gc::{Data, Gc, GcState, Payload};

#[test]
fn i128() {
    let mut st = GcState::new();
    Gc::new(&mut st, Payload::leaf(Data::Int(0i128)));
}

#[test]
fn u128() {
    let mut st = GcState::new();
    Gc::new(&mut st, Payload::leaf(Data::UInt(0u128)));
}
