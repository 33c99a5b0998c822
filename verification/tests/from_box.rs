use gc::{Data, Gc, GcState, Payload};

#[test]
fn test_from_box_sized() {
    let mut st = GcState::new();
    let b: Box<Data> = Box::new(Data::Bytes(vec![1, 2, 3]));
    let _ = Gc::new(&mut st, Payload::leaf(*b));
}

#[test]
fn test_from_box_dyn() {
    let mut st = GcState::new();
    let b: Box<Data> = Box::new(Data::Unit);
    let _ = Gc::new(&mut st, Payload::leaf(*b));
}
