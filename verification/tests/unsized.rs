use gc::{Data, Gc, GcState, Payload};

#[test]
fn gc_box_dyn_foo() {
    let mut st = GcState::new();
    let b: Box<Data> = Box::new(Data::Unit);
    let _ = Gc::new(&mut st, Payload::leaf(*b));
}

#[test]
fn gc_dyn_foo() {
    let mut st = GcState::new();
    let _ = Gc::new(&mut st, Payload::leaf(Data::Unit));
}

#[test]
fn gc_box_slice() {
    let mut st = GcState::new();
    let b: Box<[u8]> = Box::new([0, 1, 2]);
    let _ = Gc::new(&mut st, Payload::leaf(Data::Bytes(b.into_vec())));
}

#[test]
fn gc_slice() {
    let mut st = GcState::new();
    let _ = Gc::new(&mut st, Payload::leaf(Data::Bytes(vec![0, 1, 2])));
}

#[test]
fn gc_box_str() {
    let mut st = GcState::new();
    let b: Box<str> = Box::from("hello");
    let _ = Gc::new(&mut st, Payload::leaf(Data::Str(b.into_string())));
}
