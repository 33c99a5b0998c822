use gc::{Data, GcState, Payload, Trace};

#[test]
fn test() {
    let mut st = GcState::new();

    let mut inner_box_slice = Payload::leaf(Data::Bytes(vec![1, 2, 3]));
    inner_box_slice.trace(&mut st);
    let mut inner_box_str = Payload::leaf(Data::Str("abc".into()));
    inner_box_str.trace(&mut st);
    let mut inner_rc_str = Payload::leaf(Data::Str("abc".into()));
    inner_rc_str.trace(&mut st);

    let mut bar = Payload::leaf(Data::Unit);
    bar.trace(&mut st);
    assert!(bar.watch.trace == 1);
    bar.trace(&mut st);
    bar.trace(&mut st);
    assert!(bar.watch.trace == 3);
}
