use gc::{force_collect, Data, FinalizerKind, Gc, GcState, Payload, WatchFlags};

/// A handle tucked away inside another box may inhibit collection of cycles
/// through it, but it must not make a collection fail.
#[test]
fn ignore_trace_gc() {
    let mut st = GcState::new();
    let inner = Gc::new(&mut st, Payload::leaf(Data::Unit));
    let outer = Gc::new(
        &mut st,
        Payload {
            data: Data::Unit,
            children: vec![inner],
            cell: None,
            finalizer: FinalizerKind::Nothing,
            watch: WatchFlags::zero(),
        },
    );
    let _ = outer;
    force_collect(&mut st);
}
