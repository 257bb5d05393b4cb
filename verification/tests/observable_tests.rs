use agoraui_compose::observable::Observable;
use agoraui_compose::observable::PollResult;

#[test]
fn test_observable_multi_consumer() {
    let mut ob = Observable::new(12);

    assert!(matches!(ob.poll(1), PollResult::Pending));
    assert!(matches!(ob.poll(2), PollResult::Pending));

    let woken = ob.set_value(2);
    assert_eq!(woken, vec![1, 2]);

    let a = match ob.poll(1) {
        PollResult::Ready(v) => v,
        PollResult::Pending => panic!("expected a value"),
    };
    let b = match ob.poll(2) {
        PollResult::Ready(v) => v,
        PollResult::Pending => panic!("expected a value"),
    };
    assert_eq!((a, b), (2, 2));
}

#[test]
fn test_observable_one_consumer() {
    let mut ob = Observable::new(12);
    let next = ob.next();

    assert!(matches!(ob.poll(next.id), PollResult::Pending));

    let woken = ob.set_value(3);
    assert_eq!(woken, vec![next.id]);

    match ob.poll(next.id) {
        PollResult::Ready(v) => assert_eq!(v, 3),
        PollResult::Pending => panic!("expected a value"),
    }
}

#[test]
fn test_observable_registers_each_consumer_once() {
    let mut ob = Observable::new(0);

    // polling twice before a set registers the token once, so the
    // consumer is woken once and counted once.
    assert!(matches!(ob.poll(7), PollResult::Pending));
    assert!(matches!(ob.poll(7), PollResult::Pending));
    assert!(matches!(ob.poll(9), PollResult::Pending));

    let woken = ob.set_value(1);
    assert_eq!(woken, vec![7, 9]);

    assert!(matches!(ob.poll(7), PollResult::Ready(1)));
    assert!(matches!(ob.poll(9), PollResult::Ready(1)));
    // both pending consumers collected the value; a further poll waits.
    assert!(matches!(ob.poll(7), PollResult::Pending));
}

#[test]
fn test_observable_registers_after_exhaustion() {
    let mut ob = Observable::new(0);

    assert!(matches!(ob.poll(7), PollResult::Pending));
    let woken = ob.set_value(5);
    assert_eq!(woken, vec![7]);

    // the woken consumer collects the value; a late consumer has to
    // register again.
    assert!(matches!(ob.poll(7), PollResult::Ready(5)));
    assert!(matches!(ob.poll(8), PollResult::Pending));
}
