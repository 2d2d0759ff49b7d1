use spsc_stream::spsc::{CacheAligned, NormalNodeCache, Queue as SpscQueue};
use spsc_stream::stream2::{Failure, Message, Packet, SignalToken, UpgradeResult};

type Transport = SpscQueue<Message<i32>, CacheAligned, NormalNodeCache>;
type Channel = Packet<Transport, i32>;

#[test]
fn send_then_try_recv() {
    let mut p: Channel = Packet::new();
    let (res, wake) = p.send(5);
    assert!(res.is_ok());
    assert!(wake.is_none());
    match p.try_recv() {
        Ok(v) => assert_eq!(v, 5),
        Err(_) => unreachable!(),
    }
}

#[test]
fn try_recv_on_empty_is_empty() {
    let mut p: Channel = Packet::new();
    assert!(matches!(p.try_recv(), Err(Failure::Empty)));
    // still empty, still connected: same answer again
    assert!(matches!(p.try_recv(), Err(Failure::Empty)));
}

#[test]
fn disconnect_on_empty_is_disconnected() {
    let mut p: Channel = Packet::new();
    let wake = p.drop_chan();
    assert!(wake.is_none());
    assert!(matches!(p.try_recv(), Err(Failure::Disconnected)));
    assert!(matches!(p.try_recv(), Err(Failure::Disconnected)));
}

#[test]
fn disconnect_delivers_backlog_first() {
    let mut p: Channel = Packet::new();
    for i in 0..3 {
        let (res, _) = p.send(i);
        assert!(res.is_ok());
    }
    let wake = p.drop_chan();
    assert!(wake.is_none());
    for i in 0..3 {
        match p.try_recv() {
            Ok(v) => assert_eq!(v, i),
            Err(_) => unreachable!(),
        }
    }
    assert!(matches!(p.try_recv(), Err(Failure::Disconnected)));
}

#[test]
fn send_after_port_drop_returns_value() {
    let mut p: Channel = Packet::new();
    p.drop_port();
    let (res, wake) = p.send(9);
    assert_eq!(res, Err(9));
    assert!(wake.is_none());
}

#[test]
fn drop_port_drains_queue() {
    let mut p: Channel = Packet::new();
    for i in 0..4 {
        let (res, _) = p.send(i);
        assert!(res.is_ok());
    }
    p.drop_port();
    assert!(matches!(p.try_recv(), Err(Failure::Disconnected)));
}

#[test]
fn upgrade_hands_off_exactly_once() {
    let mut p: Channel = Packet::new();
    let (res, _) = p.send(1);
    assert!(res.is_ok());

    let (shared_tx, shared_rx) = std::sync::mpsc::channel();
    match p.upgrade(shared_rx) {
        UpgradeResult::UpSuccess => {}
        _ => unreachable!(),
    }

    // data sent before the upgrade arrives first
    match p.try_recv() {
        Ok(v) => assert_eq!(v, 1),
        Err(_) => unreachable!(),
    }
    // then the promotion, carrying a working shared receiver
    match p.try_recv() {
        Err(Failure::Upgraded(rx)) => {
            shared_tx.send(7).unwrap();
            assert_eq!(rx.recv().unwrap(), 7);
        }
        _ => unreachable!(),
    }
    // the original transport delivers nothing after the hand-off
    assert!(matches!(p.try_recv(), Err(Failure::Empty)));
}

#[test]
fn upgrade_after_port_drop_is_disconnected() {
    let mut p: Channel = Packet::new();
    p.drop_port();
    let (_shared_tx, shared_rx) = std::sync::mpsc::channel();
    assert!(matches!(p.upgrade(shared_rx), UpgradeResult::UpDisconnected));
}

#[test]
fn decrement_registers_waiter_and_send_wakes() {
    let mut p: Channel = Packet::new();
    assert!(!p.waiter_present());
    let token = SignalToken::cast_from_usize(41);
    match p.decrement(token) {
        Ok(None) => {}
        _ => unreachable!(),
    }
    assert!(p.waiter_present());

    // the sender takes the registered token and must fire it
    let (res, wake) = p.send(8);
    assert!(res.is_ok());
    let woke = wake.expect("a parked waiter's token");
    assert_eq!(woke.cast_to_usize(), 41);
    assert!(!p.waiter_present());
    match p.try_recv() {
        Ok(v) => assert_eq!(v, 8),
        Err(_) => unreachable!(),
    }
}

#[test]
fn decrement_with_data_does_not_park() {
    let mut p: Channel = Packet::new();
    let (res, _) = p.send(3);
    assert!(res.is_ok());
    let token = SignalToken::cast_from_usize(17);
    match p.decrement(token) {
        Ok(Some(v)) => assert_eq!(v, 3),
        _ => unreachable!(),
    }
    assert!(!p.waiter_present());
}

#[test]
fn decrement_after_disconnect_returns_token() {
    let mut p: Channel = Packet::new();
    let wake = p.drop_chan();
    assert!(wake.is_none());
    let token = SignalToken::cast_from_usize(23);
    match p.decrement(token) {
        Err(t) => assert_eq!(t.cast_to_usize(), 23),
        Ok(_) => unreachable!(),
    }
    assert!(!p.waiter_present());
}

#[test]
fn drop_chan_takes_parked_token() {
    let mut p: Channel = Packet::new();
    let token = SignalToken::cast_from_usize(99);
    assert!(matches!(p.decrement(token), Ok(None)));
    let wake = p.drop_chan();
    let woke = wake.expect("the parked waiter's token");
    assert_eq!(woke.cast_to_usize(), 99);
    // the teardown check: nothing left registered
    p.drop();
}

#[test]
fn take_to_wake_consumes_registration() {
    let mut p: Channel = Packet::new();
    let token = SignalToken::cast_from_usize(5);
    assert!(matches!(p.decrement(token), Ok(None)));
    let taken = p.take_to_wake();
    assert_eq!(taken.cast_to_usize(), 5);
    assert!(!p.waiter_present());
}

#[test]
fn upgrade_wakes_parked_consumer() {
    let mut p: Channel = Packet::new();
    let token = SignalToken::cast_from_usize(12);
    assert!(matches!(p.decrement(token), Ok(None)));
    let (_shared_tx, shared_rx) = std::sync::mpsc::channel();
    match p.upgrade(shared_rx) {
        UpgradeResult::UpWoke(tok) => assert_eq!(tok.cast_to_usize(), 12),
        _ => unreachable!(),
    }
    assert!(matches!(p.try_recv(), Err(Failure::Upgraded(_))));
}
