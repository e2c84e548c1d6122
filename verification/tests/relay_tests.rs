use osc_repeater::codec::OscMessage;
use osc_repeater::config::Config;
use osc_repeater::relay::Distributor;
use osc_repeater::relay::InboundListener;
use osc_repeater::relay::OscRepeater;
use osc_repeater::relay::RecvEvent;
use osc_repeater::relay::SenderAction;
use std::sync::Arc;
use tokio::sync::broadcast::error::TryRecvError;

fn two_targets() -> Vec<String> {
    vec!["127.0.0.1:9001".to_string(), "127.0.0.1:9002".to_string()]
}

#[test]
fn distributor_builds_one_sender_per_target() {
    let targets = two_targets();
    let dist = Distributor::new(&targets);
    assert_eq!(dist.senders.len(), 2);
    assert_eq!(dist.senders[0].target, targets[0]);
    assert_eq!(dist.senders[1].target, targets[1]);
}

#[test]
fn repeater_wires_distributor_to_config() {
    let config = Config {
        listen_ports: vec![8000],
        targets: two_targets(),
    };
    let repeater = OscRepeater::new(config);
    assert_eq!(repeater.distributor.senders.len(), 2);
    assert_eq!(repeater.distributor.senders[0].target, "127.0.0.1:9001");
}

#[test]
fn fan_out_reaches_every_subscriber() {
    let dist = Distributor::new(&two_targets());
    let mut subs = [dist.subscribe(), dist.subscribe(), dist.subscribe()];
    let payload = vec![1u8, 2, 3, 4];
    dist.send(payload.clone());
    for rx in subs.iter_mut() {
        assert_eq!(rx.try_recv().expect("every subscriber receives"), payload);
        assert!(matches!(rx.try_recv(), Err(TryRecvError::Empty)));
    }
}

#[test]
fn publish_without_subscribers_is_silently_dropped() {
    let dist = Distributor::new(&two_targets());
    dist.send(vec![9u8, 9, 9]);
    let mut rx = dist.subscribe();
    assert!(matches!(rx.try_recv(), Err(TryRecvError::Empty)));
}

#[test]
fn subscriber_sees_only_later_payloads_in_order() {
    let dist = Distributor::new(&two_targets());
    dist.send(vec![0u8]);
    let mut rx = dist.subscribe();
    dist.send(vec![1u8]);
    dist.send(vec![2u8]);
    assert_eq!(rx.try_recv().unwrap(), vec![1u8]);
    assert_eq!(rx.try_recv().unwrap(), vec![2u8]);
    assert!(matches!(rx.try_recv(), Err(TryRecvError::Empty)));
}

fn payload_of(i: u32) -> Vec<u8> {
    i.to_be_bytes().to_vec()
}

#[test]
fn lag_is_isolated_to_the_slow_subscriber() {
    let total: u32 = 1100;
    let dist = Distributor::new(&two_targets());
    let mut slow = dist.subscribe();
    let mut fast = dist.subscribe();
    for i in 0..total {
        dist.send(payload_of(i));
        // the prompt subscriber drains every payload without loss
        assert_eq!(fast.try_recv().expect("fast subscriber keeps up"), payload_of(i));
    }
    // the slow subscriber observes a lag signal first ...
    let first = slow.try_recv();
    let skipped = match first {
        Err(TryRecvError::Lagged(n)) => n,
        other => panic!("expected a lag signal, got {:?}", other),
    };
    assert!(skipped > 0);
    // ... then resumes with the oldest retained payload, in order
    let mut next = skipped as u32;
    loop {
        match slow.try_recv() {
            Ok(p) => {
                assert_eq!(p, payload_of(next));
                next += 1;
            }
            Err(TryRecvError::Empty) => break,
            other => panic!("unexpected outcome {:?}", other),
        }
    }
    assert_eq!(next, total);
}

#[test]
fn listener_publishes_valid_datagrams_raw() {
    let dist = Arc::new(Distributor::new(&two_targets()));
    let listener = InboundListener::new(8000, dist.clone());
    let mut rx = dist.subscribe();
    // a valid frame with a trailing byte still decodes; the raw bytes are
    // forwarded untouched, not a re-encoded form
    let mut frame = OscMessage::new(b"/t".to_vec()).push_int(5).serialize();
    frame.push(0xAB);
    assert!(listener.handle_datagram(&frame));
    assert_eq!(rx.try_recv().unwrap(), frame);
}

#[test]
fn listener_drops_malformed_datagrams() {
    let dist = Arc::new(Distributor::new(&two_targets()));
    let listener = InboundListener::new(8000, dist.clone());
    let mut rx = dist.subscribe();
    assert!(!listener.handle_datagram(b"/ab\0,x\0\0"));
    assert!(!listener.handle_datagram(&[]));
    assert!(matches!(rx.try_recv(), Err(TryRecvError::Empty)));
}

#[test]
fn sender_forwards_every_payload() {
    let payload = vec![7u8, 8, 9];
    match osc_repeater::relay::sender_step(RecvEvent::Payload(payload.clone())) {
        SenderAction::Transmit(p) => assert_eq!(p, payload),
        other => panic!("expected a transmit action, got {:?}", other),
    }
}

#[test]
fn sender_skips_on_lag_and_stops_on_close() {
    assert!(matches!(
        osc_repeater::relay::sender_step(RecvEvent::Lagged(42)),
        SenderAction::Skip
    ));
    assert!(matches!(
        osc_repeater::relay::sender_step(RecvEvent::Closed),
        SenderAction::Stop
    ));
}
