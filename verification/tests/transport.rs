use ws2811_spi::transport::Link;
use ws2811_spi::{Fault, Recorder, Transfer, Transport};

#[test]
fn new_recorder_is_empty() {
    let bus = Recorder::new();
    assert!(bus.transfers().is_empty());
    assert!(bus.sent_bytes().is_empty());
}

#[test]
fn recorder_keeps_every_call_in_order() {
    let mut bus = Recorder::new();
    assert_eq!(bus.send(0x11), Ok(()));
    assert_eq!(bus.read(), None);
    assert_eq!(bus.read(), None);
    assert_eq!(bus.send(0x22), Ok(()));
    assert_eq!(
        bus.transfers(),
        &vec![
            Transfer::Sent(0x11),
            Transfer::Received,
            Transfer::Received,
            Transfer::Sent(0x22),
        ]
    );
    assert_eq!(bus.sent_bytes(), vec![0x11, 0x22]);
}

#[test]
fn recorder_fails_the_send_it_was_told_to() {
    let mut bus = Recorder::failing_at(1);
    assert_eq!(bus.send(1), Ok(()));
    assert_eq!(bus.read(), None);
    assert_eq!(bus.send(2), Err(Fault));
    assert_eq!(bus.send(3), Ok(()));
    assert_eq!(
        bus.transfers(),
        &vec![
            Transfer::Sent(1),
            Transfer::Received,
            Transfer::Failed(2, Fault),
            Transfer::Sent(3),
        ]
    );
    assert_eq!(bus.sent_bytes(), vec![1, 2, 3]);
}

#[test]
fn recorder_fails_the_first_send_when_told_to() {
    let mut bus = Recorder::failing_at(0);
    assert_eq!(bus.send(9), Err(Fault));
    assert_eq!(bus.send(9), Ok(()));
}

#[test]
fn reads_do_not_count_as_sends() {
    let mut bus = Recorder::failing_at(1);
    assert_eq!(bus.read(), None);
    assert_eq!(bus.read(), None);
    assert_eq!(bus.send(1), Ok(()));
    assert_eq!(bus.send(2), Err(Fault));
}

#[test]
fn link_hands_calls_on_to_its_transport() {
    let mut link = Link::new(Recorder::failing_at(2));
    assert_eq!(link.send(0xaa), Ok(()));
    assert_eq!(link.read(), None);
    assert_eq!(link.send(0xbb), Ok(()));
    assert_eq!(link.send(0xcc), Err(Fault));
    let bus = link.into_inner();
    assert_eq!(
        bus.transfers(),
        &vec![
            Transfer::Sent(0xaa),
            Transfer::Received,
            Transfer::Sent(0xbb),
            Transfer::Failed(0xcc, Fault),
        ]
    );
}
