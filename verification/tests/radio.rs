//! Sharing one dongle.
use std::collections::VecDeque;

use flexinput_btle::radio::{stale_handles, take_matching, Bus, Inbound, Subscriber, QUEUE_LIMIT};
use flexinput_btle::transport::Inbox;
use flexinput_btle::{AclPacket, Event};

fn take(bus: &mut Bus, id: usize) -> Option<Inbound> {
    let i = bus.find(id);
    if i < bus.subs.len() {
        bus.subs[i].queue.pop_front()
    } else {
        None
    }
}

#[test]
fn every_subscriber_receives_every_packet() {
    let mut bus = Bus::new();
    let a = bus.add();
    let b = bus.add();
    bus.broadcast(Inbound::Event(Event::InquiryComplete { status: 0 }));
    assert!(take(&mut bus, a).is_some(), "first subscriber missed it");
    assert!(take(&mut bus, b).is_some(), "second subscriber missed it — one reader ate it");
}

#[test]
fn a_subscriber_that_falls_behind_drops_rather_than_blocks() {
    let mut bus = Bus::new();
    let slow = bus.add();
    for _ in 0..(QUEUE_LIMIT + 50) {
        bus.broadcast(Inbound::Event(Event::InquiryComplete { status: 0 }));
    }
    assert_eq!(bus.dropped(slow), Some(50), "queue did not bound itself");
    assert_eq!(bus.waiting(slow), QUEUE_LIMIT);
}

fn acl(n: u8) -> Inbound {
    Inbound::Acl(AclPacket { conn_handle: 1, cid: 0x0041, payload: vec![n] })
}

#[test]
fn asking_for_an_event_keeps_the_input_behind_it() {
    let mut stash: VecDeque<Inbound> = VecDeque::new();
    let mut queue: VecDeque<Inbound> = VecDeque::new();
    queue.push_back(acl(1));
    queue.push_back(acl(2));
    queue.push_back(Inbound::Event(Event::InquiryComplete { status: 0 }));
    queue.push_back(acl(3));

    let got = take_matching(&mut stash, &mut queue, true);
    assert!(matches!(got, Some(Inbound::Event(_))), "did not find the event");

    let mut back = Vec::new();
    while let Some(x) = take_matching(&mut stash, &mut queue, false) {
        match x {
            Inbound::Acl(p) => back.push(p.payload[0]),
            Inbound::Event(_) => unreachable!(),
        }
    }
    assert_eq!(back, vec![1, 2, 3], "input was lost or reordered: {back:?}");
}

#[test]
fn removing_a_subscriber_stops_its_traffic() {
    let mut bus = Bus::new();
    let a = bus.add();
    assert_eq!(bus.subs.len(), 1);
    bus.remove(a);
    assert_eq!(bus.subs.len(), 0);
    bus.broadcast(Inbound::Event(Event::InquiryComplete { status: 0 }));
    assert!(take(&mut bus, a).is_none(), "a removed subscriber still received traffic");
}

#[test]
fn the_newest_items_are_kept() {
    let mut bus = Bus::new();
    let id = bus.add();
    for i in 0..(QUEUE_LIMIT + 3) {
        bus.broadcast(Inbound::Acl(AclPacket {
            conn_handle: i as u16,
            cid: 1,
            payload: vec![],
        }));
    }
    match take(&mut bus, id) {
        Some(Inbound::Acl(p)) => assert_eq!(p.conn_handle, 3),
        other => panic!("{other:?}"),
    }
}

#[test]
fn names_are_not_given_twice() {
    let mut bus = Bus::new();
    let a = bus.add();
    bus.remove(a);
    let b = bus.add();
    assert_ne!(a, b);
}

#[test]
fn what_was_put_back_comes_first() {
    let mut bus = Bus::new();
    let mut s = Subscriber::subscribe(&mut bus);
    bus.broadcast(acl(1));
    bus.broadcast(Inbound::Event(Event::InquiryComplete { status: 7 }));
    bus.broadcast(acl(2));
    assert_eq!(s.recv_event(&mut bus), Some(Event::InquiryComplete { status: 7 }));
    match s.recv(&mut bus) {
        Some(Inbound::Acl(p)) => assert_eq!(p.payload, vec![1]),
        other => panic!("{other:?}"),
    }
    assert_eq!(s.recv_acl(&mut bus).expect("second packet").payload, vec![2]);
    assert!(s.recv(&mut bus).is_none());
}

#[test]
fn reclaiming_hands_everything_back_in_order() {
    let mut bus = Bus::new();
    let mut s = Subscriber::subscribe(&mut bus);
    let mut inbox = Inbox::new();
    inbox.push_events_front(vec![Event::InquiryComplete { status: 9 }]);
    bus.broadcast(acl(1));
    bus.broadcast(Inbound::Event(Event::InquiryComplete { status: 1 }));
    bus.broadcast(acl(2));
    assert!(s.recv_event(&mut bus).is_some());
    bus.broadcast(Inbound::Event(Event::InquiryComplete { status: 2 }));
    s.reclaim(&mut bus, &mut inbox);
    assert_eq!(inbox.next_event(), Some(Event::InquiryComplete { status: 2 }));
    assert_eq!(inbox.next_event(), Some(Event::InquiryComplete { status: 9 }));
    assert_eq!(inbox.next_event(), None);
    assert_eq!(inbox.next_packet().expect("first").payload, vec![1]);
    assert_eq!(inbox.next_packet().expect("second").payload, vec![2]);
    assert!(s.recv(&mut bus).is_none());
}

#[test]
fn stale_handles_are_the_lowest_eight() {
    assert_eq!(stale_handles(), vec![1, 2, 3, 4, 5, 6, 7, 8]);
}
