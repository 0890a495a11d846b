//! What arrives in one transfer.
use flexinput_btle::acl::encode_acl;
use flexinput_btle::transport::{split_events, to_queue, Inbox};
use flexinput_btle::{AclPacket, Event};

const RESET_DONE: [u8; 6] = [0x0E, 0x04, 0x01, 0x03, 0x0C, 0x00];
const INQUIRY_DONE: [u8; 3] = [0x01, 0x01, 0x00];

#[test]
fn a_transfer_may_hold_several_events() {
    let mut buf = RESET_DONE.to_vec();
    buf.extend_from_slice(&INQUIRY_DONE);
    let got = split_events(&buf);
    assert_eq!(got.len(), 2);
    assert!(matches!(got[0], Event::CommandComplete(_)));
    assert_eq!(got[1], Event::InquiryComplete { status: 0 });
}

#[test]
fn what_is_cut_off_is_dropped() {
    let mut buf = INQUIRY_DONE.to_vec();
    buf.extend_from_slice(&RESET_DONE[..4]);
    assert_eq!(split_events(&buf), vec![Event::InquiryComplete { status: 0 }]);
    assert!(split_events(&[]).is_empty());
    assert!(split_events(&[0x0E]).is_empty());
}

#[test]
fn the_rest_of_a_transfer_waits_its_turn() {
    let mut inbox = Inbox::new();
    let mut buf = INQUIRY_DONE.to_vec();
    buf.extend_from_slice(&[0x01, 0x01, 0x07]);
    assert_eq!(inbox.events_in(&buf), Some(Event::InquiryComplete { status: 0 }));
    assert_eq!(inbox.next_event(), Some(Event::InquiryComplete { status: 7 }));
    assert_eq!(inbox.next_event(), None);

    let mut buf = encode_acl(1, 4, &[1]);
    buf.extend_from_slice(&encode_acl(1, 4, &[2]));
    assert_eq!(inbox.packets_in(&buf).expect("first").payload, vec![1]);
    assert_eq!(inbox.next_packet().expect("second").payload, vec![2]);
    assert!(inbox.next_packet().is_none());
    assert!(inbox.packets_in(&[]).is_none());
}

#[test]
fn what_is_put_back_is_read_first() {
    let mut inbox = Inbox::new();
    let p = |n: u8| AclPacket { conn_handle: 1, cid: 4, payload: vec![n] };
    inbox.push_acl_front(vec![p(3)]);
    inbox.push_acl_front(vec![p(1), p(2)]);
    for n in 1..4 {
        assert_eq!(inbox.next_packet(), Some(p(n)));
    }
    inbox.push_acl_front(vec![p(9)]);
    inbox.push_events_front(vec![Event::InquiryComplete { status: 0 }]);
    inbox.clear();
    assert!(inbox.next_packet().is_none() && inbox.next_event().is_none());
}

#[test]
fn a_list_becomes_a_queue_in_order() {
    let mut q = to_queue(vec![1, 2, 3]);
    assert_eq!((q.pop_front(), q.pop_front(), q.pop_front()), (Some(1), Some(2), Some(3)));
}
