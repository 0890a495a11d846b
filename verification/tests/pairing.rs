//! Paging and pairing.
use flexinput_btle::commands::{Command, OnFailure, Step};
use flexinput_btle::hci::{Event, Opcode};
use flexinput_btle::pairing::{PagePair, PairVerdict};
use flexinput_btle::{ClassicLink, Error, NO_PAGE};

const PAD: [u8; 6] = [1, 2, 3, 4, 5, 6];
const KEY: [u8; 16] = [0xAB; 16];

fn commands(steps: &[Step]) -> Vec<(u16, Vec<u8>)> {
    let mut out = Vec::new();
    for s in steps {
        if let Step::Do(Command { opcode, params, .. }) = s {
            out.push((opcode.0, params.clone()));
        }
    }
    out
}

#[test]
fn a_page_sets_its_timeout_before_it_calls() {
    let (_, steps) = PagePair::new(PAD, 1, 0x1234, None, 0x2000);
    assert_eq!(
        commands(&steps),
        vec![
            (Opcode::WRITE_SIMPLE_PAIRING_MODE, vec![1]),
            (Opcode::WRITE_PAGE_TIMEOUT, vec![0x00, 0x20]),
            (
                Opcode::CREATE_CONNECTION,
                vec![1, 2, 3, 4, 5, 6, 0x18, 0xCC, 1, 0, 0x34, 0x12, 1]
            ),
        ]
    );
    let (p, steps) = PagePair::new(PAD, NO_PAGE, 0, Some(KEY), 0x2000);
    assert_eq!(commands(&steps).len(), 1, "no page where the link is coming in");
    assert!(p.paired && p.link.incoming && !p.paging);
}

#[test]
fn a_first_pairing_goes_all_the_way() {
    let (mut p, _) = PagePair::new(PAD, 1, 0, None, 0x2000);
    let (steps, v) =
        p.step(&Event::ConnectionComplete { status: 0, conn_handle: 0x0B, address: PAD });
    assert_eq!(v, PairVerdict::Waiting);
    assert_eq!(steps[0], Step::Note("ACL link up, handle 0x000b".to_string()));
    assert_eq!(commands(&steps), vec![(Opcode::AUTHENTICATION_REQUESTED, vec![0x0B, 0])]);

    let (steps, _) = p.step(&Event::LinkKeyRequest { address: PAD });
    assert_eq!(commands(&steps), vec![(Opcode::LINK_KEY_REQUEST_NEGATIVE_REPLY, PAD.to_vec())]);

    let (steps, _) = p.step(&Event::IoCapabilityRequest { address: PAD });
    assert_eq!(
        commands(&steps),
        vec![(Opcode::IO_CAPABILITY_REQUEST_REPLY, vec![1, 2, 3, 4, 5, 6, 3, 0, 0])]
    );

    let (steps, _) = p.step(&Event::UserConfirmationRequest { address: PAD, numeric: 7 });
    assert_eq!(commands(&steps), vec![(Opcode::USER_CONFIRMATION_REQUEST_REPLY, PAD.to_vec())]);

    let (steps, _) =
        p.step(&Event::LinkKeyNotification { address: PAD, key: KEY, key_type: 4 });
    assert_eq!(steps, vec![Step::Note("⭐ link key received (type 0x04)".to_string())]);

    let (steps, _) = p.step(&Event::AuthenticationComplete { status: 0, conn_handle: 0x0B });
    assert_eq!(commands(&steps), vec![(Opcode::SET_CONNECTION_ENCRYPTION, vec![0x0B, 0, 1])]);

    let (_, v) =
        p.step(&Event::EncryptionChange { status: 0, conn_handle: 0x0B, enabled: 1 });
    assert_eq!(
        v,
        PairVerdict::Paired(ClassicLink {
            conn_handle: 0x0B,
            address: PAD,
            link_key: Some(KEY),
            encrypted: true,
            incoming: false,
        })
    );
}

#[test]
fn a_stored_key_is_supplied() {
    let (mut p, _) = PagePair::new(PAD, 1, 0, Some(KEY), 0x2000);
    let (steps, _) = p.step(&Event::LinkKeyRequest { address: PAD });
    let mut expected = PAD.to_vec();
    expected.extend_from_slice(&KEY);
    assert_eq!(commands(&steps), vec![(Opcode::LINK_KEY_REQUEST_REPLY, expected)]);
}

#[test]
fn a_remote_that_calls_meanwhile_is_answered() {
    let (mut p, _) = PagePair::new(PAD, 1, 0, None, 0x2000);
    let call = Event::ConnectionRequest { address: PAD, class_of_device: [8, 5, 0], link_type: 1 };
    let (steps, _) = p.step(&call);
    assert_eq!(
        commands(&steps),
        vec![
            (Opcode::CREATE_CONNECTION_CANCEL, PAD.to_vec()),
            (Opcode::ACCEPT_CONNECTION_REQUEST, vec![1, 2, 3, 4, 5, 6, 1]),
        ]
    );
    assert!(p.link.incoming);
    let other = Event::ConnectionRequest {
        address: [9; 6],
        class_of_device: [8, 5, 0],
        link_type: 1,
    };
    assert_eq!(p.step(&other), (vec![], PairVerdict::Waiting));
}

#[test]
fn every_way_to_fail_says_why() {
    let fail = |events: &[Event]| {
        let (mut p, _) = PagePair::new(PAD, 1, 0, None, 0x2000);
        p.step(&Event::ConnectionComplete { status: 0, conn_handle: 0x0B, address: PAD });
        let mut last = PairVerdict::Waiting;
        for e in events {
            last = p.step(e).1;
        }
        match last {
            PairVerdict::Failed(Error::Protocol(m)) => m,
            other => panic!("{other:?}"),
        }
    };
    assert_eq!(
        fail(&[Event::ConnectionComplete { status: 4, conn_handle: 0, address: PAD }]),
        "page failed: status 0x04"
    );
    assert_eq!(
        fail(&[Event::SimplePairingComplete { status: 5, address: PAD }]),
        "pairing failed: status 0x05"
    );
    assert_eq!(
        fail(&[Event::AuthenticationComplete { status: 6, conn_handle: 0x0B }]),
        "authentication failed: status 0x06"
    );
    assert_eq!(
        fail(&[Event::EncryptionChange { status: 0, conn_handle: 0x0B, enabled: 0 }]),
        "encryption refused: status 0x00 enabled 0"
    );
    assert_eq!(
        fail(&[
            Event::LinkKeyNotification { address: PAD, key: KEY, key_type: 4 },
            Event::DisconnectionComplete { conn_handle: 0x0B, reason: 0x13 },
        ]),
        "remote dropped the link (reason 0x13) — paired=true, encrypted=false"
    );
}

#[test]
fn giving_up_takes_the_radio_out_of_paging() {
    let (mut p, _) = PagePair::new(PAD, 1, 0, None, 0x2000);
    let (steps, e) = p.give_up();
    assert_eq!(commands(&steps), vec![(Opcode::CREATE_CONNECTION_CANCEL, PAD.to_vec())]);
    assert_eq!(e, Error::Protocol("timed out (connected=false, paired=false)".to_string()));
    p.step(&Event::ConnectionComplete { status: 0, conn_handle: 0x0B, address: PAD });
    let (steps, e) = p.give_up();
    assert_eq!(commands(&steps), vec![(Opcode::DISCONNECT, vec![0x0B, 0, 0x13])]);
    assert_eq!(e, Error::Protocol("timed out (connected=true, paired=false)".to_string()));
    match &steps[0] {
        Step::Do(c) => assert_eq!(c.on_failure, OnFailure::Ignore),
        other => panic!("{other:?}"),
    }
    let (p, _) = PagePair::new(PAD, NO_PAGE, 0, None, 0x2000);
    assert!(p.give_up().0.is_empty());
}

#[test]
fn the_last_link_and_the_last_key_count() {
    let (mut p, _) = PagePair::new(PAD, 1, 0, Some(KEY), 0x2000);
    let other = [9u8; 6];
    let early = Event::EncryptionChange { status: 0, conn_handle: 0x0B, enabled: 1 };
    assert_eq!(p.step(&early).1, PairVerdict::Waiting, "no link is up yet");
    p.step(&Event::ConnectionComplete { status: 0, conn_handle: 0x0B, address: PAD });
    p.step(&Event::ConnectionComplete { status: 0, conn_handle: 0x0D, address: other });
    p.step(&Event::ConnectionComplete { status: 0, conn_handle: 0x0C, address: PAD });
    for (address, key) in [(PAD, [1u8; 16]), (PAD, [2; 16]), (other, [3; 16])] {
        p.step(&Event::LinkKeyNotification { address, key, key_type: 4 });
    }
    let (steps, _) = p.step(&Event::LinkKeyRequest { address: PAD });
    let mut reply = PAD.to_vec();
    reply.extend_from_slice(&[2; 16]);
    assert_eq!(commands(&steps), vec![(Opcode::LINK_KEY_REQUEST_REPLY, reply)]);
    assert_eq!(commands(&p.give_up().0), vec![(Opcode::DISCONNECT, vec![0x0C, 0, 0x13])]);
    assert_eq!(p.step(&early).1, PairVerdict::Waiting, "that link is no longer the one");
    assert!(!p.link.encrypted);
    let (_, v) = p.step(&Event::EncryptionChange { status: 0, conn_handle: 0x0C, enabled: 1 });
    assert_eq!(
        v,
        PairVerdict::Paired(ClassicLink {
            conn_handle: 0x0C,
            address: PAD,
            link_key: Some([2; 16]),
            encrypted: true,
            incoming: false,
        })
    );
}
