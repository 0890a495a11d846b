//! Bringing up channels.
use flexinput_btle::accept::AcceptSetup;
use flexinput_btle::acl::{parse_acl, AclPacket};
use flexinput_btle::channels::{Action, HidSetup, Verdict};
use flexinput_btle::connect::{ChannelSetup, Opening};
use flexinput_btle::l2cap::{
    configure_request, configure_response, connection_request, connection_response, encode_signal,
    parse_signal, Channel, CID_SIGNALLING, PSM_HID_CONTROL, PSM_HID_INTERRUPT,
    SIG_CONFIGURE_REQUEST, SIG_CONFIGURE_RESPONSE, SIG_CONNECTION_REQUEST,
    SIG_CONNECTION_RESPONSE, SIG_DISCONNECTION_REQUEST, SIG_DISCONNECTION_RESPONSE,
};
use flexinput_btle::Error;

fn signal(code: u8, id: u8, data: &[u8]) -> AclPacket {
    AclPacket { conn_handle: 0x40, cid: CID_SIGNALLING, payload: encode_signal(code, id, data) }
}

/// The code, identifier and data of each packet that is to be sent.
fn sent(actions: &[Action]) -> Vec<(u8, u8, Vec<u8>)> {
    let mut out = Vec::new();
    for a in actions {
        if let Action::Send(p) | Action::TrySend(p) = a {
            let p = parse_acl(p).expect("framed");
            assert_eq!((p.conn_handle, p.cid), (0x40, CID_SIGNALLING));
            let s = parse_signal(&p.payload).expect("a command");
            out.push((s.code, s.identifier, s.data));
        }
    }
    out
}

#[test]
fn a_silent_remote_is_asked_for_both_channels() {
    let mut s = HidSetup::new(0x40, 0x50);
    let actions = s.ask();
    assert_eq!(
        actions[0],
        Action::Note("PSM 0x0011: remote did not offer — asking".to_string())
    );
    assert_eq!(
        sent(&actions),
        vec![
            (SIG_CONNECTION_REQUEST, 2, connection_request(PSM_HID_CONTROL, 0x50)),
            (SIG_CONNECTION_REQUEST, 3, connection_request(PSM_HID_INTERRUPT, 0x51)),
        ]
    );
    assert!(s.ask().is_empty(), "nothing is asked for twice");

    let mut ident = 4;
    for (ours, theirs) in [(0x50u16, 0x70u16), (0x51, 0x71)] {
        let (actions, v) =
            s.step(&signal(SIG_CONNECTION_RESPONSE, 9, &connection_response(theirs, ours, 0)));
        assert_eq!(v, Verdict::Waiting);
        assert_eq!(
            sent(&actions),
            vec![(SIG_CONFIGURE_REQUEST, ident, configure_request(theirs, 672))]
        );
        ident += 1;
    }
    for ours in [0x50u16, 0x51] {
        let (actions, v) =
            s.step(&signal(SIG_CONFIGURE_REQUEST, 7, &configure_request(ours, 100)));
        assert_eq!(v, Verdict::Waiting);
        assert_eq!(
            sent(&actions),
            vec![(
                SIG_CONFIGURE_RESPONSE,
                7,
                configure_response(ours + 0x20, &[0x01, 0x02, 100, 0])
            )]
        );
    }
    let (_, v) = s.step(&signal(SIG_CONFIGURE_RESPONSE, 4, &configure_response(0x50, &[])));
    assert_eq!(v, Verdict::Waiting);
    let (_, v) = s.step(&signal(SIG_CONFIGURE_RESPONSE, 5, &configure_response(0x51, &[])));
    assert_eq!(
        v,
        Verdict::Ready {
            control: Channel { psm: PSM_HID_CONTROL, local_cid: 0x50, remote_cid: 0x70 },
            interrupt: Channel { psm: PSM_HID_INTERRUPT, local_cid: 0x51, remote_cid: 0x71 },
        }
    );
}

#[test]
fn a_remote_that_offers_is_granted_both_channels() {
    let mut s = HidSetup::new(0x40, 0x50);
    let (actions, _) =
        s.step(&signal(SIG_CONNECTION_REQUEST, 1, &connection_request(PSM_HID_CONTROL, 0x70)));
    assert_eq!(
        sent(&actions),
        vec![
            (SIG_CONNECTION_RESPONSE, 1, connection_response(0x54, 0x70, 0)),
            (SIG_CONFIGURE_REQUEST, 2, configure_request(0x70, 672)),
        ]
    );
    let actions = s.ask();
    assert_eq!(
        sent(&actions),
        vec![(SIG_CONNECTION_REQUEST, 3, connection_request(PSM_HID_INTERRUPT, 0x51))],
        "only what was not offered is asked for"
    );
    let (actions, _) =
        s.step(&signal(SIG_CONNECTION_REQUEST, 2, &connection_request(PSM_HID_INTERRUPT, 0x71)));
    assert_eq!(sent(&actions)[0].2, connection_response(0x55, 0x71, 0), "an offer wins");
    for ours in [0x54u16, 0x55] {
        s.step(&signal(SIG_CONFIGURE_RESPONSE, 4, &configure_response(ours, &[])));
    }
    s.step(&signal(SIG_CONFIGURE_REQUEST, 7, &configure_request(0x54, 672)));
    let (_, v) = s.step(&signal(SIG_CONFIGURE_REQUEST, 8, &configure_request(0x55, 672)));
    match v {
        Verdict::Ready { control, interrupt } => {
            assert_eq!((control.local_cid, control.remote_cid), (0x54, 0x70));
            assert_eq!((interrupt.local_cid, interrupt.remote_cid), (0x55, 0x71));
        }
        other => panic!("{other:?}"),
    }
}

#[test]
fn an_unknown_service_and_a_refusal() {
    let mut s = HidSetup::new(0x40, 0x50);
    let (actions, v) = s.step(&signal(SIG_CONNECTION_REQUEST, 6, &connection_request(1, 0x70)));
    assert_eq!(v, Verdict::Waiting);
    assert_eq!(
        sent(&actions),
        vec![(SIG_CONNECTION_RESPONSE, 6, connection_response(0, 0x70, 2))]
    );
    s.ask();
    let (_, v) =
        s.step(&signal(SIG_CONNECTION_RESPONSE, 2, &connection_response(0, 0x50, 4)));
    assert_eq!(
        v,
        Verdict::Failed(Error::Protocol("PSM 0x0011 refused: result 0x0004".to_string()))
    );
    let (actions, v) =
        s.step(&signal(SIG_CONNECTION_RESPONSE, 2, &connection_response(0, 0x50, 1)));
    assert_eq!(v, Verdict::Waiting);
    assert_eq!(actions, vec![Action::Note("PSM 0x0011: pending…".to_string())]);
    let mut refusal = configure_response(0x51, &[]);
    refusal[4] = 2;
    let (_, v) = s.step(&signal(SIG_CONFIGURE_RESPONSE, 2, &refusal));
    assert_eq!(
        v,
        Verdict::Failed(Error::Protocol("PSM 0x0013 configuration refused: 0x0002".to_string()))
    );
}

#[test]
fn a_closed_channel_ends_the_exchange() {
    let mut s = HidSetup::new(0x40, 0x50);
    let (actions, v) = s.step(&signal(SIG_DISCONNECTION_REQUEST, 3, &[1, 2, 3, 4]));
    assert_eq!(sent(&actions), vec![(SIG_DISCONNECTION_RESPONSE, 3, vec![1, 2, 3, 4])]);
    assert_eq!(v, Verdict::Failed(Error::Protocol("remote closed a channel".to_string())));
}

#[test]
fn traffic_of_others_changes_nothing() {
    let mut s = HidSetup::new(0x40, 0x50);
    let before = s;
    let mut p = signal(SIG_CONNECTION_REQUEST, 1, &connection_request(PSM_HID_CONTROL, 0x70));
    p.conn_handle = 0x41;
    assert_eq!(s.step(&p), (vec![], Verdict::Waiting));
    p.conn_handle = 0x40;
    p.cid = 0x51;
    assert_eq!(s.step(&p), (vec![], Verdict::Waiting));
    assert_eq!(s, before);
}

#[test]
fn running_out_of_time_says_how_far_it_got() {
    let mut s = HidSetup::new(0x40, 0x50);
    s.step(&signal(SIG_CONNECTION_REQUEST, 1, &connection_request(PSM_HID_CONTROL, 0x70)));
    s.step(&signal(SIG_CONFIGURE_REQUEST, 7, &configure_request(0x54, 672)));
    assert_eq!(
        s.timed_out(),
        Error::Protocol(
            "HID channels timed out (control: granted=true ours=false theirs=true; \
             interrupt: granted=false ours=false theirs=false)"
                .to_string()
        )
    );
}

#[test]
fn accepting_takes_what_the_remote_opens() {
    let mut s = AcceptSetup::new(0x40);
    let (actions, v) =
        s.step(&signal(SIG_CONNECTION_REQUEST, 5, &connection_request(PSM_HID_CONTROL, 0x70)));
    assert_eq!(v, Verdict::Waiting);
    assert_eq!(
        actions[0],
        Action::Note("granting PSM 0x0011 as cid 0x0040".to_string())
    );
    assert_eq!(
        sent(&actions),
        vec![
            (SIG_CONNECTION_RESPONSE, 5, connection_response(0x40, 0x70, 0)),
            (SIG_CONFIGURE_REQUEST, 6, configure_request(0x70, 672)),
        ]
    );
    let (actions, _) = s.step(&signal(SIG_CONFIGURE_REQUEST, 8, &configure_request(0x40, 99)));
    assert_eq!(
        sent(&actions),
        vec![(SIG_CONFIGURE_RESPONSE, 8, configure_response(0x70, &[1, 2, 99, 0]))]
    );
    let (_, v) =
        s.step(&signal(SIG_CONNECTION_REQUEST, 9, &connection_request(PSM_HID_INTERRUPT, 0x71)));
    assert_eq!(v, Verdict::Waiting, "granted, but not configured");
    let (_, v) = s.step(&signal(SIG_CONFIGURE_RESPONSE, 10, &configure_response(0x40, &[])));
    assert_eq!(v, Verdict::Waiting, "that was the control channel");
    let (actions, v) = s.step(&signal(SIG_CONFIGURE_REQUEST, 11, &configure_request(0x41, 99)));
    assert_eq!(v, Verdict::Waiting, "ours is not accepted yet");
    assert_eq!(sent(&actions)[0].2, configure_response(0x71, &[1, 2, 99, 0]));
    let refusal = [0x41, 0, 0, 0, 1, 0];
    let (_, v) = s.step(&signal(SIG_CONFIGURE_RESPONSE, 10, &refusal));
    assert_eq!(v, Verdict::Waiting, "a refusal configures nothing");
    let (_, v) = s.step(&signal(SIG_CONFIGURE_RESPONSE, 10, &configure_response(0x41, &[])));
    assert_eq!(
        v,
        Verdict::Ready {
            control: Channel { psm: PSM_HID_CONTROL, local_cid: 0x40, remote_cid: 0x70 },
            interrupt: Channel { psm: PSM_HID_INTERRUPT, local_cid: 0x41, remote_cid: 0x71 },
        }
    );
    let (actions, _) = s.step(&signal(SIG_CONNECTION_REQUEST, 9, &connection_request(1, 0x72)));
    assert_eq!(sent(&actions)[0].2, connection_response(0, 0x72, 2));
}

#[test]
fn connecting_opens_one_channel() {
    let (mut s, first) = ChannelSetup::new(0x40, PSM_HID_CONTROL, 0x60);
    let p = parse_acl(&first).expect("framed");
    assert_eq!(
        parse_signal(&p.payload).expect("a command").data,
        connection_request(PSM_HID_CONTROL, 0x60)
    );
    let (actions, v) =
        s.step(&signal(SIG_CONNECTION_RESPONSE, 1, &connection_response(0x70, 0x60, 0)));
    assert_eq!(v, Opening::Waiting);
    assert_eq!(sent(&actions)[0].2, configure_request(0x70, 672));
    let (actions, v) = s.step(&signal(SIG_CONFIGURE_REQUEST, 4, &configure_request(0x60, 64)));
    assert_eq!(v, Opening::Waiting);
    assert_eq!(sent(&actions)[0].2, configure_response(0x70, &[1, 2, 64, 0]));
    let (_, v) = s.step(&signal(SIG_CONFIGURE_RESPONSE, 2, &configure_response(0x60, &[])));
    assert_eq!(
        v,
        Opening::Open(Channel { psm: PSM_HID_CONTROL, local_cid: 0x60, remote_cid: 0x70 })
    );
    assert!(matches!(s.timed_out(), Error::Protocol(_)));
}

#[test]
fn an_answer_for_another_channel_says_nothing_of_this_one() {
    let (mut s, _) = ChannelSetup::new(0x40, PSM_HID_INTERRUPT, 0x61);
    s.step(&signal(SIG_CONNECTION_RESPONSE, 1, &connection_response(0x71, 0x61, 0)));
    s.step(&signal(SIG_CONFIGURE_REQUEST, 4, &configure_request(0x61, 64)));
    let (actions, v) = s.step(&signal(SIG_CONFIGURE_RESPONSE, 2, &configure_response(0x60, &[])));
    assert_eq!((actions.len(), v), (0, Opening::Waiting), "accepted, but the control channel");
    let (_, v) = s.step(&signal(SIG_CONFIGURE_RESPONSE, 2, &[0x60, 0, 0, 0, 1, 0]));
    assert_eq!(v, Opening::Waiting, "refused, but the control channel");
    let (_, v) = s.step(&signal(SIG_CONFIGURE_RESPONSE, 2, &configure_response(0x61, &[])));
    assert_eq!(
        v,
        Opening::Open(Channel { psm: PSM_HID_INTERRUPT, local_cid: 0x61, remote_cid: 0x71 })
    );
}

#[test]
fn a_request_starts_its_channel_anew() {
    let mut s = HidSetup::new(0x40, 0x50);
    for (psm, theirs) in [(PSM_HID_CONTROL, 0x70u16), (PSM_HID_INTERRUPT, 0x71)] {
        s.step(&signal(SIG_CONNECTION_REQUEST, 1, &connection_request(psm, theirs)));
    }
    for ours in [0x54u16, 0x55] {
        s.step(&signal(SIG_CONFIGURE_RESPONSE, 4, &configure_response(ours, &[])));
    }
    s.step(&signal(SIG_CONFIGURE_REQUEST, 7, &configure_request(0x55, 672)));
    s.step(&signal(SIG_CONNECTION_REQUEST, 2, &connection_request(PSM_HID_INTERRUPT, 0x91)));
    assert!(!s.interrupt.ours_configured && !s.interrupt.theirs_configured);
    let (_, v) = s.step(&signal(SIG_CONFIGURE_REQUEST, 8, &configure_request(0x54, 672)));
    assert_eq!(v, Verdict::Waiting, "what was said of the earlier channel does not count");
    let (actions, v) = s.step(&signal(SIG_CONFIGURE_REQUEST, 9, &configure_request(0x55, 48)));
    assert_eq!(v, Verdict::Waiting);
    assert_eq!(
        sent(&actions),
        vec![(SIG_CONFIGURE_RESPONSE, 9, configure_response(0x91, &[0x01, 0x02, 48, 0]))]
    );
    let (_, v) = s.step(&signal(SIG_CONFIGURE_RESPONSE, 5, &configure_response(0x55, &[])));
    assert_eq!(
        v,
        Verdict::Ready {
            control: Channel { psm: PSM_HID_CONTROL, local_cid: 0x54, remote_cid: 0x70 },
            interrupt: Channel { psm: PSM_HID_INTERRUPT, local_cid: 0x55, remote_cid: 0x91 },
        },
        "the id that was settled last is the one that is reported"
    );
    assert!(s.ask().is_empty());
}
