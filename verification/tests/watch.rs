//! Letting classic controllers in.
use flexinput_btle::acl::parse_acl;
use flexinput_btle::hci::Opcode;
use flexinput_btle::keystore::{load, put};
use flexinput_btle::l2cap::{
    configure_request, connection_request, connection_response, encode_signal, parse_signal,
    CID_SIGNALLING, PSM_HID_CONTROL, PSM_HID_INTERRUPT, SIG_CONFIGURE_REQUEST,
    SIG_CONFIGURE_RESPONSE, SIG_CONNECTION_REQUEST, SIG_CONNECTION_RESPONSE,
    SIG_DISCONNECTION_REQUEST, SIG_DISCONNECTION_RESPONSE,
};
use flexinput_btle::watch::{accepted_note, Watch, WatchAct};
use flexinput_btle::{AclPacket, Error, Event, UsbFault};

const PAD: [u8; 6] = [0x11; 6];

fn said(a: &WatchAct) -> &str {
    match a {
        WatchAct::Note(s) => s.as_str(),
        other => panic!("{other:?}"),
    }
}

fn sent(acts: &[WatchAct]) -> Vec<(u8, u8, Vec<u8>)> {
    let mut out = Vec::new();
    for a in acts {
        if let WatchAct::Send(p) = a {
            let s = parse_signal(&parse_acl(p).expect("framed").payload).expect("a command");
            out.push((s.code, s.identifier, s.data));
        }
    }
    out
}

#[test]
fn only_a_paired_device_is_let_in() {
    let call = Event::ConnectionRequest { address: PAD, class_of_device: [8, 5, 0], link_type: 1 };
    let mut w = Watch::new();
    let acts = w.event(&load(""), &call);
    assert_eq!(
        said(&acts[0]),
        "⭐ INCOMING from 11:11:11:11:11:11 (class [08, 05, 00])"
    );
    assert_eq!(said(&acts[1]), "   ⛔ 11:11:11:11:11:11 is NOT in the key store — ignoring");
    let mut known = load("");
    put(&mut known, PAD, [7; 16], None, None);
    assert_eq!(w.event(&known, &call)[1], WatchAct::Accept(PAD));
}

#[test]
fn a_key_is_supplied_or_denied() {
    let ask = Event::LinkKeyRequest { address: PAD };
    let mut w = Watch::new();
    assert_eq!(
        w.event(&load(""), &ask)[1],
        WatchAct::Command {
            opcode: Opcode(Opcode::LINK_KEY_REQUEST_NEGATIVE_REPLY),
            params: PAD.to_vec(),
            wait: true,
        }
    );
    let mut known = load("");
    put(&mut known, PAD, [7; 16], None, None);
    let mut params = PAD.to_vec();
    params.extend_from_slice(&[7; 16]);
    assert_eq!(
        w.event(&known, &ask)[1],
        WatchAct::Command { opcode: Opcode(Opcode::LINK_KEY_REQUEST_REPLY), params, wait: true }
    );
}

#[test]
fn a_link_is_tracked_until_it_drops() {
    let known = load("");
    let mut w = Watch::new();
    let acts = w.event(
        &known,
        &Event::ConnectionComplete { status: 0, conn_handle: 0x0B, address: PAD },
    );
    assert_eq!(said(&acts[0]), "   ✅ link up: 11:11:11:11:11:11 handle 0x000b");
    assert_eq!(w.links, vec![(0x0B, PAD)]);
    let wants = AclPacket {
        conn_handle: 0x0B,
        cid: CID_SIGNALLING,
        payload: encode_signal(
            SIG_CONNECTION_REQUEST,
            3,
            &connection_request(PSM_HID_INTERRUPT, 0x70),
        ),
    };
    let acts = w.packet(&wants);
    assert_eq!(
        sent(&acts),
        vec![
            (SIG_CONNECTION_RESPONSE, 3, connection_response(0x41, 0x70, 0)),
            (SIG_CONFIGURE_REQUEST, 4, configure_request(0x70, 672)),
        ]
    );
    assert_eq!(w.hid, vec![(0x0B, 0x41)]);

    let report = AclPacket { conn_handle: 0x0B, cid: 0x41, payload: vec![0xA1, 0x30] };
    let acts = w.packet(&report);
    assert_eq!(said(&acts[0]), "   📥 input report #1 (2 bytes)");
    assert_eq!(acts[1], WatchAct::Heard);
    assert_eq!(w.packet(&report), vec![WatchAct::Heard]);
    assert_eq!(w.reports, 2);

    let acts = w.event(&known, &Event::DisconnectionComplete { conn_handle: 0x0B, reason: 0x13 });
    assert_eq!(said(&acts[0]), "   link 0x000b DROPPED (reason 0x13)");
    assert!(w.links.is_empty() && w.hid.is_empty());
    let acts = w.packet(&report);
    assert_eq!(said(&acts[0]), "   acl on cid 0x0041 handle 0x000b (2 bytes)");
}

#[test]
fn requests_of_the_controller_are_answered() {
    let mut w = Watch::new();
    let signal = |code: u8, data: &[u8]| AclPacket {
        conn_handle: 0x0B,
        cid: CID_SIGNALLING,
        payload: encode_signal(code, 5, data),
    };
    let acts = w.packet(&signal(
        SIG_CONNECTION_REQUEST,
        &connection_request(PSM_HID_CONTROL, 0x70),
    ));
    assert_eq!(sent(&acts)[0].2, connection_response(0x40, 0x70, 0));
    assert!(w.hid.is_empty());
    let acts = w.packet(&signal(SIG_CONFIGURE_REQUEST, &configure_request(0x40, 99)));
    assert_eq!(sent(&acts)[0].0, SIG_CONFIGURE_RESPONSE);
    let acts = w.packet(&signal(SIG_DISCONNECTION_REQUEST, &[1, 2, 3, 4]));
    assert_eq!(sent(&acts), vec![(SIG_DISCONNECTION_RESPONSE, 5, vec![1, 2, 3, 4])]);
}

#[test]
fn a_new_key_is_stored() {
    let mut w = Watch::new();
    let acts = w.event(
        &load(""),
        &Event::LinkKeyNotification { address: PAD, key: [9; 16], key_type: 4 },
    );
    assert_eq!(acts[1], WatchAct::Save { address: PAD, key: [9; 16] });
}

#[test]
fn failures_are_named() {
    let known = load("");
    let mut w = Watch::new();
    let mut say = |e: Event| said(&w.event(&known, &e)[0]).to_string();
    assert_eq!(
        say(Event::ConnectionComplete { status: 4, conn_handle: 0, address: PAD }),
        "   ⛔ link FAILED for 11:11:11:11:11:11: status 0x04"
    );
    assert_eq!(
        say(Event::AuthenticationComplete { status: 6, conn_handle: 1 }),
        "   ⛔ AUTH FAILED: status 0x06 (the stored key is probably not this dongle's)"
    );
    assert_eq!(
        say(Event::EncryptionChange { status: 8, conn_handle: 1, enabled: 0 }),
        "   ⛔ ENCRYPTION FAILED: status 0x08"
    );
    assert_eq!(say(Event::Other { code: 0xFC, params: vec![] }), "   (event 0xfc)");
    let quiet = Event::Other { code: 0x13, params: vec![] };
    assert!(w.event(&known, &quiet).is_empty());
    assert!(accepted_note(&Err(Error::Usb(UsbFault::NoDevice))).contains("No such device"));
}

#[test]
fn a_packet_is_taken_while_it_can_be_carried_out() {
    let mut w = Watch::new();
    let ask = |psm| AclPacket {
        conn_handle: 1,
        cid: CID_SIGNALLING,
        payload: encode_signal(SIG_CONNECTION_REQUEST, 1, &connection_request(psm, 0x70)),
    };
    assert!(w.can_take(&ask(PSM_HID_INTERRUPT)));
    w.hid = vec![(2, 2); (0xFFFF - 0x40) / 2];
    assert!(w.can_take(&ask(PSM_HID_CONTROL)) && w.can_take(&ask(PSM_HID_INTERRUPT)));
    w.hid.push((2, 2));
    assert!(!w.can_take(&ask(PSM_HID_CONTROL)) && !w.can_take(&ask(PSM_HID_INTERRUPT)));
    let other = AclPacket { conn_handle: 1, cid: 0x99, payload: vec![] };
    assert!(w.can_take(&other));
    let report = AclPacket { conn_handle: 2, cid: 2, payload: vec![1] };
    assert!(w.can_take(&report));
    w.reports = usize::MAX;
    assert!(!w.can_take(&report) && w.can_take(&other));
}
