//! What is said to the controller about itself and its links.
use flexinput_btle::hci::{CommandComplete, Event, InquiryResult, Opcode};
use flexinput_btle::link::{
    accept_params, check, completion, connect_params, disconnect_params, encryption_params,
    inquiry_params, inquiry_units, interval_for, name_of, name_params, never_completed,
    own_address, page_slots, push_listed_bytes, scan_enabled, scan_params, scan_state, scan_switch,
    supports_bredr, InitNext, InitStage, Inquiry, InquiryVerdict, LeConnect, LeVerdict,
};
use flexinput_btle::{Error, LinkParams, UsbFault};

fn complete(opcode: u16, params: &[u8]) -> CommandComplete {
    CommandComplete { num_hci_command_packets: 1, opcode: Opcode(opcode), params: params.to_vec() }
}

fn said(e: Error) -> String {
    match e {
        Error::Protocol(m) => m,
        other => panic!("{other:?}"),
    }
}

#[test]
fn only_its_own_completion_ends_a_command() {
    let reset = Opcode(Opcode::RESET);
    let mine = complete(Opcode::RESET, &[0]);
    assert_eq!(completion(Event::CommandComplete(mine.clone()), reset), Some(mine));
    let other = complete(Opcode::READ_BD_ADDR, &[0]);
    assert_eq!(completion(Event::CommandComplete(other), reset), None);
    assert_eq!(completion(Event::InquiryComplete { status: 0 }, reset), None);
    assert_eq!(
        said(never_completed(reset)),
        "no Command Complete for Opcode(3075) within 2 s"
    );
}

#[test]
fn a_status_that_is_not_zero_is_an_error() {
    assert!(check("x ", &complete(0, &[0])).is_ok());
    assert_eq!(said(check("x status ", &complete(0, &[0x0C])).unwrap_err()), "x status Some(12)");
    assert_eq!(said(check("x status ", &complete(0, &[])).unwrap_err()), "x status None");
}

#[test]
fn bringing_up_takes_four_commands() {
    let mut s = InitStage::first();
    let mut seen = Vec::new();
    loop {
        let (op, params) = s.command();
        seen.push((op.0, params.len()));
        let reply = if op.0 == Opcode::READ_BD_ADDR {
            complete(op.0, &[0, 6, 5, 4, 3, 2, 1])
        } else {
            complete(op.0, &[0])
        };
        match s.answer(Ok(reply)) {
            InitNext::Go(n) => s = n,
            InitNext::Up(a) => {
                assert_eq!(a, Some([1, 2, 3, 4, 5, 6]));
                break;
            }
            InitNext::Failed(e) => panic!("{e:?}"),
        }
    }
    assert_eq!(
        seen,
        vec![
            (Opcode::RESET, 0),
            (Opcode::SET_EVENT_MASK, 8),
            (Opcode::LE_SET_EVENT_MASK, 8),
            (Opcode::READ_BD_ADDR, 0),
        ]
    );
}

#[test]
fn a_reset_is_tried_three_times() {
    let mut s = InitStage::first();
    let mut attempts = 0;
    let e = loop {
        attempts += 1;
        match s.answer(Err(Error::Usb(UsbFault::NoDevice))) {
            InitNext::Go(n) => s = n,
            InitNext::Up(_) => panic!("came up"),
            InitNext::Failed(e) => break e,
        }
    };
    assert_eq!(attempts, 3);
    assert_eq!(e, Error::Usb(UsbFault::NoDevice));
    assert_eq!(
        InitStage::Address.answer(Err(Error::Usb(UsbFault::NoDevice))),
        InitNext::Up(None),
        "the address is not needed to come up"
    );
}

#[test]
fn the_own_address_is_turned_round() {
    let got = own_address(&complete(Opcode::READ_BD_ADDR, &[0, 6, 5, 4, 3, 2, 1]));
    assert_eq!(got, Ok([1, 2, 3, 4, 5, 6]));
    assert!(own_address(&complete(Opcode::READ_BD_ADDR, &[0, 6, 5])).is_err());
    assert!(own_address(&complete(Opcode::READ_BD_ADDR, &[1, 6, 5, 4, 3, 2, 1])).is_err());
}

#[test]
fn parameters_have_their_bytes() {
    assert_eq!(scan_params(), vec![0x00, 0x30, 0x00, 0x30, 0x00, 0x00, 0x00]);
    assert_eq!(scan_switch(true), vec![1, 0]);
    assert_eq!(scan_switch(false), vec![0, 0]);
    assert_eq!(disconnect_params(0x0040), vec![0x40, 0x00, 0x13]);
    assert_eq!(inquiry_params(8), vec![0x33, 0x8B, 0x9E, 8, 0]);
    assert_eq!(accept_params([1, 2, 3, 4, 5, 6]), vec![1, 2, 3, 4, 5, 6, 1]);
    let named = name_params([1, 2, 3, 4, 5, 6], 1, 0x1234);
    assert_eq!(named[..8], [1, 2, 3, 4, 5, 6, 1, 0]);
    assert_eq!(named.len(), 10);
    let e = encryption_params(0x0040, 0x0102030405060708, 0x1122, &[7; 16]);
    assert_eq!(e[..12], [0x40, 0, 8, 7, 6, 5, 4, 3, 2, 1, 0x22, 0x11]);
    assert_eq!(e[12..], [7; 16]);
    let c = connect_params([1, 2, 3, 4, 5, 6], 1, 6, 9);
    assert_eq!(c.len(), 25);
    assert_eq!(c[5], 1);
    assert_eq!(c[6..12], [6, 5, 4, 3, 2, 1]);
    assert_eq!(c[13..17], [6, 0, 9, 0]);
}

#[test]
fn a_short_interval_is_asked_for_before_the_official_one() {
    assert_eq!(interval_for(0), Some((4, 6)));
    assert_eq!(interval_for(1), Some((6, 12)));
    assert_eq!(interval_for(2), None);
}

#[test]
fn numbers_are_kept_in_range() {
    assert_eq!(page_slots(0), 1);
    assert_eq!(page_slots(0x2000), 0x2000);
    assert_eq!(page_slots(0x1_0000), 0xFFFF);
    assert_eq!(inquiry_units(0), 1);
    assert_eq!(inquiry_units(8), 8);
    assert_eq!(inquiry_units(200), 0x30);
}

#[test]
fn a_connection_comes_up_or_is_given_up() {
    let up = Event::LeConnectionComplete {
        status: 0,
        conn_handle: 0x40,
        interval: 12,
        supervision_timeout: 500,
    };
    let mut c = LeConnect::new();
    assert_eq!(c.step(Some(Event::InquiryComplete { status: 0 })), LeVerdict::Waiting);
    let link = LinkParams { conn_handle: 0x40, interval: 12, supervision_timeout: 500 };
    assert_eq!(c.step(Some(up)), LeVerdict::Connected(link));
    assert_eq!(link.timeout_ms(), 5000);

    let mut c = LeConnect::new();
    let mut reads = 0;
    let cancel = loop {
        reads += 1;
        match c.step(None) {
            LeVerdict::Waiting => {}
            LeVerdict::Connected(_) => panic!("connected to nothing"),
            LeVerdict::Failed { cancel, .. } => break cancel,
        }
    };
    assert_eq!(reads, 40);
    assert!(cancel);
}

#[test]
fn a_refused_connection_says_so() {
    let mut c = LeConnect::new();
    let e = Event::LeConnectionComplete {
        status: 0x3E,
        conn_handle: 0,
        interval: 0,
        supervision_timeout: 0,
    };
    assert!(matches!(c.step(Some(e)), LeVerdict::Failed { .. }));
    let mut c = LeConnect::new();
    let e = Event::CommandStatus { status: 0x0C, opcode: Opcode(Opcode::LE_CREATE_CONNECTION) };
    assert!(matches!(c.step(Some(e)), LeVerdict::Failed { .. }));
}

#[test]
fn a_feature_bit_says_that_classic_is_missing() {
    let with = |b: u8| complete(Opcode::READ_LOCAL_FEATURES, &[0, 0, 0, 0, 0, b, 0, 0, 0]);
    assert_eq!(supports_bredr(&with(0x00)), Ok(true));
    assert_eq!(supports_bredr(&with(0x20)), Ok(false));
    assert!(supports_bredr(&complete(Opcode::READ_LOCAL_FEATURES, &[0, 0])).is_err());
}

#[test]
fn an_inquiry_gathers_what_answers() {
    let r = InquiryResult {
        address: [1; 6],
        page_scan_repetition_mode: 1,
        class_of_device: [8, 5, 0],
        clock_offset: 3,
        rssi: None,
    };
    let mut i = Inquiry::new();
    assert_eq!(
        i.step(Event::InquiryResults(vec![r.clone(), r.clone()])),
        InquiryVerdict::Found(2)
    );
    assert_eq!(i.step(Event::LinkKeyRequest { address: [0; 6] }), InquiryVerdict::Waiting);
    assert_eq!(i.found, vec![r.clone(), r]);
    assert_eq!(i.step(Event::InquiryComplete { status: 0 }), InquiryVerdict::Over);
    assert!(matches!(
        i.step(Event::CommandStatus { status: 0x0C, opcode: Opcode(Opcode::INQUIRY) }),
        InquiryVerdict::Refused(_)
    ));
}

#[test]
fn scanning_is_switched_and_read() {
    assert!(scan_enabled(2, &complete(Opcode::WRITE_SCAN_ENABLE, &[0])).is_ok());
    assert!(scan_enabled(2, &complete(Opcode::WRITE_SCAN_ENABLE, &[0x11])).is_err());
    assert_eq!(scan_state(&complete(Opcode::READ_SCAN_ENABLE, &[0, 3])), Ok(3));
    assert!(scan_state(&complete(Opcode::READ_SCAN_ENABLE, &[0])).is_err());
}

#[test]
fn a_name_is_that_of_the_device_asked() {
    let named = |status: u8| Event::RemoteNameComplete {
        status,
        address: [1; 6],
        name: "Pad".to_string(),
    };
    assert_eq!(name_of([1; 6], named(0)), Some(Ok("Pad".to_string())));
    assert!(matches!(name_of([1; 6], named(4)), Some(Err(_))));
    assert_eq!(name_of([2; 6], named(0)), None);
}

#[test]
fn bytes_are_listed_in_brackets() {
    let mut s = String::from("> ");
    push_listed_bytes(&mut s, &[1, 0xAB]);
    assert_eq!(s, "> [01, ab]");
    let mut s = String::new();
    push_listed_bytes(&mut s, &[]);
    assert_eq!(s, "[]");
}
