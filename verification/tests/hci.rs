//! Commands and events.
use flexinput_btle::hci::{
    encode_command, parse_event, parse_inquiry_results, AdvReport, Event, InquiryResult, Opcode,
    EVT_COMMAND_COMPLETE, EVT_COMMAND_STATUS, EVT_CONNECTION_COMPLETE, EVT_DISCONNECTION_COMPLETE,
    EVT_ENCRYPTION_CHANGE, EVT_LE_META, EVT_LINK_KEY_NOTIFICATION, EVT_REMOTE_NAME_COMPLETE,
    SUBEVT_LE_ADVERTISING_REPORT,
};
use flexinput_btle::Error;

#[test]
fn a_transfer_holding_several_events_frames_them_all() {
    let mut stream: Vec<u8> = Vec::new();
    stream.extend_from_slice(&[0xFC, 0x03, 0xAA, 0xBB, 0xCC]);
    let adv: [u8; 12] = [
        SUBEVT_LE_ADVERTISING_REPORT, 0x01, 0x00, 0x00,
        0x78, 0x1b, 0xfd, 0x05, 0x48, 0xc8, 0x00, 0xE2,
    ];
    stream.push(EVT_LE_META);
    stream.push(adv.len() as u8);
    stream.extend_from_slice(&adv);

    let mut events = Vec::new();
    let mut i = 0;
    while stream.len() >= i + 2 {
        let want = 2 + stream[i + 1] as usize;
        assert!(stream.len() >= i + want, "framing walked off the end");
        events.push(parse_event(&stream[i..i + want]).expect("each event decodes"));
        i += want;
    }
    assert_eq!(i, stream.len(), "the whole buffer must be consumed");
    assert_eq!(events.len(), 2, "both events must be recovered");
    assert!(matches!(events[0], Event::Other { code: 0xFC, .. }));
    assert!(
        matches!(events[1], Event::LeAdvertisingReport(_)),
        "the SECOND event is the advertising report — the one that used to \
         be swallowed, and the one discovery depends on",
    );
}

#[test]
fn a_truncated_vendor_event_is_kept_not_rejected() {
    let mut buf = vec![0xFC, 19];
    buf.extend_from_slice(&[1, 2, 3, 4, 5, 6, 7, 8, 9]);
    match parse_event(&buf) {
        Ok(Event::Other { code, params }) => {
            assert_eq!(code, 0xFC);
            assert_eq!(params.len(), 9, "the bytes that DID arrive are kept");
        }
        other => panic!("expected Event::Other, got {other:?}"),
    }
}

#[test]
fn a_truncated_decoded_event_is_still_an_error() {
    for code in [
        EVT_COMMAND_COMPLETE,
        EVT_COMMAND_STATUS,
        EVT_DISCONNECTION_COMPLETE,
        EVT_ENCRYPTION_CHANGE,
        EVT_LE_META,
    ] {
        let buf = vec![code, 19, 1, 2, 3];
        assert!(
            parse_event(&buf).is_err(),
            "{code:#04x} truncated must not decode",
        );
    }
}

#[test]
fn reset_opcode_is_0x0c03() {
    assert_eq!(Opcode::RESET, 0x0C03);
    assert_eq!(Opcode::LE_SET_SCAN_ENABLE, 0x200C);
    assert_eq!(Opcode::LE_SET_SCAN_PARAMETERS, 0x200B);
}

#[test]
fn reset_encodes_to_three_bytes_with_no_type_prefix() {
    assert_eq!(encode_command(Opcode(Opcode::RESET), &[]), vec![0x03, 0x0C, 0x00]);
}

#[test]
fn command_encodes_params_after_the_length() {
    assert_eq!(
        encode_command(Opcode(Opcode::LE_SET_SCAN_ENABLE), &[0x01, 0x00]),
        vec![0x0C, 0x20, 0x02, 0x01, 0x00],
    );
}

#[test]
fn parses_a_reset_command_complete() {
    let evt = parse_event(&[0x0E, 0x04, 0x01, 0x03, 0x0C, 0x00]).unwrap();
    let Event::CommandComplete(cc) = evt else {
        panic!("expected Command Complete, got {evt:?}");
    };
    assert_eq!(cc.opcode, Opcode(Opcode::RESET));
    assert_eq!(cc.num_hci_command_packets, 1);
    assert!(cc.succeeded());
}

#[test]
fn a_nonzero_status_is_not_success() {
    let evt = parse_event(&[0x0E, 0x04, 0x01, 0x03, 0x0C, 0x12]).unwrap();
    let Event::CommandComplete(cc) = evt else { panic!() };
    assert_eq!(cc.status(), Some(0x12));
    assert!(!cc.succeeded());
}

#[test]
fn unknown_events_are_preserved_not_dropped() {
    let evt = parse_event(&[0x3E, 0x02, 0xAA, 0xBB]).unwrap();
    assert_eq!(
        evt,
        Event::Other { code: 0x3E, params: vec![0xAA, 0xBB] }
    );
}

#[test]
fn parses_an_advertising_report_with_nintendo_manufacturer_data() {
    let body = [
        0x02,
        0x01,
        0x00,
        0x00,
        0x78, 0x1b, 0xfd, 0x05, 0x48, 0xc8,
        0x0b,
        0x0a, 0xff, 0x53, 0x05, 0x00, 0x00, 0x00, 0x7e, 0x05, 0x66, 0x20,
        0xc4,
    ];
    let mut packet = vec![EVT_LE_META, body.len() as u8];
    packet.extend_from_slice(&body);

    let Event::LeAdvertisingReport(r) = parse_event(&packet).unwrap() else {
        panic!("expected an advertising report");
    };
    assert_eq!(r.address, [0xc8, 0x48, 0x05, 0xfd, 0x1b, 0x78]);
    assert_eq!(r.rssi, -60);

    let md = r.manufacturer_data().expect("manufacturer data present");
    assert_eq!(u16::from_le_bytes([md[0], md[1]]), 0x0553, "Nintendo company id");
    assert_eq!(u16::from_le_bytes([md[5], md[6]]), 0x057E, "Nintendo VID");
    assert_eq!(u16::from_le_bytes([md[7], md[8]]), 0x2066, "Joy-Con 2 (R) PID");
}

#[test]
fn an_advert_without_manufacturer_data_returns_none() {
    let r = AdvReport {
        event_type: 0,
        address_type: 0,
        address: [0; 6],
        data: vec![0x05, 0x09, b't', b'e', b's', b't'],
        rssi: -40,
    };
    assert!(r.manufacturer_data().is_none());
}

#[test]
fn a_truncated_packet_is_rejected_rather_than_decoded() {
    assert!(parse_event(&[0x0E, 0x04, 0x01, 0x03]).is_err());
    assert!(parse_event(&[0x0E]).is_err());
}

#[test]
fn two_devices_in_one_event_decode_column_wise() {
    let mut p = vec![2u8];
    p.extend_from_slice(&[1, 1, 1, 1, 1, 1]);
    p.extend_from_slice(&[2, 2, 2, 2, 2, 2]);
    p.extend_from_slice(&[0x01, 0x02]);
    p.extend_from_slice(&[0x00, 0x00]);
    p.extend_from_slice(&[0x08, 0x05, 0x00]);
    p.extend_from_slice(&[0x04, 0x04, 0x24]);
    p.extend_from_slice(&[0x11, 0x00, 0x22, 0x00]);
    p.extend_from_slice(&[0xD0, 0xC0]);

    let got = parse_inquiry_results(0x22, &p);
    assert_eq!(got.len(), 2, "only {} of 2 devices decoded", got.len());
    assert_eq!(got[0].address, [1; 6]);
    assert_eq!(got[1].address, [2; 6]);
    assert_eq!(got[0].class_of_device, [0x08, 0x05, 0x00]);
    assert_eq!(got[1].class_of_device, [0x04, 0x04, 0x24]);
    assert_eq!(got[0].rssi, Some(-48));
    assert_eq!(got[1].rssi, Some(-64));
    assert_eq!(got[0].clock_offset, 0x0011);
}

#[test]
fn a_gamepad_is_recognised_from_its_class_of_device() {
    let pad = InquiryResult {
        address: [0; 6],
        class_of_device: [0x08, 0x05, 0x00],
        page_scan_repetition_mode: 0,
        clock_offset: 0,
        rssi: None,
    };
    assert!(pad.looks_like_a_gamepad(), "cod {:02x?}", pad.class_of_device);
    assert_eq!(pad.major_class(), 0x05);

    let headset = InquiryResult { class_of_device: [0x04, 0x04, 0x24], ..pad.clone() };
    assert!(!headset.looks_like_a_gamepad());
}

#[test]
fn a_truncated_inquiry_event_yields_nothing() {
    let p = vec![2u8, 1, 1, 1];
    assert!(parse_inquiry_results(0x22, &p).is_empty());
}

#[test]
fn a_remote_name_is_trimmed_at_its_first_nul() {
    let mut params = vec![0x00];
    params.extend_from_slice(&[0xAA; 6]);
    params.extend_from_slice(b"Pro Controller");
    params.resize(1 + 6 + 248, 0);
    let mut evt = vec![EVT_REMOTE_NAME_COMPLETE, params.len() as u8];
    evt.extend_from_slice(&params);

    match parse_event(&evt).expect("remote name event must decode") {
        Event::RemoteNameComplete { status, address, name } => {
            assert_eq!(status, 0);
            assert_eq!(address, [0xAA; 6]);
            assert_eq!(name, "Pro Controller", "name was {name:?}");
        }
        other => panic!("decoded as {other:?}"),
    }
}

#[test]
fn a_link_key_notification_decodes_address_key_and_type() {
    let mut params = Vec::new();
    params.extend_from_slice(&[0x11; 6]);
    params.extend_from_slice(&(0u8..16).collect::<Vec<u8>>());
    params.push(0x05);
    let mut evt = vec![EVT_LINK_KEY_NOTIFICATION, params.len() as u8];
    evt.extend_from_slice(&params);

    match parse_event(&evt).expect("must decode") {
        Event::LinkKeyNotification { address, key, key_type } => {
            assert_eq!(address, [0x11; 6]);
            assert_eq!(key[0], 0);
            assert_eq!(key[15], 15, "key decoded off the end: {key:02x?}");
            assert_eq!(key_type, 0x05);
        }
        other => panic!("decoded as {other:?}"),
    }
}

#[test]
fn a_classic_connection_complete_carries_handle_and_address() {
    let mut params = vec![0x00, 0x0C, 0x00];
    params.extend_from_slice(&[0xAB; 6]);
    params.push(0x01);
    params.push(0x00);
    let mut evt = vec![EVT_CONNECTION_COMPLETE, params.len() as u8];
    evt.extend_from_slice(&params);

    match parse_event(&evt).expect("must decode") {
        Event::ConnectionComplete { status, conn_handle, address } => {
            assert_eq!(status, 0);
            assert_eq!(conn_handle, 0x000C);
            assert_eq!(address, [0xAB; 6]);
        }
        other => panic!("decoded as {other:?}"),
    }
}

#[test]
fn the_classic_opcodes_are_the_spec_values() {
    assert_eq!(Opcode::INQUIRY, 0x0401);
    assert_eq!(Opcode::INQUIRY_CANCEL, 0x0402);
    assert_eq!(Opcode::REMOTE_NAME_REQUEST, 0x0419);
    assert_eq!(Opcode::READ_LOCAL_FEATURES, 0x1003);
    assert_eq!(Opcode::CREATE_CONNECTION, 0x0405);
    assert_eq!(Opcode::CREATE_CONNECTION_CANCEL, 0x0408);
    assert_eq!(Opcode::READ_SCAN_ENABLE, 0x0C19);
    assert_eq!(Opcode::LINK_KEY_REQUEST_REPLY, 0x040B);
    assert_eq!(Opcode::LINK_KEY_REQUEST_NEGATIVE_REPLY, 0x040C);
    assert_eq!(Opcode::AUTHENTICATION_REQUESTED, 0x0411);
    assert_eq!(Opcode::SET_CONNECTION_ENCRYPTION, 0x0413);
    assert_eq!(Opcode::IO_CAPABILITY_REQUEST_REPLY, 0x042B);
    assert_eq!(Opcode::USER_CONFIRMATION_REQUEST_REPLY, 0x042C);
    assert_eq!(Opcode::WRITE_SIMPLE_PAIRING_MODE, 0x0C56);
}

#[test]
fn an_opcode_is_its_group_and_its_number() {
    assert_eq!(Opcode::new(0x03, 0x0003), Opcode(Opcode::RESET));
    assert_eq!(Opcode::new(0x08, 0x000C), Opcode(Opcode::LE_SET_SCAN_ENABLE));
}

#[test]
fn a_name_that_is_no_text_is_replaced_not_refused() {
    let mut params = vec![0x00];
    params.extend_from_slice(&[0xAA; 6]);
    params.extend_from_slice(&[b'P', 0xFF, b'o', 0x00, b'x']);
    let mut evt = vec![EVT_REMOTE_NAME_COMPLETE, params.len() as u8];
    evt.extend_from_slice(&params);
    match parse_event(&evt).expect("decodes") {
        Event::RemoteNameComplete { name, .. } => assert_eq!(name, "P\u{FFFD}o"),
        other => panic!("decoded as {other:?}"),
    }
}

#[test]
fn what_follows_an_event_does_not_change_it() {
    let one = parse_event(&[0x0E, 0x04, 0x01, 0x03, 0x0C, 0x00]).unwrap();
    let more = parse_event(&[0x0E, 0x04, 0x01, 0x03, 0x0C, 0x00, 0xFC, 0x01, 0x99]).unwrap();
    assert_eq!(one, more);
}

#[test]
fn a_short_event_says_how_short_it_is() {
    match parse_event(&[0x0E, 19, 1, 2, 3]) {
        Err(Error::Protocol(m)) => assert_eq!(m, "event 0x0e claims 19 params, got 3"),
        other => panic!("{other:?}"),
    }
    match parse_event(&[0x0E]) {
        Err(Error::Protocol(m)) => assert_eq!(m, "event packet too short: 1 bytes"),
        other => panic!("{other:?}"),
    }
}

#[test]
fn an_le_connection_carries_what_was_negotiated() {
    let mut p = vec![0x01, 0x00, 0x40, 0x00, 0x00, 0x00];
    p.extend_from_slice(&[1, 2, 3, 4, 5, 6]);
    p.extend_from_slice(&[0x06, 0x00, 0x00, 0x00, 0xF4, 0x01, 0x00]);
    let mut evt = vec![EVT_LE_META, p.len() as u8];
    evt.extend_from_slice(&p);
    assert_eq!(
        parse_event(&evt).unwrap(),
        Event::LeConnectionComplete {
            status: 0,
            conn_handle: 0x0040,
            interval: 6,
            supervision_timeout: 500,
        }
    );
}

#[test]
fn a_copy_of_an_event_is_the_same_event() {
    let all = vec![
        parse_event(&[0x0E, 0x04, 0x01, 0x03, 0x0C, 0x00]).unwrap(),
        Event::InquiryComplete { status: 3 },
        Event::RemoteNameComplete { status: 0, address: [1; 6], name: "pad".to_string() },
        Event::Other { code: 0xFC, params: vec![1, 2, 3] },
    ];
    for e in &all {
        assert_eq!(&e.clone(), e);
    }
}
