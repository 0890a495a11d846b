//! Signalling commands.
use flexinput_btle::l2cap::{
    configure_request, configure_response, connection_request, connection_response,
    disconnection_request, encode_signal, parse_configure_request, parse_configure_response,
    parse_configure_response_full, parse_connection_request, parse_connection_response,
    parse_signal, PSM_HID_INTERRUPT, SIG_CONNECTION_REQUEST,
};

#[test]
fn a_signalling_command_round_trips() {
    let body = connection_request(PSM_HID_INTERRUPT, 0x0041);
    let raw = encode_signal(SIG_CONNECTION_REQUEST, 7, &body);
    let s = parse_signal(&raw).expect("must decode");
    assert_eq!(s.code, SIG_CONNECTION_REQUEST);
    assert_eq!(s.identifier, 7);
    assert_eq!(s.data, body);
    assert_eq!(u16::from_le_bytes([s.data[0], s.data[1]]), 0x0013);
    assert_eq!(u16::from_le_bytes([s.data[2], s.data[3]]), 0x0041);
}

#[test]
fn a_truncated_signal_is_refused() {
    assert!(parse_signal(&[0x02, 0x01]).is_none());
    assert!(parse_signal(&[0x02, 0x01, 0x08, 0x00, 0xAA, 0xBB]).is_none());
}

#[test]
fn a_connection_response_keeps_the_two_channel_ids_apart() {
    let data = [0x45, 0x00, 0x41, 0x00, 0x00, 0x00, 0x00, 0x00];
    let r = parse_connection_response(&data).expect("must decode");
    assert_eq!(r.dest_cid, 0x0045, "the id to SEND to");
    assert_eq!(r.source_cid, 0x0041, "the id we RECEIVE on");
    assert_eq!(r.result, 0, "success");
}

#[test]
fn a_refused_connection_is_reported_as_such() {
    let data = [0x00, 0x00, 0x41, 0x00, 0x02, 0x00, 0x00, 0x00];
    let r = parse_connection_response(&data).expect("must decode");
    assert_eq!(r.result, 2, "PSM not supported");
}

#[test]
fn configuration_options_are_echoed_back_unchanged() {
    let opts = [0x01, 0x02, 0x40, 0x00];
    let mut req = Vec::new();
    req.extend_from_slice(&0x0041u16.to_le_bytes());
    req.extend_from_slice(&0u16.to_le_bytes());
    req.extend_from_slice(&opts);
    let (cid, got) = parse_configure_request(&req).expect("must decode");
    assert_eq!(cid, 0x0041);
    assert_eq!(got, opts);
    let resp = configure_response(0x0045, &got);
    assert_eq!(&resp[6..], &opts, "options were not echoed");
    assert_eq!(u16::from_le_bytes([resp[4], resp[5]]), 0, "must say success");
}

#[test]
fn bodies_have_their_bytes() {
    assert_eq!(connection_response(0x0045, 0x0041, 0), vec![0x45, 0, 0x41, 0, 0, 0, 0, 0]);
    assert_eq!(configure_request(0x0045, 672), vec![0x45, 0, 0, 0, 0x01, 0x02, 0xA0, 0x02]);
    assert_eq!(disconnection_request(0x0045, 0x0041), vec![0x45, 0, 0x41, 0]);
    assert_eq!(parse_connection_request(&[0x13, 0, 0x45, 0]), Some((0x0013, 0x0045)));
    assert_eq!(parse_connection_request(&[0x13, 0, 0x45]), None);
    assert_eq!(parse_configure_response_full(&[0x41, 0, 0, 0, 2, 0]), Some((0x0041, 2)));
    assert_eq!(parse_configure_response(&[0x41, 0, 0, 0, 2, 0]), Some(2));
    assert_eq!(parse_configure_response(&[0x41, 0]), None);
}
