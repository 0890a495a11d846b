//! Framing of packets and of the attribute protocol.
use flexinput_btle::acl::{
    att_error_code, att_error_name, encode_acl, encode_acl_pb, exchange_mtu_request,
    find_information_request, is_attribute_not_found, parse_acl, parse_characteristic,
    parse_find_information_response, parse_notification, parse_read_by_type_response,
    parse_read_response, read_by_type_request, read_request, split_acl, write_command,
    write_request, AttUuid, AttrInfo, ATT_ERROR_RESPONSE, ATT_ERR_ATTRIBUTE_NOT_FOUND,
    ATT_FIND_INFORMATION_REQUEST, ATT_FIND_INFORMATION_RESPONSE, ATT_HANDLE_VALUE_NOTIFICATION,
    ATT_READ_BY_TYPE_RESPONSE, ATT_READ_RESPONSE, ATT_WRITE_COMMAND, ATT_WRITE_REQUEST,
    ATT_WRITE_RESPONSE, CID_ATT, GATT_CCCD, PB_FIRST_FLUSHABLE, PROP_INDICATE, PROP_NOTIFY,
    PROP_READ, PROP_WRITE, PROP_WRITE_NO_RESPONSE,
};

#[test]
fn acl_framing_round_trips() {
    let att = write_command(0x0016, &[0xaa, 0xbb]);
    let acl = encode_acl(0x0040, CID_ATT, &att);

    assert_eq!(&acl[0..2], &[0x40, 0x00]);
    assert_eq!(u16::from_le_bytes([acl[2], acl[3]]) as usize, att.len() + 4);

    let parsed = parse_acl(&acl).expect("round trip");
    assert_eq!(parsed.conn_handle, 0x0040);
    assert_eq!(parsed.cid, CID_ATT);
    assert_eq!(parsed.payload, att);
}

#[test]
fn write_command_uses_the_unacknowledged_opcode() {
    let pdu = write_command(0x0016, &[1, 2, 3]);
    assert_eq!(pdu[0], ATT_WRITE_COMMAND);
    assert_eq!(u16::from_le_bytes([pdu[1], pdu[2]]), 0x0016);
    assert_eq!(&pdu[3..], &[1, 2, 3]);
}

#[test]
fn parses_a_notification_on_the_input_handle() {
    let mut att = vec![ATT_HANDLE_VALUE_NOTIFICATION, 0x0e, 0x00];
    att.extend_from_slice(&[0x01, 0x18, 0x00]);
    let n = parse_notification(&att).expect("notification");
    assert_eq!(n.handle, 0x000e);
    assert_eq!(n.value, vec![0x01, 0x18, 0x00]);
}

#[test]
fn a_write_response_is_not_mistaken_for_a_notification() {
    assert!(parse_notification(&[ATT_WRITE_RESPONSE]).is_none());
    assert!(parse_notification(&[ATT_ERROR_RESPONSE, 0x12, 0x0e, 0x00, 0x05]).is_none());
}

#[test]
fn find_information_response_decodes_short_uuids() {
    let att = [
        ATT_FIND_INFORMATION_RESPONSE,
        0x01,
        0x0f, 0x00, 0x02, 0x29,
        0x10, 0x00, 0x01, 0x29,
    ];
    let got = parse_find_information_response(&att).expect("decodes");
    assert_eq!(got.len(), 2);
    assert_eq!(got[0], AttrInfo { handle: 0x000f, uuid: AttUuid::Short(GATT_CCCD) });
    assert_eq!(got[1].handle, 0x0010);
}

#[test]
fn find_information_response_decodes_a_vendor_128_bit_uuid() {
    let mut att = vec![ATT_FIND_INFORMATION_RESPONSE, 0x02, 0x0a, 0x00];
    let be: [u8; 16] = [
        0xab, 0x7d, 0xe9, 0xbe, 0x89, 0xfe, 0x49, 0xad,
        0x82, 0x8f, 0x11, 0x8f, 0x09, 0xdf, 0x7f, 0xd2,
    ];
    att.extend(be.iter().rev().copied());
    let got = parse_find_information_response(&att).expect("decodes");
    assert_eq!(got.len(), 1);
    assert_eq!(got[0].handle, 0x000a);
    assert_eq!(
        got[0].uuid.to_text(),
        "ab7de9be-89fe-49ad-828f-118f09df7fd2"
    );
}

#[test]
fn a_characteristic_declaration_yields_its_value_handle_and_properties() {
    let mut value = vec![0x02 | PROP_NOTIFY, 0x0e, 0x00];
    value.extend_from_slice(&[0u8; 16]);
    let c = parse_characteristic(0x000d, &value).expect("decodes");
    assert_eq!(c.value_handle, 0x000e);
    assert!(c.notifiable());

    let mut w = vec![0x04, 0x16, 0x00];
    w.extend_from_slice(&[0u8; 16]);
    assert!(!parse_characteristic(0x0015, &w).expect("decodes").notifiable());
}

#[test]
fn the_write_opcode_follows_the_declared_properties() {
    let decl = |props: u8| {
        let mut v = vec![props, 0x14, 0x00];
        v.extend_from_slice(&[0u8; 16]);
        parse_characteristic(0x0013, &v).expect("decodes")
    };

    let cmd = decl(PROP_WRITE_NO_RESPONSE);
    assert_eq!(cmd.write_opcode(), Some(ATT_WRITE_COMMAND));
    assert!(!cmd.notifiable());

    assert_eq!(decl(PROP_READ | PROP_WRITE).write_opcode(), Some(ATT_WRITE_REQUEST));
    assert_eq!(
        decl(PROP_WRITE | PROP_WRITE_NO_RESPONSE).write_opcode(),
        Some(ATT_WRITE_REQUEST)
    );
    assert_eq!(decl(PROP_READ | PROP_NOTIFY).write_opcode(), None);
}

#[test]
fn a_read_response_yields_the_declaration_bytes() {
    let mut rsp = vec![ATT_READ_RESPONSE, PROP_WRITE_NO_RESPONSE, 0x14, 0x00];
    rsp.extend_from_slice(&[0u8; 16]);
    let value = parse_read_response(&rsp).expect("decodes");
    let c = parse_characteristic(0x0013, &value).expect("decodes");
    assert_eq!(c.value_handle, 0x0014);
    assert_eq!(c.write_opcode(), Some(ATT_WRITE_COMMAND));

    assert!(parse_read_response(&[ATT_ERROR_RESPONSE, 0x0a, 0x14, 0x00, 0x02]).is_none());
}

#[test]
fn the_end_of_a_walk_is_recognised_as_completion_not_failure() {
    assert!(is_attribute_not_found(&[
        ATT_ERROR_RESPONSE, ATT_FIND_INFORMATION_REQUEST, 0x20, 0x00,
        ATT_ERR_ATTRIBUTE_NOT_FOUND,
    ]));
    assert!(!is_attribute_not_found(&[
        ATT_ERROR_RESPONSE, ATT_FIND_INFORMATION_REQUEST, 0x20, 0x00, 0x05,
    ]));
}

#[test]
fn truncated_acl_is_rejected_rather_than_decoded() {
    let acl = encode_acl(0x0040, CID_ATT, &[0x52, 0x16, 0x00, 0xff]);
    for cut in 1..acl.len() {
        assert!(
            parse_acl(&acl[..cut]).is_none(),
            "a {cut}-byte prefix must not decode"
        );
    }
    assert!(parse_acl(&acl).is_some());
}

fn packet(handle: u16, pb: u16, att: &[u8]) -> Vec<u8> {
    let mut v = Vec::new();
    v.extend_from_slice(&((handle & 0x0FFF) | (pb << 12)).to_le_bytes());
    v.extend_from_slice(&((att.len() + 4) as u16).to_le_bytes());
    v.extend_from_slice(&(att.len() as u16).to_le_bytes());
    v.extend_from_slice(&CID_ATT.to_le_bytes());
    v.extend_from_slice(att);
    v
}

#[test]
fn every_packet_in_a_transfer_is_recovered() {
    let mut buf = Vec::new();
    buf.extend(packet(0x0040, 0b00, &[0x1b, 0x0e, 0x00, 1, 2, 3]));
    buf.extend(packet(0x0041, 0b00, &[0x1b, 0x0e, 0x00, 4, 5, 6]));
    buf.extend(packet(0x0040, 0b00, &[0x1b, 0x0e, 0x00, 7, 8, 9]));

    let got = split_acl(&buf);
    assert_eq!(got.len(), 3, "only {} of 3 packets recovered", got.len());
    assert_eq!(got[0].conn_handle, 0x0040);
    assert_eq!(got[1].conn_handle, 0x0041, "the second link's report was lost");
    assert_eq!(got[2].payload, vec![0x1b, 0x0e, 0x00, 7, 8, 9]);
}

#[test]
fn a_truncated_tail_costs_only_itself() {
    let mut buf = packet(0x0040, 0b00, &[0x1b, 0x0e, 0x00, 1, 2, 3]);
    let partial = packet(0x0040, 0b00, &[0x1b, 0x0e, 0x00, 4, 5, 6]);
    buf.extend_from_slice(&partial[..partial.len() - 3]);
    let got = split_acl(&buf);
    assert_eq!(got.len(), 1);
    assert_eq!(got[0].payload, vec![0x1b, 0x0e, 0x00, 1, 2, 3]);
}

#[test]
fn a_continuation_fragment_is_refused() {
    let frag = packet(0x0040, 0b01, &[0x1b, 0x0e, 0x00, 1, 2, 3]);
    assert!(
        parse_acl(&frag).is_none(),
        "a continuation fragment was decoded as a fresh L2CAP packet",
    );
    let first = packet(0x0040, 0b00, &[0x1b, 0x0e, 0x00, 1, 2, 3]);
    assert!(parse_acl(&first).is_some());
}

#[test]
fn a_classic_packet_carries_the_flushable_flag() {
    let p = encode_acl_pb(0x0040, 0x0041, &[1, 2], PB_FIRST_FLUSHABLE);
    assert_eq!(p, vec![0x40, 0x20, 0x06, 0x00, 0x02, 0x00, 0x41, 0x00, 1, 2]);
    let back = parse_acl(&p).expect("decodes");
    assert_eq!((back.conn_handle, back.cid), (0x0040, 0x0041));
    assert_eq!(back.payload, vec![1, 2]);
}

#[test]
fn an_inner_length_beyond_the_packet_is_refused() {
    assert!(parse_acl(&[0x40, 0x00, 0x05, 0x00, 0x09, 0x00, 0x04, 0x00, 0xAA]).is_none());
    assert!(split_acl(&[]).is_empty());
    assert!(split_acl(&[0x40, 0x00, 0x01]).is_empty());
}

#[test]
fn requests_have_their_bytes() {
    assert_eq!(write_request(0x000f, &[0x01, 0x00]), vec![0x12, 0x0f, 0x00, 0x01, 0x00]);
    assert_eq!(exchange_mtu_request(517), vec![0x02, 0x05, 0x02]);
    assert_eq!(find_information_request(1, 0xFFFF), vec![0x04, 0x01, 0x00, 0xFF, 0xFF]);
    assert_eq!(
        read_by_type_request(1, 0xFFFF, 0x2803),
        vec![0x08, 0x01, 0x00, 0xFF, 0xFF, 0x03, 0x28]
    );
    assert_eq!(read_request(0x2A00), vec![0x0A, 0x00, 0x2A]);
}

#[test]
fn a_read_by_type_response_is_cut_into_its_entries() {
    let att = [ATT_READ_BY_TYPE_RESPONSE, 4, 0x0d, 0x00, 7, 8, 0x0e, 0x00, 9, 10, 0xFF];
    let got = parse_read_by_type_response(&att).expect("decodes");
    assert_eq!(got, vec![(0x000d, vec![7, 8]), (0x000e, vec![9, 10])]);
    assert!(parse_read_by_type_response(&[ATT_READ_BY_TYPE_RESPONSE, 2, 0, 0]).is_none());
}

#[test]
fn properties_are_spelled_in_order() {
    let spell = |props: u8| {
        parse_characteristic(1, &[props, 0x14, 0x00, 0x02, 0x29]).expect("decodes").properties_text()
    };
    assert_eq!(spell(PROP_READ | PROP_NOTIFY), "READ|NOTIFY");
    assert_eq!(
        spell(PROP_WRITE_NO_RESPONSE | PROP_WRITE | PROP_INDICATE),
        "WRITE_NO_RSP|WRITE|INDICATE"
    );
    assert_eq!(spell(0), "none");
    assert!(parse_characteristic(1, &[PROP_READ, 0x14, 0x00]).is_none());
}

#[test]
fn a_short_type_has_four_digits() {
    assert_eq!(AttUuid::Short(GATT_CCCD).to_text(), "0x2902");
}

#[test]
fn errors_are_read_and_named() {
    let att = [ATT_ERROR_RESPONSE, 0x12, 0x14, 0x00, 0x03];
    assert_eq!(att_error_code(&att), Some(0x03));
    assert_eq!(att_error_name(0x03), "Write Not Permitted");
    assert_eq!(att_error_name(0x77), "unknown ATT error");
    assert_eq!(att_error_code(&[ATT_ERROR_RESPONSE, 0x12]), None);
}
