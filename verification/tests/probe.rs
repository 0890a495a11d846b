//! Probing a dongle and a link.
use flexinput_btle::acl::CID_ATT;
use flexinput_btle::hci::{CommandComplete, Opcode};
use flexinput_btle::probe::{
    bluetooth_version_name, company_name, disconnect_reason, hexdump, local_version,
    parse_loose_addr, printable, Hold, HoldSays, LocalVersion,
};
use flexinput_btle::AclPacket;

#[test]
fn an_address_may_be_punctuated_in_any_way() {
    let a = Some([0xAA, 0xBB, 0xCC, 0xDD, 0xEE, 0x0F]);
    assert_eq!(parse_loose_addr("AA:bb:CC:dd:EE:0f"), a);
    assert_eq!(parse_loose_addr("aabbccddee0f"), a);
    assert_eq!(parse_loose_addr("aa-bb-cc-dd-ee-0f "), a);
    assert_eq!(parse_loose_addr("aabbccddee0"), None);
    assert_eq!(parse_loose_addr("aabbccddee0f1"), None);
}

#[test]
fn the_version_of_a_dongle() {
    let mut c = CommandComplete {
        num_hci_command_packets: 1,
        opcode: Opcode(Opcode::READ_LOCAL_VERSION),
        params: vec![0, 0x0A, 0x34, 0x12, 0x0B, 0x5D, 0x00, 0, 0],
    };
    assert_eq!(
        local_version(&c),
        Some(LocalVersion { hci_version: 0x0A, lmp_version: 0x0B, manufacturer: 0x005D })
    );
    assert_eq!(company_name(0x005D), "Realtek");
    assert_eq!(bluetooth_version_name(0x0A), "5.1");
    c.params = vec![0, 1];
    assert_eq!(local_version(&c), None);
}

#[test]
fn reasons_have_names() {
    assert_eq!(disconnect_reason(0x3D), "MIC failure");
    assert_eq!(disconnect_reason(0x77), "unknown");
}

#[test]
fn a_link_that_is_held_is_counted() {
    let p = |cid: u16, payload: &[u8]| AclPacket { conn_handle: 1, cid, payload: payload.to_vec() };
    let mut h = Hold::new();
    let input = p(CID_ATT, &[0x1B, 0x0E, 0x00, 9]);
    for _ in 0..3 {
        assert_eq!(h.packet(&input), HoldSays::Input);
    }
    assert_eq!(h.packet(&input), HoldSays::Quiet);
    assert_eq!(h.packet(&p(CID_ATT, &[0x03, 0x05, 0x02])), HoldSays::Mtu(517));
    assert_eq!(h.packet(&p(CID_ATT, &[0x01, 0x12, 0, 0, 3])), HoldSays::AttError);
    for _ in 0..4 {
        assert_eq!(h.packet(&p(5, &[1])), HoldSays::NotAtt);
    }
    assert_eq!(h.packet(&p(5, &[1])), HoldSays::Quiet);
    assert_eq!(h.packet(&p(CID_ATT, &[0x13])), HoldSays::Att);
    assert_eq!((h.notifications, h.acl_in, h.mtu), (4, 12, Some(517)));
}

#[test]
fn a_dump_shows_sixteen_bytes_in_a_line() {
    let data: Vec<u8> = (0x38..0x49).collect();
    assert_eq!(
        hexdump(0x1FC040, &data),
        vec![
            "      001fc040  38 39 3a 3b 3c 3d 3e 3f 40 41 42 43 44 45 46 47  |89:;<=>?@ABCDEFG|",
            "      001fc050  48                                               |H|",
        ]
    );
    assert_eq!(hexdump(0, &data[..16]).len(), 1);
    assert!(hexdump(0, &[]).is_empty());
    assert_eq!(hexdump(u32::MAX, &[0]), vec![format!("      ffffffff  00{:45}  |.|", "")]);
}

#[test]
fn only_what_can_be_shown_is_shown() {
    assert_eq!(printable(&[0x1F, 0x20, 0x7E, 0x7F, 0xFF]), ". ~..");
    assert_eq!(printable(&[]), "");
}
